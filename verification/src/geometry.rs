use vstd::prelude::*;

verus! {

use vstd::arithmetic::div_mod::lemma_fundamental_div_mod;

// Directions over the flat square index, in the fixed order north, south,
// west, east, north-west, south-east, north-east, south-west.  Rays are
// bounded by the precomputed edge distances; knight leaps are checked in
// file/rank coordinates instead, because a flat offset would wrap around
// the side files.

pub const NORTH: usize = 0;
pub const SOUTH: usize = 1;
pub const WEST: usize = 2;
pub const EAST: usize = 3;
pub const NORTH_WEST: usize = 4;
pub const SOUTH_EAST: usize = 5;
pub const NORTH_EAST: usize = 6;
pub const SOUTH_WEST: usize = 7;

/// The file (column) of a flat square index.
pub open spec fn file_of(s: int) -> int {
    s % 8
}

/// The rank (row) of a flat square index.
pub open spec fn rank_of(s: int) -> int {
    s / 8
}

/// File delta of one step along a direction.
pub open spec fn dir_file_delta(d: int) -> int {
    if d == 0 {
        0
    } else if d == 1 {
        0
    } else if d == 2 {
        -1
    } else if d == 3 {
        1
    } else if d == 4 {
        -1
    } else if d == 5 {
        1
    } else if d == 6 {
        1
    } else {
        -1
    }
}

/// Rank delta of one step along a direction.
pub open spec fn dir_rank_delta(d: int) -> int {
    if d == 0 {
        1
    } else if d == 1 {
        -1
    } else if d == 2 {
        0
    } else if d == 3 {
        0
    } else if d == 4 {
        1
    } else if d == 5 {
        -1
    } else if d == 6 {
        1
    } else {
        -1
    }
}

/// Flat-index offset of one step along a direction: 8, -8, -1, 1, 7, -7, 9, -9.
pub open spec fn dir_offset(d: int) -> int {
    8 * dir_rank_delta(d) + dir_file_delta(d)
}

/// Number of squares between a square and the board edge along a direction.
pub open spec fn edge_dist(s: int, d: int) -> int {
    let f = file_of(s);
    let r = rank_of(s);
    let on_file = if dir_file_delta(d) == 1 {
        7 - f
    } else if dir_file_delta(d) == -1 {
        f
    } else {
        7
    };
    let on_rank = if dir_rank_delta(d) == 1 {
        7 - r
    } else if dir_rank_delta(d) == -1 {
        r
    } else {
        7
    };
    if on_file <= on_rank {
        on_file
    } else {
        on_rank
    }
}

/// File delta of each of the eight knight leaps.
pub open spec fn knight_file_delta(i: int) -> int {
    if i == 0 {
        2
    } else if i == 1 {
        2
    } else if i == 2 {
        1
    } else if i == 3 {
        -1
    } else if i == 4 {
        -2
    } else if i == 5 {
        -2
    } else if i == 6 {
        1
    } else {
        -1
    }
}

/// Rank delta of each of the eight knight leaps.
pub open spec fn knight_rank_delta(i: int) -> int {
    if i == 0 {
        1
    } else if i == 1 {
        -1
    } else if i == 2 {
        2
    } else if i == 3 {
        2
    } else if i == 4 {
        1
    } else if i == 5 {
        -1
    } else if i == 6 {
        -2
    } else {
        -2
    }
}

/// A rank/file pair names exactly one square.
pub proof fn lemma_square_decompose(r: int, f: int)
    requires
        0 <= r < 8,
        0 <= f < 8,
    ensures
        rank_of(8 * r + f) == r,
        file_of(8 * r + f) == f,
        0 <= 8 * r + f < 64,
{
    assert((8 * r + f) / 8 == r && (8 * r + f) % 8 == f) by (nonlinear_arith)
        requires
            0 <= r < 8,
            0 <= f < 8,
    ;
}

/// A square on the board has a file and a rank between 0 and 7, and is the
/// square its rank and file name.
pub proof fn lemma_square_bounds(s: int)
    requires
        0 <= s < 64,
    ensures
        0 <= file_of(s) < 8,
        0 <= rank_of(s) < 8,
        s == 8 * rank_of(s) + file_of(s),
{
    lemma_fundamental_div_mod(s, 8);
}

/// Stepping k times along a direction, within the edge distance, stays on
/// the board and moves the file and the rank by k deltas each.
pub proof fn lemma_ray_step(s: int, d: int, k: int)
    requires
        0 <= s < 64,
        0 <= d < 8,
        0 <= k <= edge_dist(s, d),
    ensures
        0 <= s + k * dir_offset(d) < 64,
        file_of(s + k * dir_offset(d)) == file_of(s) + k * dir_file_delta(d),
        rank_of(s + k * dir_offset(d)) == rank_of(s) + k * dir_rank_delta(d),
{
    lemma_square_bounds(s);
    let f = file_of(s);
    let r = rank_of(s);
    let df = dir_file_delta(d);
    let dr = dir_rank_delta(d);
    assert((df == -1 ==> k * df == -k) && (df == 0 ==> k * df == 0) && (df == 1 ==> k * df == k))
        by (nonlinear_arith);
    assert((dr == -1 ==> k * dr == -k) && (dr == 0 ==> k * dr == 0) && (dr == 1 ==> k * dr == k))
        by (nonlinear_arith);
    assert(k * (8 * dr + df) == 8 * (k * dr) + k * df) by (nonlinear_arith);
    assert(0 <= f + k * df < 8);
    assert(0 <= r + k * dr < 8);
    lemma_square_decompose(r + k * dr, f + k * df);
}

/// One step's flat-index offset along a direction.
pub fn direction_offset(d: usize) -> (o: i16)
    requires
        d < 8,
    ensures
        o as int == dir_offset(d as int),
{
    match d {
        0 => 8,
        1 => -8,
        2 => -1,
        3 => 1,
        4 => 7,
        5 => -7,
        6 => 9,
        _ => -9,
    }
}

/// The file and rank deltas of one knight leap.
pub fn knight_offset(i: usize) -> (o: (i16, i16))
    requires
        i < 8,
    ensures
        o.0 as int == knight_file_delta(i as int),
        o.1 as int == knight_rank_delta(i as int),
{
    match i {
        0 => (2, 1),
        1 => (2, -1),
        2 => (1, 2),
        3 => (-1, 2),
        4 => (-2, 1),
        5 => (-2, -1),
        6 => (1, -2),
        _ => (-1, -2),
    }
}

/// The board-wide table of edge distances: for every square, the number of
/// squares to the board edge in each of the eight directions.  Built once
/// per use and immutable thereafter.
pub fn num_squares_to_edge() -> (t: Vec<Vec<u8>>)
    ensures
        t@.len() == 64,
        forall|s: int| 0 <= s < 64 ==> (#[trigger] t@[s])@.len() == 8,
        forall|s: int, d: int|
            #![trigger t@[s]@[d]]
            0 <= s < 64 && 0 <= d < 8 ==> t@[s]@[d] as int == edge_dist(s, d),
{
    let mut t: Vec<Vec<u8>> = Vec::new();
    let mut s: usize = 0;
    while s < 64
        invariant
            s <= 64,
            t@.len() == s as int,
            forall|i: int| 0 <= i < s as int ==> (#[trigger] t@[i])@.len() == 8,
            forall|i: int, d: int|
                #![trigger t@[i]@[d]]
                0 <= i < s as int && 0 <= d < 8 ==> t@[i]@[d] as int == edge_dist(i, d),
        decreases 64 - s,
    {
        let file = (s % 8) as u8;
        let rank = (s / 8) as u8;
        let num_north: u8 = 7 - rank;
        let num_south: u8 = rank;
        let num_west: u8 = file;
        let num_east: u8 = 7 - file;
        let num_north_west: u8 = if num_north <= num_west {
            num_north
        } else {
            num_west
        };
        let num_south_east: u8 = if num_south <= num_east {
            num_south
        } else {
            num_east
        };
        let num_north_east: u8 = if num_north <= num_east {
            num_north
        } else {
            num_east
        };
        let num_south_west: u8 = if num_south <= num_west {
            num_south
        } else {
            num_west
        };
        let mut row: Vec<u8> = Vec::new();
        row.push(num_north);
        row.push(num_south);
        row.push(num_west);
        row.push(num_east);
        row.push(num_north_west);
        row.push(num_south_east);
        row.push(num_north_east);
        row.push(num_south_west);
        proof {
            lemma_square_bounds(s as int);
            assert forall|d: int| 0 <= d < 8 implies row@[d] as int == edge_dist(s as int, d) by {
                assert(file as int == file_of(s as int));
                assert(rank as int == rank_of(s as int));
            }
        }
        t.push(row);
        s += 1;
    }
    t
}

} // verus!
