//! The transition table of the automaton.
//!
//! Each of the 81 base-81 digit values maps to a fixed pair of a counter
//! delta (in `-2..=4`) and an output symbol (a base-256 value).  The table is
//! immutable and identical across all runs.

use vstd::prelude::*;

verus! {

/// The table entry `(counter delta, output symbol)` for digit value `d`.
pub open spec fn table_spec(d: int) -> (int, int) {
    if d == 0 {
        (1, 2)
    } else if d == 1 {
        (1, 5)
    } else if d == 2 {
        (-1, 9)
    } else if d == 3 {
        (2, 11)
    } else if d == 4 {
        (0, 15)
    } else if d == 5 {
        (-2, 19)
    } else if d == 6 {
        (1, 21)
    } else if d == 7 {
        (1, 24)
    } else if d == 8 {
        (2, 27)
    } else if d == 9 {
        (2, 30)
    } else if d == 10 {
        (0, 34)
    } else if d == 11 {
        (0, 37)
    } else if d == 12 {
        (3, 39)
    } else if d == 13 {
        (1, 43)
    } else if d == 14 {
        (-1, 47)
    } else if d == 15 {
        (2, 49)
    } else if d == 16 {
        (0, 53)
    } else if d == 17 {
        (3, 55)
    } else if d == 18 {
        (3, 58)
    } else if d == 19 {
        (1, 62)
    } else if d == 20 {
        (-1, 66)
    } else if d == 21 {
        (-1, 69)
    } else if d == 22 {
        (2, 71)
    } else if d == 23 {
        (0, 75)
    } else if d == 24 {
        (3, 77)
    } else if d == 25 {
        (1, 81)
    } else if d == 26 {
        (-1, 85)
    } else if d == 27 {
        (2, 87)
    } else if d == 28 {
        (2, 90)
    } else if d == 29 {
        (0, 94)
    } else if d == 30 {
        (0, 97)
    } else if d == 31 {
        (-2, 101)
    } else if d == 32 {
        (-1, 104)
    } else if d == 33 {
        (-1, 107)
    } else if d == 34 {
        (2, 109)
    } else if d == 35 {
        (0, 113)
    } else if d == 36 {
        (3, 115)
    } else if d == 37 {
        (1, 119)
    } else if d == 38 {
        (1, 122)
    } else if d == 39 {
        (1, 125)
    } else if d == 40 {
        (-1, 129)
    } else if d == 41 {
        (0, 132)
    } else if d == 42 {
        (0, 135)
    } else if d == 43 {
        (-2, 139)
    } else if d == 44 {
        (1, 141)
    } else if d == 45 {
        (4, 143)
    } else if d == 46 {
        (2, 147)
    } else if d == 47 {
        (0, 151)
    } else if d == 48 {
        (0, 154)
    } else if d == 49 {
        (0, 157)
    } else if d == 50 {
        (1, 160)
    } else if d == 51 {
        (1, 163)
    } else if d == 52 {
        (-1, 167)
    } else if d == 53 {
        (0, 170)
    } else if d == 54 {
        (0, 173)
    } else if d == 55 {
        (3, 175)
    } else if d == 56 {
        (1, 179)
    } else if d == 57 {
        (1, 182)
    } else if d == 58 {
        (-1, 186)
    } else if d == 59 {
        (0, 189)
    } else if d == 60 {
        (0, 192)
    } else if d == 61 {
        (0, 195)
    } else if d == 62 {
        (1, 198)
    } else if d == 63 {
        (1, 201)
    } else if d == 64 {
        (-1, 205)
    } else if d == 65 {
        (2, 207)
    } else if d == 66 {
        (2, 210)
    } else if d == 67 {
        (0, 214)
    } else if d == 68 {
        (1, 217)
    } else if d == 69 {
        (1, 220)
    } else if d == 70 {
        (-1, 224)
    } else if d == 71 {
        (2, 226)
    } else if d == 72 {
        (2, 229)
    } else if d == 73 {
        (0, 233)
    } else if d == 74 {
        (-2, 237)
    } else if d == 75 {
        (1, 239)
    } else if d == 76 {
        (1, 242)
    } else if d == 77 {
        (2, 245)
    } else if d == 78 {
        (2, 248)
    } else if d == 79 {
        (0, 252)
    } else {
        (1, 255)
    }
}

/// The counter delta for digit value `d`.
pub open spec fn delta_spec(d: int) -> int {
    table_spec(d).0
}

/// The output symbol for digit value `d`.
pub open spec fn symbol_spec(d: int) -> int {
    table_spec(d).1
}

/// Every delta lies in `-2..=4` and every symbol is a byte value.
pub proof fn lemma_table_bounds(d: int)
    requires
        0 <= d < 81,
    ensures
        -2 <= delta_spec(d) <= 4,
        0 <= symbol_spec(d) < 256,
{
}

/// Looks a digit value up in the transition table.
pub fn lookup(d: u8) -> (r: (i8, u8))
    requires
        d < 81,
    ensures
        r.0 == delta_spec(d as int),
        r.1 == symbol_spec(d as int),
{
    match d {
        0 => (1, 2),
        1 => (1, 5),
        2 => (-1, 9),
        3 => (2, 11),
        4 => (0, 15),
        5 => (-2, 19),
        6 => (1, 21),
        7 => (1, 24),
        8 => (2, 27),
        9 => (2, 30),
        10 => (0, 34),
        11 => (0, 37),
        12 => (3, 39),
        13 => (1, 43),
        14 => (-1, 47),
        15 => (2, 49),
        16 => (0, 53),
        17 => (3, 55),
        18 => (3, 58),
        19 => (1, 62),
        20 => (-1, 66),
        21 => (-1, 69),
        22 => (2, 71),
        23 => (0, 75),
        24 => (3, 77),
        25 => (1, 81),
        26 => (-1, 85),
        27 => (2, 87),
        28 => (2, 90),
        29 => (0, 94),
        30 => (0, 97),
        31 => (-2, 101),
        32 => (-1, 104),
        33 => (-1, 107),
        34 => (2, 109),
        35 => (0, 113),
        36 => (3, 115),
        37 => (1, 119),
        38 => (1, 122),
        39 => (1, 125),
        40 => (-1, 129),
        41 => (0, 132),
        42 => (0, 135),
        43 => (-2, 139),
        44 => (1, 141),
        45 => (4, 143),
        46 => (2, 147),
        47 => (0, 151),
        48 => (0, 154),
        49 => (0, 157),
        50 => (1, 160),
        51 => (1, 163),
        52 => (-1, 167),
        53 => (0, 170),
        54 => (0, 173),
        55 => (3, 175),
        56 => (1, 179),
        57 => (1, 182),
        58 => (-1, 186),
        59 => (0, 189),
        60 => (0, 192),
        61 => (0, 195),
        62 => (1, 198),
        63 => (1, 201),
        64 => (-1, 205),
        65 => (2, 207),
        66 => (2, 210),
        67 => (0, 214),
        68 => (1, 217),
        69 => (1, 220),
        70 => (-1, 224),
        71 => (2, 226),
        72 => (2, 229),
        73 => (0, 233),
        74 => (-2, 237),
        75 => (1, 239),
        76 => (1, 242),
        77 => (2, 245),
        78 => (2, 248),
        79 => (0, 252),
        _ => (1, 255),
    }
}

} // verus!
