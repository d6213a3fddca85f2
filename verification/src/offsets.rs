//! Vertical reach of one neck segment.
//!
//! A segment is 20 units long and hangs at an angle that the game keeps as a
//! sixteen-bit value; only the high byte `k` matters, one unit being 1/256 of
//! a full turn. The vertical offset of the segment's far end is
//! `floor(20 * cos(k * pi / 128))`, evaluated in double precision. Since `k`
//! has just 256 values the offsets are tabulated here as integers.
//!
//! The cosine is exactly zero at `k = 64` and `k = 192`. In double precision
//! the rounded argument gives a tiny positive cosine at 64 and a tiny negative
//! one at 192, so the tabulated offsets there are 0 and -1.
use vstd::prelude::*;

verus! {

/// The offset `floor(20 * cos(k * pi / 128))` for the angle byte `k`, given as
/// the runs of equal values: the offset falls from 20 at `k = 0` to -20
/// around the half turn and climbs back to 19.
pub open spec fn segment_offset(k: int) -> int {
    if k < 1 {
        20
    } else if k < 13 {
        19
    } else if k < 19 {
        18
    } else if k < 23 {
        17
    } else if k < 27 {
        16
    } else if k < 30 {
        15
    } else if k < 33 {
        14
    } else if k < 36 {
        13
    } else if k < 38 {
        12
    } else if k < 41 {
        11
    } else if k < 43 {
        10
    } else if k < 45 {
        9
    } else if k < 48 {
        8
    } else if k < 50 {
        7
    } else if k < 52 {
        6
    } else if k < 54 {
        5
    } else if k < 56 {
        4
    } else if k < 58 {
        3
    } else if k < 60 {
        2
    } else if k < 62 {
        1
    } else if k < 65 {
        0
    } else if k < 67 {
        -1
    } else if k < 69 {
        -2
    } else if k < 71 {
        -3
    } else if k < 73 {
        -4
    } else if k < 75 {
        -5
    } else if k < 77 {
        -6
    } else if k < 79 {
        -7
    } else if k < 81 {
        -8
    } else if k < 84 {
        -9
    } else if k < 86 {
        -10
    } else if k < 88 {
        -11
    } else if k < 91 {
        -12
    } else if k < 93 {
        -13
    } else if k < 96 {
        -14
    } else if k < 99 {
        -15
    } else if k < 102 {
        -16
    } else if k < 106 {
        -17
    } else if k < 110 {
        -18
    } else if k < 116 {
        -19
    } else if k < 141 {
        -20
    } else if k < 147 {
        -19
    } else if k < 151 {
        -18
    } else if k < 155 {
        -17
    } else if k < 158 {
        -16
    } else if k < 161 {
        -15
    } else if k < 164 {
        -14
    } else if k < 166 {
        -13
    } else if k < 169 {
        -12
    } else if k < 171 {
        -11
    } else if k < 173 {
        -10
    } else if k < 176 {
        -9
    } else if k < 178 {
        -8
    } else if k < 180 {
        -7
    } else if k < 182 {
        -6
    } else if k < 184 {
        -5
    } else if k < 186 {
        -4
    } else if k < 188 {
        -3
    } else if k < 190 {
        -2
    } else if k < 193 {
        -1
    } else if k < 195 {
        0
    } else if k < 197 {
        1
    } else if k < 199 {
        2
    } else if k < 201 {
        3
    } else if k < 203 {
        4
    } else if k < 205 {
        5
    } else if k < 207 {
        6
    } else if k < 209 {
        7
    } else if k < 212 {
        8
    } else if k < 214 {
        9
    } else if k < 216 {
        10
    } else if k < 219 {
        11
    } else if k < 221 {
        12
    } else if k < 224 {
        13
    } else if k < 227 {
        14
    } else if k < 230 {
        15
    } else if k < 234 {
        16
    } else if k < 238 {
        17
    } else if k < 244 {
        18
    } else {
        19
    }
}

/// Looks up [`segment_offset`] for an angle byte.
pub fn offset_of(k: u8) -> (r: i8)
    ensures
        r == segment_offset(k as int),
        -20 <= r <= 20,
{
    let table: [i8; 256] = [
         20,  19,  19,  19,  19,  19,  19,  19,  19,  19,  19,  19,  19,  18,  18,  18,
         18,  18,  18,  17,  17,  17,  17,  16,  16,  16,  16,  15,  15,  15,  14,  14,
         14,  13,  13,  13,  12,  12,  11,  11,  11,  10,  10,   9,   9,   8,   8,   8,
          7,   7,   6,   6,   5,   5,   4,   4,   3,   3,   2,   2,   1,   1,   0,   0,
          0,  -1,  -1,  -2,  -2,  -3,  -3,  -4,  -4,  -5,  -5,  -6,  -6,  -7,  -7,  -8,
         -8,  -9,  -9,  -9, -10, -10, -11, -11, -12, -12, -12, -13, -13, -14, -14, -14,
        -15, -15, -15, -16, -16, -16, -17, -17, -17, -17, -18, -18, -18, -18, -19, -19,
        -19, -19, -19, -19, -20, -20, -20, -20, -20, -20, -20, -20, -20, -20, -20, -20,
        -20, -20, -20, -20, -20, -20, -20, -20, -20, -20, -20, -20, -20, -19, -19, -19,
        -19, -19, -19, -18, -18, -18, -18, -17, -17, -17, -17, -16, -16, -16, -15, -15,
        -15, -14, -14, -14, -13, -13, -12, -12, -12, -11, -11, -10, -10,  -9,  -9,  -9,
         -8,  -8,  -7,  -7,  -6,  -6,  -5,  -5,  -4,  -4,  -3,  -3,  -2,  -2,  -1,  -1,
         -1,   0,   0,   1,   1,   2,   2,   3,   3,   4,   4,   5,   5,   6,   6,   7,
          7,   8,   8,   8,   9,   9,  10,  10,  11,  11,  11,  12,  12,  13,  13,  13,
         14,  14,  14,  15,  15,  15,  16,  16,  16,  16,  17,  17,  17,  17,  18,  18,
         18,  18,  18,  18,  19,  19,  19,  19,  19,  19,  19,  19,  19,  19,  19,  19,
    ];
    table[k as usize]
}

} // verus!
