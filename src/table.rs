//! The position table of the encoder: which of the 256 pin codes the tracks
//! can show, and at which position.
use vstd::prelude::*;
use vstd::relations::injective_on;
use vstd::set_lib::*;

verus! {

/// Table entry of a code that the tracks never show.
pub const NO_POSITION: u8 = 255;

/// Short name of `NO_POSITION` for the table below.
pub const NA: u8 = NO_POSITION;

/// Position of each packed code, indexed by the code; `NO_POSITION` where
/// the code is unreachable by the physical encoder.
pub const ACE128_MAP: [u8; 256] = [
     NA,  56,  40,  55,  24,  NA,  39,  52,   8,  57,  NA,  NA,  23,  NA,  36,  13,
    120,  NA,  41,  54,  NA,  NA,  NA,  53,   7,  NA,  NA,  NA,  20,  19, 125,  18,
    104, 105,  NA,  NA,  25, 106,  38,  NA,  NA,  58,  NA,  NA,  NA,  NA,  37,  14,
    119, 118,  NA,  NA,  NA, 107,  NA,  NA,   4,  NA,   3,  NA, 109, 108,   2,   1,
     88,  NA,  89,  NA,  NA,  NA,  NA,  51,   9,  10,  90,  NA,  22,  11,  NA,  12,
     NA,  NA,  42,  43,  NA,  NA,  NA,  NA,  NA,  NA,  NA,  NA,  21,  NA, 126, 127,
    103,  NA, 102,  NA,  NA,  NA,  NA,  NA,  NA,  NA,  91,  NA,  NA,  NA,  NA,  NA,
    116, 117,  NA,  NA, 115,  NA,  NA,  NA,  93,  94,  92,  NA, 114,  95, 113,   0,
     72,  71,  NA,  68,  73,  NA,  NA,  29,  NA,  70,  NA,  69,  NA,  NA,  35,  34,
    121,  NA, 122,  NA,  74,  NA,  NA,  30,   6,  NA, 123,  NA,  NA,  NA, 124,  17,
     NA,  NA,  NA,  67,  26,  NA,  27,  28,  NA,  59,  NA,  NA,  NA,  NA,  NA,  15,
     NA,  NA,  NA,  NA,  NA,  NA,  NA,  NA,   5,  NA,  NA,  NA, 110,  NA, 111,  16,
     87,  84,  NA,  45,  86,  85,  NA,  50,  NA,  NA,  NA,  46,  NA,  NA,  NA,  33,
     NA,  83,  NA,  44,  75,  NA,  NA,  31,  NA,  NA,  NA,  NA,  NA,  NA,  NA,  32,
    100,  61, 101,  66,  NA,  62,  NA,  49,  99,  60,  NA,  47,  NA,  NA,  NA,  48,
     77,  82,  78,  65,  76,  63,  NA,  64,  98,  81,  79,  80,  97,  96, 112,  NA,
];

/// The position that `code` stands for, or `None` if the tracks never show it.
pub open spec fn position_of(code: u8) -> Option<u8> {
    if ACE128_MAP[code as int] == NO_POSITION {
        None
    } else {
        Some(ACE128_MAP[code as int])
    }
}

/// The code that the encoder's tracks show at each of its 128 positions
/// (0..=127; larger arguments are not positions).
pub open spec fn code_at(position: u8) -> u8 {
    match position {
            0 => 127,
            1 => 63,
            2 => 62,
            3 => 58,
            4 => 56,
            5 => 184,
            6 => 152,
            7 => 24,
            8 => 8,
            9 => 72,
            10 => 73,
            11 => 77,
            12 => 79,
            13 => 15,
            14 => 47,
            15 => 175,
            16 => 191,
            17 => 159,
            18 => 31,
            19 => 29,
            20 => 28,
            21 => 92,
            22 => 76,
            23 => 12,
            24 => 4,
            25 => 36,
            26 => 164,
            27 => 166,
            28 => 167,
            29 => 135,
            30 => 151,
            31 => 215,
            32 => 223,
            33 => 207,
            34 => 143,
            35 => 142,
            36 => 14,
            37 => 46,
            38 => 38,
            39 => 6,
            40 => 2,
            41 => 18,
            42 => 82,
            43 => 83,
            44 => 211,
            45 => 195,
            46 => 203,
            47 => 235,
            48 => 239,
            49 => 231,
            50 => 199,
            51 => 71,
            52 => 7,
            53 => 23,
            54 => 19,
            55 => 3,
            56 => 1,
            57 => 9,
            58 => 41,
            59 => 169,
            60 => 233,
            61 => 225,
            62 => 229,
            63 => 245,
            64 => 247,
            65 => 243,
            66 => 227,
            67 => 163,
            68 => 131,
            69 => 139,
            70 => 137,
            71 => 129,
            72 => 128,
            73 => 132,
            74 => 148,
            75 => 212,
            76 => 244,
            77 => 240,
            78 => 242,
            79 => 250,
            80 => 251,
            81 => 249,
            82 => 241,
            83 => 209,
            84 => 193,
            85 => 197,
            86 => 196,
            87 => 192,
            88 => 64,
            89 => 66,
            90 => 74,
            91 => 106,
            92 => 122,
            93 => 120,
            94 => 121,
            95 => 125,
            96 => 253,
            97 => 252,
            98 => 248,
            99 => 232,
            100 => 224,
            101 => 226,
            102 => 98,
            103 => 96,
            104 => 32,
            105 => 33,
            106 => 37,
            107 => 53,
            108 => 61,
            109 => 60,
            110 => 188,
            111 => 190,
            112 => 254,
            113 => 126,
            114 => 124,
            115 => 116,
            116 => 112,
            117 => 113,
            118 => 49,
            119 => 48,
            120 => 16,
            121 => 144,
            122 => 146,
            123 => 154,
            124 => 158,
            125 => 30,
            126 => 94,
            _ => 95,
    }
}

/// The codes that stand for a position.
pub open spec fn valid_codes() -> Set<int> {
    Set::new(|c: int| 0 <= c < 256 && position_of(c as u8) is Some)
}

/// The codes that the physical encoder never produces.
pub open spec fn invalid_codes() -> Set<int> {
    Set::new(|c: int| 0 <= c < 256 && position_of(c as u8) is None)
}

/// Looks up the position of a packed code.
pub fn lookup(code: u8) -> (r: Option<u8>)
    ensures
        r == position_of(code),
{
    let entry = ACE128_MAP[code as usize];
    if entry == NO_POSITION {
        None
    } else {
        Some(entry)
    }
}

/// Every position in 0..=127 is shown by exactly one code, and no code
/// stands for anything else: over the valid codes the table is a bijection
/// onto the 128 positions, with `code_at` as its inverse.
pub proof fn lemma_table_is_bijection()
    ensures
        forall|c: u8| #[trigger] position_of(c) is Some ==> {
            let p = position_of(c)->0;
            p < 128 && code_at(p) == c
        },
        forall|p: u8| p < 128 ==> #[trigger] position_of(code_at(p)) == Some(p),
        forall|c1: u8, c2: u8|
            #[trigger] position_of(c1) is Some && position_of(c1) == #[trigger] position_of(c2)
                ==> c1 == c2,
{
    assert forall|c: u8| #[trigger] position_of(c) is Some implies {
        let p = position_of(c)->0;
        p < 128 && code_at(p) == c
    } by {
        assert(0 <= c < 256);
    }
    assert forall|p: u8| p < 128 implies #[trigger] position_of(code_at(p)) == Some(p) by {}
}

/// Exactly 128 of the 256 codes stand for a position, and the other 128 are
/// unreachable.
pub proof fn lemma_valid_code_count()
    ensures
        valid_codes().len() == 128,
        invalid_codes().len() == 128,
{
    lemma_table_is_bijection();
    let positions = set_int_range(0, 128);
    let f = |p: int| code_at(p as u8) as int;
    lemma_int_range(0, 128);
    assert(injective_on(f, positions)) by {
        assert forall|a: int, b: int|
            positions.contains(a) && positions.contains(b) && #[trigger] f(a) == #[trigger] f(b)
            implies a == b by {
            assert(position_of(code_at(a as u8)) == Some(a as u8));
            assert(position_of(code_at(b as u8)) == Some(b as u8));
        }
    }
    assert(positions.map(f) =~= valid_codes()) by {
        assert forall|c: int| valid_codes().contains(c) implies positions.map(f).contains(c) by {
            let p = position_of(c as u8)->0;
            assert(positions.contains(p as int) && f(p as int) == c);
        }
    }
    lemma_map_size(positions, valid_codes(), f);
    let all = set_int_range(0, 256);
    lemma_int_range(0, 256);
    assert(valid_codes().union(invalid_codes()) =~= all);
    assert(valid_codes().disjoint(invalid_codes()));
    lemma_len_subset(invalid_codes(), all);
    lemma_set_disjoint_lens(valid_codes(), invalid_codes());
}

} // verus!
