use crate::Error;
use vstd::prelude::*;

verus! {

/// The 23 punctuation symbols `! # $ % & ( ) * + - ; < = > ? @ ^ _ ` { | } ~`,
/// in the order of their values 62 to 84.
pub open spec fn punctuation() -> Seq<u8> {
    seq![
        33, 35, 36, 37, 38, 40, 41, 42, 43, 45, 59, 60, 61, 62, 63,
        64, 94, 95, 96, 123, 124, 125, 126,
    ]
}

/// The symbol that stands for the digit value `v` (meaningful for `0 <= v < 85`).
pub open spec fn symbol(v: int) -> u8 {
    if v < 10 {
        (48 + v) as u8
    } else if v < 36 {
        (65 + v - 10) as u8
    } else if v < 62 {
        (97 + v - 36) as u8
    } else {
        punctuation()[v - 62]
    }
}

/// The digit value of the byte `c`, if it is one of the 85 symbols:
/// `0-9` are 0 to 9, `A-Z` are 10 to 35, `a-z` are 36 to 61.
pub open spec fn value_of(c: u8) -> Option<u8> {
    if 48 <= c <= 57 {
        Some((c - 48) as u8)
    } else if 65 <= c <= 90 {
        Some((c - 65 + 10) as u8)
    } else if 97 <= c <= 122 {
        Some((c - 97 + 36) as u8)
    } else if punctuation().contains(c) {
        Some((62 + punctuation().index_of(c)) as u8)
    } else {
        None
    }
}

pub open spec fn is_symbol(c: u8) -> bool {
    value_of(c) is Some
}

/// The digit value of a symbol; zero for any other byte.
pub open spec fn value(c: u8) -> u8 {
    match value_of(c) {
        Some(v) => v,
        None => 0,
    }
}

/// Every digit value has a symbol, and that symbol reads back as the same value.
pub proof fn lemma_symbol_value(v: int)
    requires
        0 <= v < 85,
    ensures
        is_symbol(symbol(v)),
        value(symbol(v)) == v,
{
    if v >= 62 {
        let p = punctuation();
        assert(p.contains(p[v - 62]));
        assert forall|i: int, j: int| 0 <= i < j < p.len() implies p[i] < p[j] by {}
        assert(p.index_of(p[v - 62]) == v - 62) by {
            p.index_of_first_ensures(p[v - 62]);
        }
    }
}

/// The symbol of a digit value in `0..85`.
pub fn byte_to_char85(x85: u8) -> (r: u8)
    requires
        x85 < 85,
    ensures
        r == symbol(x85 as int),
{
    if x85 < 10 {
        48 + x85
    } else if x85 < 36 {
        55 + x85
    } else if x85 < 62 {
        61 + x85
    } else {
        let r: u8 = match x85 {
            62 => 33,
            63 => 35,
            64 => 36,
            65 => 37,
            66 => 38,
            67 => 40,
            68 => 41,
            69 => 42,
            70 => 43,
            71 => 45,
            72 => 59,
            73 => 60,
            74 => 61,
            75 => 62,
            76 => 63,
            77 => 64,
            78 => 94,
            79 => 95,
            80 => 96,
            81 => 123,
            82 => 124,
            83 => 125,
            _ => 126,
        };
        r
    }
}

/// The digit value of the byte `c`, or `InvalidCharacter(c)` if it is no symbol.
pub fn char85_to_byte(c: u8) -> (r: Result<u8, Error>)
    ensures
        match value_of(c) {
            Some(v) => r == Ok::<u8, Error>(v),
            None => r == Err::<u8, Error>(Error::InvalidCharacter(c)),
        },
        match r {
            Ok(v) => v < 85,
            Err(_) => true,
        },
{
    proof {
        let p = punctuation();
        assert forall|i: int, j: int| 0 <= i < j < p.len() implies p[i] < p[j] by {}
        assert forall|i: int| 0 <= i < p.len() implies p.index_of(p[i]) == i by {
            assert(p.contains(p[i]));
            p.index_of_first_ensures(p[i]);
        }
        assert(p.contains(c) ==> exists|i: int| 0 <= i < p.len() && p[i] == c);
    }
    if 48 <= c && c <= 57 {
        Ok(c - 48)
    } else if 65 <= c && c <= 90 {
        Ok(c - 55)
    } else if 97 <= c && c <= 122 {
        Ok(c - 61)
    } else {
        match c {
            33 => Ok(62),
            35 => Ok(63),
            36 => Ok(64),
            37 => Ok(65),
            38 => Ok(66),
            40 => Ok(67),
            41 => Ok(68),
            42 => Ok(69),
            43 => Ok(70),
            45 => Ok(71),
            59 => Ok(72),
            60 => Ok(73),
            61 => Ok(74),
            62 => Ok(75),
            63 => Ok(76),
            64 => Ok(77),
            94 => Ok(78),
            95 => Ok(79),
            96 => Ok(80),
            123 => Ok(81),
            124 => Ok(82),
            125 => Ok(83),
            126 => Ok(84),
            _ => Err(Error::InvalidCharacter(c)),
        }
    }
}

} // verus!
