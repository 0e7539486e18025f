use crate::alphabet::{is_symbol, lemma_symbol_value, punctuation, value};
use crate::codec::{
    ascii_chars, combine, decode_group, decode_text, decode_values, digit, encode_bytes,
    encode_group, first_invalid, is_space, pack, pad_max, pad_zero, strip_spaces, values,
};
use crate::Error;
use vstd::arithmetic::div_mod::{
    lemma_div_denominator, lemma_fundamental_div_mod, lemma_fundamental_div_mod_converse,
};
use vstd::prelude::*;
use vstd::string::{is_ascii_spec_bytes, StringSliceAdditionalSpecFns};

verus! {

/// Every byte of an encoding is one of the 85 symbols, and so is ASCII.
pub proof fn lemma_encode_symbols(b: Seq<u8>)
    ensures
        forall|i: int| 0 <= i < encode_bytes(b).len() ==> #[trigger] is_symbol(encode_bytes(b)[i]),
        forall|i: int| 0 <= i < encode_bytes(b).len() ==> #[trigger] encode_bytes(b)[i] < 128,
    decreases b.len(),
{
    reveal(encode_bytes);
    if b.len() > 0 {
        let n = if b.len() < 4 { pack(pad_zero(b)) } else { pack(b.take(4)) };
        let g = encode_group(n);
        assert forall|k: int| 0 <= k < 5 implies is_symbol(#[trigger] g[k]) && g[k] < 128 by {
            lemma_symbol_value(digit(n, k) as int);
            if digit(n, k) >= 62 {
                assert(punctuation()[digit(n, k) - 62] < 128);
            }
        }
        if b.len() >= 4 {
            lemma_encode_symbols(b.skip(4));
            let e = encode_bytes(b);
            assert forall|i: int| 0 <= i < e.len() implies is_symbol(#[trigger] e[i]) && e[i] < 128 by {
                if i >= 5 {
                    assert(e[i] == encode_bytes(b.skip(4))[i - 5]);
                }
            }
        }
    }
}

/// Byte `bk` of a value whose bytes above it are `hi` and below it `lo`.
proof fn lemma_byte_of(x: nat, hi: nat, bk: nat, lo: nat, w: nat)
    requires
        w > 0,
        bk < 256,
        lo < w,
        x == (hi * 256 + bk) * w + lo,
    ensures
        (x / w) % 256 == bk,
{
    lemma_fundamental_div_mod_converse(x as int, w as int, (hi * 256 + bk) as int, lo as int);
    lemma_fundamental_div_mod_converse((hi * 256 + bk) as int, 256, hi as int, bk as int);
}

/// The quotients of a 32-bit value by the digit places, and how they nest.
proof fn lemma_places(n: nat)
    requires
        n < 4294967296,
    ensures
        n == 85 * (n / 85) + digit(n, 4),
        n / 85 == 85 * (n / 7225) + digit(n, 3),
        n / 7225 == 85 * (n / 614125) + digit(n, 2),
        n / 614125 == 85 * (n / 52200625) + digit(n, 1),
        n / 52200625 == digit(n, 0),
        n / 52200625 < 85,
{
    lemma_div_denominator(n as int, 85, 85);
    lemma_div_denominator(n as int, 7225, 85);
    lemma_div_denominator(n as int, 614125, 85);
    lemma_fundamental_div_mod(n as int, 85);
    lemma_fundamental_div_mod((n / 85) as int, 85);
    lemma_fundamental_div_mod((n / 7225) as int, 85);
    lemma_fundamental_div_mod((n / 614125) as int, 85);
    assert(n / 52200625 < 85);
    lemma_fundamental_div_mod_converse(
        (n / 52200625) as int,
        85,
        0,
        (n / 52200625) as int,
    );
}

/// The digit values of the first `m` symbols of a group encoding are its digits.
proof fn lemma_group_values(n: nat, m: int)
    requires
        0 <= m <= 5,
    ensures
        values(encode_group(n).take(m)) =~= Seq::new(m as nat, |k: int| digit(n, k) as u8),
        forall|k: int| 0 <= k < m ==> #[trigger] digit(n, k) < 85,
{
    assert forall|k: int| 0 <= k < 5 implies value(#[trigger] encode_group(n)[k]) == digit(n, k) by {
        lemma_symbol_value(digit(n, k) as int);
    }
}

/// A full group of four bytes decodes back from its five symbols.
proof fn lemma_group_round_trip(b: Seq<u8>)
    requires
        b.len() == 4,
    ensures
        decode_group(combine(values(encode_group(pack(b))))) == b,
{
    let n = pack(b);
    lemma_places(n);
    lemma_group_values(n, 5);
    assert(encode_group(n).take(5) =~= encode_group(n));
    assert(combine(values(encode_group(n))) == n);
    lemma_byte_of(n, 0, b[0] as nat, (b[1] * 65536 + b[2] * 256 + b[3]) as nat, 16777216);
    lemma_byte_of(n, b[0] as nat, b[1] as nat, (b[2] * 256 + b[3]) as nat, 65536);
    lemma_byte_of(n, (b[0] * 256 + b[1]) as nat, b[2] as nat, b[3] as nat, 256);
    lemma_byte_of(n, (b[0] * 65536 + b[1] * 256 + b[2]) as nat, b[3] as nat, 0, 1);
    assert(decode_group(n) =~= b);
}

/// A trailing group of one to three bytes decodes back from its symbols.
proof fn lemma_tail_round_trip(b: Seq<u8>)
    requires
        0 < b.len() < 4,
    ensures
        decode_group(
            combine(pad_max(values(encode_group(pack(pad_zero(b))).take(b.len() + 1int)))),
        ).take(b.len() as int) == b,
{
    let p = pad_zero(b);
    let n = pack(p);
    let r = b.len() as int;
    let d = pad_max(values(encode_group(n).take(r + 1)));
    lemma_places(n);
    lemma_group_values(n, r + 1);
    let w = combine(d);
    let b0 = b[0] as nat;
    let b1 = p[1] as nat;
    let b2 = p[2] as nat;
    assert(p[3] == 0);
    if r == 1 {
        assert(w == (n / 614125) * 614125 + 614124);
        lemma_fundamental_div_mod(n as int, 614125);
        lemma_byte_of(w, 0, b0, (w - n) as nat, 16777216);
    } else if r == 2 {
        assert(w == (n / 7225) * 7225 + 7224);
        lemma_fundamental_div_mod(n as int, 7225);
        lemma_byte_of(w, 0, b0, (b1 * 65536 + w - n) as nat, 16777216);
        lemma_byte_of(w, b0, b1, (w - n) as nat, 65536);
    } else {
        assert(w == (n / 85) * 85 + 84);
        lemma_fundamental_div_mod(n as int, 85);
        lemma_byte_of(w, 0, b0, (b1 * 65536 + b2 * 256 + w - n) as nat, 16777216);
        lemma_byte_of(w, b0, b1, (b2 * 256 + w - n) as nat, 65536);
        lemma_byte_of(w, b0 * 256 + b1, b2, (w - n) as nat, 256);
    }
    assert(decode_group(w).take(r) =~= b);
}

/// How many symbols a trailing group of `r` bytes takes.
pub open spec fn tail_len(r: nat) -> nat {
    if r == 0 {
        0
    } else {
        r + 1
    }
}

/// Length law: four bytes take five symbols, and a trailing group of `r`
/// bytes takes `r + 1` symbols.
pub proof fn lemma_encode_length(b: Seq<u8>)
    ensures
        encode_bytes(b).len() == (b.len() / 4) * 5 + tail_len(b.len() % 4),
    decreases b.len(),
{
    reveal(encode_bytes);
    if b.len() >= 4 {
        lemma_encode_length(b.skip(4));
    }
}

/// A text made of symbols alone has no invalid byte and no whitespace.
proof fn lemma_plain_text(t: Seq<u8>)
    requires
        forall|i: int| 0 <= i < t.len() ==> #[trigger] is_symbol(t[i]),
    ensures
        first_invalid(t) is None,
        strip_spaces(t) == t,
    decreases t.len(),
{
    if t.len() > 0 {
        assert forall|i: int| 0 <= i < t.len() - 1 implies #[trigger] is_symbol(t.skip(1)[i]) by {
            assert(is_symbol(t[i + 1]));
        }
        lemma_plain_text(t.skip(1));
        assert(is_symbol(t[0]));
        assert(!is_space(t[0])) by {
            assert forall|i: int| 0 <= i < 23 implies punctuation()[i] > 32 by {}
        }
        assert(seq![t[0]] + t.skip(1) =~= t);
    }
}

/// The digit values of an encoding decode back to the bytes.
proof fn lemma_decode_encode_values(b: Seq<u8>)
    ensures
        decode_values(values(encode_bytes(b))) == b,
    decreases b.len(),
{
    reveal(encode_bytes);
    reveal(decode_values);
    if b.len() == 0 {
        assert(values(encode_bytes(b)) =~= Seq::<u8>::empty());
        assert(b =~= Seq::<u8>::empty());
    } else if b.len() < 4 {
        lemma_tail_round_trip(b);
    } else {
        let g = encode_group(pack(b.take(4)));
        let rest = encode_bytes(b.skip(4));
        let v = values(g + rest);
        assert(v.take(5) =~= values(g));
        assert(v.skip(5) =~= values(rest));
        lemma_encode_length(b.skip(4));
        lemma_group_round_trip(b.take(4));
        lemma_decode_encode_values(b.skip(4));
        assert(b.take(4) + b.skip(4) =~= b);
    }
}

/// Round trip: the text that encodes `b` decodes to `b`.
pub proof fn lemma_round_trip(b: Seq<u8>, s: &str)
    requires
        s@ == ascii_chars(encode_bytes(b)),
    ensures
        decode_text(s.spec_bytes()) == Ok::<Seq<u8>, Error>(b),
{
    let e = encode_bytes(b);
    lemma_encode_symbols(b);
    lemma_encode_length(b);
    lemma_plain_text(e);
    lemma_decode_encode_values(b);
    assert(vstd::string::is_ascii(s));
    is_ascii_spec_bytes(s);
    assert(s.spec_bytes() =~= e);
}

/// Empty input: nothing encodes as the empty text, which decodes to nothing.
pub proof fn lemma_empty()
    ensures
        encode_bytes(Seq::empty()) == Seq::<u8>::empty(),
        decode_text(Seq::empty()) == Ok::<Seq<u8>, Error>(Seq::empty()),
{
    reveal(encode_bytes);
    reveal(decode_values);
    assert(values(Seq::<u8>::empty()) =~= Seq::<u8>::empty());
}

/// Whitespace is skipped: it has no bearing on the first invalid byte.
proof fn lemma_first_invalid_strip(s: Seq<u8>)
    ensures
        first_invalid(s) == first_invalid(strip_spaces(s)),
    decreases s.len(),
{
    if s.len() > 0 {
        lemma_first_invalid_strip(s.skip(1));
        if !is_space(s[0]) {
            let t = seq![s[0]] + strip_spaces(s.skip(1));
            assert(t.skip(1) =~= strip_spaces(s.skip(1)));
        }
    }
}

/// Whitespace insensitivity: two texts that are the same once whitespace is
/// removed decode alike.
pub proof fn lemma_spaces_ignored(s: Seq<u8>, t: Seq<u8>)
    requires
        strip_spaces(s) == strip_spaces(t),
    ensures
        decode_text(s) == decode_text(t),
{
    lemma_first_invalid_strip(s);
    lemma_first_invalid_strip(t);
}

/// A text of symbols and whitespace whose symbols leave one over after the
/// groups of five fails with `UnexpectedEof`.
pub proof fn lemma_lone_symbol(s: Seq<u8>)
    requires
        forall|i: int| 0 <= i < s.len() ==> is_space(#[trigger] s[i]) || is_symbol(s[i]),
        strip_spaces(s).len() % 5 == 1,
    ensures
        decode_text(s) == Err::<Seq<u8>, Error>(Error::UnexpectedEof),
{
    lemma_no_invalid(s);
}

/// A text of symbols and whitespace has no invalid byte.
proof fn lemma_no_invalid(s: Seq<u8>)
    requires
        forall|i: int| 0 <= i < s.len() ==> is_space(#[trigger] s[i]) || is_symbol(s[i]),
    ensures
        first_invalid(s) is None,
    decreases s.len(),
{
    if s.len() > 0 {
        assert forall|i: int| 0 <= i < s.len() - 1 implies is_space(#[trigger] s.skip(1)[i])
            || is_symbol(s.skip(1)[i]) by {
            assert(is_space(s[i + 1]) || is_symbol(s[i + 1]));
        }
        lemma_no_invalid(s.skip(1));
        assert(is_space(s[0]) || is_symbol(s[0]));
    }
}

} // verus!
