use crate::alphabet::{byte_to_char85, char85_to_byte, is_symbol, symbol, value};
use crate::Error;
use vstd::prelude::*;
use vstd::string::StringSliceAdditionalSpecFns;

verus! {

/// The four bytes of `b` read as a big-endian integer.
pub open spec fn pack(b: Seq<u8>) -> nat {
    (b[0] * 16777216 + b[1] * 65536 + b[2] * 256 + b[3]) as nat
}

/// The weight of base-85 digit `k` of a group, most significant first.
pub open spec fn place(k: int) -> nat {
    if k == 0 {
        52200625
    } else if k == 1 {
        614125
    } else if k == 2 {
        7225
    } else if k == 3 {
        85
    } else {
        1
    }
}

/// Base-85 digit `k` of `n`, most significant first.
pub open spec fn digit(n: nat, k: int) -> nat {
    (n / place(k)) % 85
}

/// The five symbols that encode the group value `n`.
pub open spec fn encode_group(n: nat) -> Seq<u8> {
    seq![
        symbol(digit(n, 0) as int),
        symbol(digit(n, 1) as int),
        symbol(digit(n, 2) as int),
        symbol(digit(n, 3) as int),
        symbol(digit(n, 4) as int),
    ]
}

/// `b` right-padded with zero bytes to four bytes.
pub open spec fn pad_zero(b: Seq<u8>) -> Seq<u8> {
    b + Seq::new((4 - b.len()) as nat, |i: int| 0u8)
}

/// The encoding of `b`: five symbols for each full group of four bytes, and
/// `n + 1` symbols for a trailing group of `n` bytes.
#[verifier::opaque]
pub open spec fn encode_bytes(b: Seq<u8>) -> Seq<u8>
    decreases b.len(),
{
    if b.len() == 0 {
        Seq::empty()
    } else if b.len() < 4 {
        encode_group(pack(pad_zero(b))).take(b.len() + 1int)
    } else {
        encode_group(pack(b.take(4))) + encode_bytes(b.skip(4))
    }
}

/// The characters of an ASCII byte sequence.
pub open spec fn ascii_chars(b: Seq<u8>) -> Seq<char> {
    b.map_values(|c: u8| c as char)
}

/// Relies on String::from_utf8: ASCII bytes are valid UTF-8, one character each.
#[verifier::external_body]
fn ascii_to_string(bytes: Vec<u8>) -> (r: String)
    requires
        forall|i: int| 0 <= i < bytes@.len() ==> bytes@[i] < 128,
    ensures
        r@ == ascii_chars(bytes@),
{
    String::from_utf8(bytes).unwrap()
}

/// Appends the first `count` symbols of the group value `n` to `out`.
fn push_group(out: &mut Vec<u8>, n: u64, count: usize)
    requires
        n < 4294967296,
        1 <= count <= 5,
    ensures
        final(out)@ == old(out)@ + encode_group(n as nat).take(count as int),
{
    let g = Ghost(encode_group(n as nat));
    let ghost start = old(out)@;
    let digits: [u64; 5] = [
        n / 52200625 % 85,
        n / 614125 % 85,
        n / 7225 % 85,
        n / 85 % 85,
        n % 85,
    ];
    let mut k: usize = 0;
    while k < count
        invariant
            k <= count <= 5,
            g@ == encode_group(n as nat),
            digits@.len() == 5,
            forall|j: int| 0 <= j < 5 ==> digits@[j] == digit(n as nat, j),
            out@ == start + g@.take(k as int),
        decreases count - k,
    {
        out.push(byte_to_char85(digits[k] as u8));
        assert(g@.take(k + 1) =~= g@.take(k as int).push(g@[k as int]));
        k += 1;
    }
}

/// One full group at position `i` of `b` unfolds the encoding of what remains.
proof fn lemma_encode_full(b: Seq<u8>, i: int, n: nat)
    requires
        0 <= i,
        i + 4 <= b.len(),
        n == b[i] * 16777216 + b[i + 1] * 65536 + b[i + 2] * 256 + b[i + 3],
    ensures
        encode_bytes(b.skip(i)) == encode_group(n) + encode_bytes(b.skip(i + 4)),
{
    reveal(encode_bytes);
    let rest = b.skip(i);
    assert(rest.skip(4) =~= b.skip(i + 4));
    assert(pack(rest.take(4)) == n);
}

/// A trailing group of one to three bytes at position `i` of `b`.
proof fn lemma_encode_tail(b: Seq<u8>, i: int, n: nat)
    requires
        0 <= i,
        0 < b.len() - i < 4,
        n == b[i] * 16777216 + (if b.len() - i > 1 { b[i + 1] as int } else { 0 }) * 65536 + (if b.len()
            - i > 2 { b[i + 2] as int } else { 0 }) * 256,
    ensures
        encode_bytes(b.skip(i)) == encode_group(n).take(b.len() - i + 1),
{
    reveal(encode_bytes);
    let rest = b.skip(i);
    let p = pad_zero(rest);
    assert(p[0] == b[i]);
    assert(p[1] == if b.len() - i > 1 { b[i + 1] } else { 0 });
    assert(p[2] == if b.len() - i > 2 { b[i + 2] } else { 0 });
    assert(p[3] == 0);
    assert(pack(p) == n);
}

/// Encodes `indata` as text over the 85-symbol alphabet.
pub fn encode(indata: &[u8]) -> (r: String)
    ensures
        r@ == ascii_chars(encode_bytes(indata@)),
{
    let length = indata.len();
    let mut outdata: Vec<u8> = Vec::new();
    let mut i: usize = 0;
    assert(indata@.skip(0) =~= indata@);
    assert(outdata@ + encode_bytes(indata@) =~= encode_bytes(indata@));
    while 4 <= length - i
        invariant
            length == indata@.len(),
            i <= length,
            outdata@ + encode_bytes(indata@.skip(i as int)) == encode_bytes(indata@),
        decreases length - i,
    {
        let n: u64 = indata[i] as u64 * 16777216 + indata[i + 1] as u64 * 65536
            + indata[i + 2] as u64 * 256 + indata[i + 3] as u64;
        proof {
            lemma_encode_full(indata@, i as int, n as nat);
        }
        let ghost before = outdata@;
        push_group(&mut outdata, n, 5);
        assert(encode_group(n as nat).take(5) =~= encode_group(n as nat));
        assert(outdata@ + encode_bytes(indata@.skip(i + 4)) =~= before + encode_bytes(
            indata@.skip(i as int),
        ));
        i += 4;
    }
    let extra = length - i;
    if extra != 0 {
        let b1: u8 = if extra > 1 { indata[i + 1] } else { 0 };
        let b2: u8 = if extra > 2 { indata[i + 2] } else { 0 };
        let n: u64 = indata[i] as u64 * 16777216 + b1 as u64 * 65536 + b2 as u64 * 256;
        proof {
            lemma_encode_tail(indata@, i as int, n as nat);
        }
        push_group(&mut outdata, n, extra + 1);
    } else {
        assert(indata@.skip(i as int) =~= Seq::<u8>::empty());
        reveal(encode_bytes);
        assert(outdata@ =~= outdata@ + Seq::<u8>::empty());
    }
    assert(outdata@ =~= encode_bytes(indata@));
    proof {
        crate::laws::lemma_encode_symbols(indata@);
    }
    ascii_to_string(outdata)
}

/// ASCII space, tab, carriage return and line feed: skipped while decoding.
pub open spec fn is_space(c: u8) -> bool {
    c == 32 || c == 9 || c == 13 || c == 10
}

/// The first byte of `s` that is neither whitespace nor a symbol, if any.
pub open spec fn first_invalid(s: Seq<u8>) -> Option<u8>
    decreases s.len(),
{
    if s.len() == 0 {
        None
    } else if !is_space(s[0]) && !is_symbol(s[0]) {
        Some(s[0])
    } else {
        first_invalid(s.skip(1))
    }
}

/// `s` with its whitespace removed.
pub open spec fn strip_spaces(s: Seq<u8>) -> Seq<u8>
    decreases s.len(),
{
    if s.len() == 0 {
        Seq::empty()
    } else if is_space(s[0]) {
        strip_spaces(s.skip(1))
    } else {
        seq![s[0]] + strip_spaces(s.skip(1))
    }
}

/// The group value of five base-85 digits, most significant first.
pub open spec fn combine(d: Seq<u8>) -> nat {
    (d[0] * 52200625 + d[1] * 614125 + d[2] * 7225 + d[3] * 85 + d[4]) as nat
}

/// `d` right-padded with the largest digit, 84, to five digits.
pub open spec fn pad_max(d: Seq<u8>) -> Seq<u8> {
    d + Seq::new((5 - d.len()) as nat, |i: int| 84u8)
}

/// Byte `k` of the low 32 bits of `n`, most significant first.
pub open spec fn unpack(n: nat, k: int) -> u8 {
    let w: nat = if k == 0 {
        16777216
    } else if k == 1 {
        65536
    } else if k == 2 {
        256
    } else {
        1
    };
    ((n / w) % 256) as u8
}

/// The four bytes of the group value `n`, big-endian.
pub open spec fn decode_group(n: nat) -> Seq<u8> {
    seq![unpack(n, 0), unpack(n, 1), unpack(n, 2), unpack(n, 3)]
}

/// The bytes of a digit sequence: four for each full group of five digits,
/// and `n - 1` for a trailing group of `n` digits, padded with the largest digit.
#[verifier::opaque]
pub open spec fn decode_values(d: Seq<u8>) -> Seq<u8>
    decreases d.len(),
{
    if d.len() == 0 {
        Seq::empty()
    } else if d.len() < 5 {
        decode_group(combine(pad_max(d))).take(d.len() - 1int)
    } else {
        decode_group(combine(d.take(5))) + decode_values(d.skip(5))
    }
}

/// The digit values of the symbols of `t`.
pub open spec fn values(t: Seq<u8>) -> Seq<u8> {
    t.map_values(|c: u8| value(c))
}

/// What decoding the bytes `s` of a text gives: the first byte that is neither
/// whitespace nor a symbol fails; else a lone trailing symbol fails; else the
/// bytes of the symbols' values.
pub open spec fn decode_text(s: Seq<u8>) -> Result<Seq<u8>, Error> {
    match first_invalid(s) {
        Some(c) => Err(Error::InvalidCharacter(c)),
        None => {
            let t = strip_spaces(s);
            if t.len() % 5 == 1 {
                Err(Error::UnexpectedEof)
            } else {
                Ok(decode_values(values(t)))
            }
        },
    }
}

/// Appends the first `count` bytes of the group value `n` to `out`.
fn push_bytes(out: &mut Vec<u8>, n: u64, count: usize)
    requires
        count <= 4,
    ensures
        final(out)@ == old(out)@ + decode_group(n as nat).take(count as int),
{
    let g = Ghost(decode_group(n as nat));
    let ghost start = old(out)@;
    let bytes: [u8; 4] = [
        (n / 16777216 % 256) as u8,
        (n / 65536 % 256) as u8,
        (n / 256 % 256) as u8,
        (n % 256) as u8,
    ];
    let mut k: usize = 0;
    while k < count
        invariant
            k <= count <= 4,
            g@ == decode_group(n as nat),
            bytes@.len() == 4,
            forall|j: int| 0 <= j < 4 ==> bytes@[j] == unpack(n as nat, j),
            out@ == start + g@.take(k as int),
        decreases count - k,
    {
        out.push(bytes[k]);
        assert(g@.take(k + 1) =~= g@.take(k as int).push(g@[k as int]));
        k += 1;
    }
}

/// The digit values of the symbols of `s`, whitespace skipped; or the error
/// for its first byte that is neither.
fn read_digits(s: &[u8]) -> (r: Result<Vec<u8>, Error>)
    ensures
        match r {
            Ok(d) => first_invalid(s@) is None && d@ == values(strip_spaces(s@)) && forall|i: int|
                0 <= i < d@.len() ==> d@[i] < 85,
            Err(e) => first_invalid(s@) is Some && e == Error::InvalidCharacter(
                first_invalid(s@)->Some_0,
            ),
        },
{
    let mut digits: Vec<u8> = Vec::new();
    let ghost mut kept: Seq<u8> = Seq::empty();
    let mut i: usize = 0;
    assert(s@.skip(0) =~= s@);
    assert(kept + strip_spaces(s@) =~= strip_spaces(s@));
    while i < s.len()
        invariant
            i <= s@.len(),
            first_invalid(s@) == first_invalid(s@.skip(i as int)),
            kept + strip_spaces(s@.skip(i as int)) == strip_spaces(s@),
            digits@ == values(kept),
            forall|j: int| 0 <= j < digits@.len() ==> digits@[j] < 85,
        decreases s@.len() - i,
    {
        let c = s[i];
        let ghost rest = s@.skip(i as int);
        assert(rest.skip(1) =~= s@.skip(i + 1));
        assert(rest[0] == c);
        if !(c == 32 || c == 9 || c == 13 || c == 10) {
            match char85_to_byte(c) {
                Ok(v) => {
                    proof {
                        assert(kept.push(c) + strip_spaces(s@.skip(i + 1)) =~= kept + (seq![c]
                            + strip_spaces(rest.skip(1))));
                        kept = kept.push(c);
                    }
                    digits.push(v);
                    assert(digits@ =~= values(kept));
                },
                Err(e) => {
                    return Err(e);
                },
            }
        }
        i += 1;
    }
    assert(s@.skip(i as int) =~= Seq::<u8>::empty());
    assert(kept =~= kept + Seq::<u8>::empty());
    Ok(digits)
}

/// One full group at position `j` of `d` unfolds the decoding of what remains.
proof fn lemma_decode_full(d: Seq<u8>, j: int, n: nat)
    requires
        0 <= j,
        j + 5 <= d.len(),
        n == d[j] * 52200625 + d[j + 1] * 614125 + d[j + 2] * 7225 + d[j + 3] * 85 + d[j + 4],
    ensures
        decode_values(d.skip(j)) == decode_group(n) + decode_values(d.skip(j + 5)),
{
    reveal(decode_values);
    let rest = d.skip(j);
    assert(rest.skip(5) =~= d.skip(j + 5));
    assert(combine(rest.take(5)) == n);
}

/// A trailing group of two to four digits at position `j` of `d`.
proof fn lemma_decode_tail(d: Seq<u8>, j: int, n: nat)
    requires
        0 <= j,
        1 < d.len() - j < 5,
        n == d[j] * 52200625 + d[j + 1] * 614125 + (if d.len() - j > 2 { d[j + 2] as int } else {
            84
        }) * 7225 + (if d.len() - j > 3 { d[j + 3] as int } else { 84 }) * 85 + 84,
    ensures
        decode_values(d.skip(j)) == decode_group(n).take(d.len() - j - 1),
{
    reveal(decode_values);
    let rest = d.skip(j);
    let p = pad_max(rest);
    assert(p[0] == d[j]);
    assert(p[1] == d[j + 1]);
    assert(p[2] == if d.len() - j > 2 { d[j + 2] } else { 84 });
    assert(p[3] == if d.len() - j > 3 { d[j + 3] } else { 84 });
    assert(p[4] == 84);
    assert(combine(p) == n);
}

/// Decodes text over the 85-symbol alphabet, skipping whitespace.
pub fn decode(instr: &str) -> (r: Result<Vec<u8>, Error>)
    ensures
        match r {
            Ok(v) => decode_text(instr.spec_bytes()) == Ok::<Seq<u8>, Error>(v@),
            Err(e) => decode_text(instr.spec_bytes()) == Err::<Seq<u8>, Error>(e),
        },
{
    let digits = match read_digits(instr.as_bytes()) {
        Ok(d) => d,
        Err(e) => {
            return Err(e);
        },
    };
    let length = digits.len();
    if length % 5 == 1 {
        return Err(Error::UnexpectedEof);
    }
    let ghost d = digits@;
    let mut out: Vec<u8> = Vec::new();
    let mut j: usize = 0;
    assert(d.skip(0) =~= d);
    assert(out@ + decode_values(d) =~= decode_values(d));
    while 5 <= length - j
        invariant
            d == digits@,
            length == d.len(),
            length % 5 != 1,
            j % 5 == 0,
            j <= length,
            forall|k: int| 0 <= k < d.len() ==> d[k] < 85,
            out@ + decode_values(d.skip(j as int)) == decode_values(d),
        decreases length - j,
    {
        let n: u64 = digits[j] as u64 * 52200625 + digits[j + 1] as u64 * 614125 + digits[j + 2] as u64
            * 7225 + digits[j + 3] as u64 * 85 + digits[j + 4] as u64;
        proof {
            lemma_decode_full(d, j as int, n as nat);
        }
        let ghost before = out@;
        push_bytes(&mut out, n, 4);
        assert(decode_group(n as nat).take(4) =~= decode_group(n as nat));
        assert(out@ + decode_values(d.skip(j + 5)) =~= before + decode_values(d.skip(j as int)));
        j += 5;
    }
    let extra = length - j;
    if extra != 0 {
        let d2: u8 = if extra > 2 { digits[j + 2] } else { 84 };
        let d3: u8 = if extra > 3 { digits[j + 3] } else { 84 };
        let n: u64 = digits[j] as u64 * 52200625 + digits[j + 1] as u64 * 614125 + d2 as u64 * 7225
            + d3 as u64 * 85 + 84;
        proof {
            lemma_decode_tail(d, j as int, n as nat);
        }
        push_bytes(&mut out, n, extra - 1);
    } else {
        assert(d.skip(j as int) =~= Seq::<u8>::empty());
        reveal(decode_values);
        assert(out@ =~= out@ + Seq::<u8>::empty());
    }
    assert(out@ =~= decode_values(d));
    Ok(out)
}

} // verus!
