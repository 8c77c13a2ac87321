//! Bit strings: text made of the characters `'0'` and `'1'`, most significant
//! digit first, and their conversion to and from numbers.

use vstd::prelude::*;
use vstd::arithmetic::div_mod::lemma_div_denominator;
use vstd::arithmetic::power2::{
    lemma2_to64, lemma_pow2_pos, lemma_pow2_strictly_increases, lemma_pow2_unfold, pow2,
};

verus! {

/// Whether `c` is a binary digit.
pub open spec fn is_bit(c: char) -> bool {
    c == '0' || c == '1'
}

/// Whether every character of `s` is a binary digit.
pub open spec fn is_bit_string(s: Seq<char>) -> bool {
    forall|i: int| 0 <= i < s.len() ==> is_bit(#[trigger] s[i])
}

/// The digit that writes the lowest bit of `v`.
pub open spec fn bit_char(v: nat) -> char {
    if v % 2 == 1 { '1' } else { '0' }
}

/// Digit `i` of the byte `b` written as eight binary digits; digit 0 is the
/// most significant.
pub open spec fn byte_bit(b: u8, i: int) -> char {
    bit_char(b as nat / pow2((7 - i) as nat))
}

/// The byte `b` written as eight binary digits.
pub open spec fn byte_bits(b: u8) -> Seq<char> {
    Seq::new(8, |i: int| byte_bit(b, i))
}

/// The bytes written one after another, eight binary digits each.
pub open spec fn bytes_bits(bytes: Seq<u8>) -> Seq<char> {
    Seq::new(8 * bytes.len(), |i: int| byte_bit(bytes[i / 8], i % 8))
}

/// The number that the binary digits of `s` write. A character other than
/// `'1'` counts as zero.
pub open spec fn bits_value(s: Seq<char>) -> nat
    decreases s.len(),
{
    if s.len() == 0 {
        0
    } else {
        2 * bits_value(s.drop_last()) + (if s.last() == '1' { 1nat } else { 0nat })
    }
}

/// The values of the consecutive chunks of `width` digits of `s`, in order.
/// When the length of `s` is no multiple of `width`, the last chunk is
/// shorter and is read as the shorter number it writes.
pub open spec fn chunk_values(s: Seq<char>, width: nat) -> Seq<nat>
    decreases s.len(),
{
    if s.len() == 0 || width == 0 {
        Seq::empty()
    } else if s.len() <= width {
        seq![bits_value(s)]
    } else {
        seq![bits_value(s.take(width as int))] + chunk_values(s.skip(width as int), width)
    }
}

/// The consecutive chunks of `width` digits of `s`, in order. When the length
/// of `s` is no multiple of `width`, the last chunk is shorter.
pub open spec fn chunks(s: Seq<char>, width: nat) -> Seq<Seq<char>>
    decreases s.len(),
{
    if s.len() == 0 || width == 0 {
        Seq::empty()
    } else if s.len() <= width {
        seq![s]
    } else {
        seq![s.take(width as int)] + chunks(s.skip(width as int), width)
    }
}

/// The texts of a sequence of strings.
pub open spec fn texts(words: Seq<String>) -> Seq<Seq<char>> {
    words.map_values(|w: String| w@)
}

/// The numbers held in a vector of 16-bit values.
pub open spec fn values16(v: Seq<u16>) -> Seq<nat> {
    v.map_values(|x: u16| x as nat)
}

/// The numbers held in a vector of bytes.
pub open spec fn values8(v: Seq<u8>) -> Seq<nat> {
    v.map_values(|x: u8| x as nat)
}

/// A string of `n` digits writes a number below two to the `n`.
pub proof fn lemma_bits_value_bound(s: Seq<char>)
    ensures
        bits_value(s) < pow2(s.len()),
    decreases s.len(),
{
    if s.len() == 0 {
        lemma2_to64();
    } else {
        lemma_bits_value_bound(s.drop_last());
        lemma_pow2_unfold(s.len());
    }
}

/// Every chunk of at most `width` digits has a value below two to the `width`.
pub proof fn lemma_chunk_values_bound(s: Seq<char>, width: nat)
    ensures
        forall|i: int|
            0 <= i < chunk_values(s, width).len() ==> #[trigger] chunk_values(s, width)[i] < pow2(
                width,
            ),
    decreases s.len(),
{
    if s.len() == 0 || width == 0 {
        // no chunk
    } else if s.len() <= width {
        lemma_bits_value_bound(s);
        if s.len() < width {
            lemma_pow2_strictly_increases(s.len(), width);
        }
    } else {
        lemma_bits_value_bound(s.take(width as int));
        lemma_chunk_values_bound(s.skip(width as int), width);
        let rest = chunk_values(s.skip(width as int), width);
        assert forall|i: int| 0 <= i < chunk_values(s, width).len() implies #[trigger] chunk_values(
            s,
            width,
        )[i] < pow2(width) by {
            if i > 0 {
                assert(chunk_values(s, width)[i] == rest[i - 1]);
            }
        }
    }
}

/// `chunk_values` yields one value for each started chunk: the length of `s`
/// divided by `width`, rounded up.
pub proof fn lemma_chunk_count(s: Seq<char>, width: nat)
    requires
        width > 0,
    ensures
        chunk_values(s, width).len() == (s.len() + width - 1) / (width as int),
    decreases s.len(),
{
    let n = s.len() as int;
    let w = width as int;
    if n == 0 {
        assert((n + w - 1) / w == 0) by (nonlinear_arith)
            requires
                n == 0,
                w > 0,
        ;
    } else if n <= w {
        assert((n + w - 1) / w == 1) by (nonlinear_arith)
            requires
                0 < n <= w,
        ;
    } else {
        lemma_chunk_count(s.skip(w), width);
        assert((n + w - 1) / w == (n - w + w - 1) / w + 1) by (nonlinear_arith)
            requires
                w > 0,
                n > w,
        ;
    }
}

/// `chunk_values` reads the number of each chunk, chunk by chunk.
pub proof fn lemma_chunk_values_of_chunks(s: Seq<char>, width: nat)
    ensures
        chunk_values(s, width) == chunks(s, width).map_values(|c: Seq<char>| bits_value(c)),
    decreases s.len(),
{
    if width > 0 && s.len() > width {
        lemma_chunk_values_of_chunks(s.skip(width as int), width);
    }
    assert(chunk_values(s, width) =~= chunks(s, width).map_values(|c: Seq<char>| bits_value(c)));
}

/// The digits that `bytes_bits` writes are binary digits.
pub proof fn lemma_bytes_bits_binary(bytes: Seq<u8>)
    ensures
        is_bit_string(bytes_bits(bytes)),
        bytes_bits(bytes).len() == 8 * bytes.len(),
{
}

/// The first `k` digits of a byte write the byte without its low `8 - k`
/// bits.
proof fn lemma_byte_prefix_value(b: u8, k: nat)
    requires
        k <= 8,
    ensures
        bits_value(byte_bits(b).take(k as int)) == b as nat / pow2((8 - k) as nat),
    decreases k,
{
    lemma2_to64();
    if k > 0 {
        lemma_byte_prefix_value(b, (k - 1) as nat);
        let s = byte_bits(b).take(k as int);
        assert(s.drop_last() =~= byte_bits(b).take(k - 1));
        assert(s.last() == byte_bit(b, k - 1));
        let x = b as int;
        let p = pow2((8 - k) as nat) as int;
        lemma_pow2_pos((8 - k) as nat);
        lemma_pow2_unfold((9 - k) as nat);
        lemma_div_denominator(x, p, 2);
        assert(x / (p * 2) == (x / p) / 2);
        assert(pow2((9 - k) as nat) == p * 2);
        assert(pow2((7 - (k - 1)) as nat) == p);
    } else {
        assert(pow2((8 - k) as nat) == 256);
    }
}

/// Reading the eight digits of a byte gives the byte back.
pub proof fn lemma_byte_bits_value(b: u8)
    ensures
        bits_value(byte_bits(b)) == b as nat,
{
    lemma_byte_prefix_value(b, 8);
    lemma2_to64();
    assert(byte_bits(b).take(8) =~= byte_bits(b));
}

/// Reading the digits of a sequence of bytes in chunks of eight gives the
/// bytes back.
pub proof fn lemma_bytes_round_trip(bytes: Seq<u8>)
    ensures
        chunk_values(bytes_bits(bytes), 8) == values8(bytes),
    decreases bytes.len(),
{
    let s = bytes_bits(bytes);
    if bytes.len() > 0 {
        lemma_byte_bits_value(bytes[0]);
        if bytes.len() == 1 {
            assert(s =~= byte_bits(bytes[0]));
        } else {
            assert(s.take(8) =~= byte_bits(bytes[0]));
            assert(s.skip(8) =~= bytes_bits(bytes.skip(1)));
            lemma_bytes_round_trip(bytes.skip(1));
        }
    }
    assert(chunk_values(s, 8) =~= values8(bytes));
}

/// Appends the eight binary digits of `b` to `out`.
pub fn push_byte_bits(out: &mut String, b: u8)
    ensures
        final(out)@ == old(out)@ + byte_bits(b),
{
    let mut d: u8 = 128;
    let mut i: usize = 0;
    proof {
        lemma2_to64();
    }
    while i < 8
        invariant
            i <= 8,
            i < 8 ==> d as nat == pow2((7 - i) as nat),
            out@ == old(out)@ + byte_bits(b).take(i as int),
        decreases 8 - i,
    {
        proof {
            if i < 7 {
                lemma_pow2_unfold((7 - i) as nat);
            }
            lemma2_to64();
            reveal_strlit("1");
            reveal_strlit("0");
        }
        if (b / d) % 2 == 1 {
            out.append("1");
        } else {
            out.append("0");
        }
        assert(byte_bits(b).take(i + 1) =~= byte_bits(b).take(i as int).push(byte_bit(b, i as int)));
        d = d / 2;
        i += 1;
    }
    assert(byte_bits(b).take(8) =~= byte_bits(b));
}

/// Writes each byte as eight binary digits, most significant first.
pub fn bytes_to_bits(bytes: &Vec<u8>) -> (out: String)
    ensures
        out@ == bytes_bits(bytes@),
{
    let mut out = String::new();
    let mut k: usize = 0;
    while k < bytes.len()
        invariant
            k <= bytes.len(),
            out@ == bytes_bits(bytes@.take(k as int)),
        decreases bytes.len() - k,
    {
        push_byte_bits(&mut out, bytes[k]);
        assert(bytes_bits(bytes@.take(k + 1)) =~= bytes_bits(bytes@.take(k as int)) + byte_bits(
            bytes@[k as int],
        ));
        k += 1;
    }
    assert(bytes@.take(bytes.len() as int) =~= bytes@);
    out
}

/// Reads `bits` in consecutive chunks of `width` digits and returns the
/// number each chunk writes, or `None` when a character is no binary digit.
pub fn parse_chunks(bits: &str, width: usize) -> (r: Option<Vec<u16>>)
    requires
        1 <= width <= 16,
    ensures
        r is Some <==> is_bit_string(bits@),
        r is Some ==> values16(r.unwrap()@) == chunk_values(bits@, width as nat),
{
    let n: usize = bits.unicode_len();
    let mut out: Vec<u16> = Vec::new();
    let mut start: usize = 0;
    assert(bits@.skip(0) =~= bits@);
    assert(values16(out@) + chunk_values(bits@, width as nat) =~= chunk_values(bits@, width as nat));
    while start < n
        invariant
            n == bits@.len(),
            start <= n,
            1 <= width <= 16,
            forall|j: int| 0 <= j < start ==> is_bit(#[trigger] bits@[j]),
            chunk_values(bits@, width as nat) == values16(out@) + chunk_values(
                bits@.skip(start as int),
                width as nat,
            ),
        decreases n - start,
    {
        let end: usize = if n - start <= width { n } else { start + width };
        let mut acc: u32 = 0;
        let mut i: usize = start;
        proof {
            lemma2_to64();
        }
        while i < end
            invariant
                start <= i <= end <= n,
                end - start <= 16,
                n == bits@.len(),
                acc as nat == bits_value(bits@.subrange(start as int, i as int)),
                forall|j: int| 0 <= j < i ==> is_bit(#[trigger] bits@[j]),
            decreases end - i,
        {
            let c = bits.get_char(i);
            if c != '0' && c != '1' {
                return None;
            }
            proof {
                let before = bits@.subrange(start as int, i as int);
                lemma_bits_value_bound(before);
                lemma2_to64();
                if before.len() < 15 {
                    lemma_pow2_strictly_increases(before.len(), 15);
                }
                assert(bits@.subrange(start as int, i + 1).drop_last() =~= before);
            }
            acc = 2 * acc + (if c == '1' { 1u32 } else { 0u32 });
            i += 1;
        }
        proof {
            let chunk = bits@.subrange(start as int, end as int);
            let rest = bits@.skip(start as int);
            lemma_bits_value_bound(chunk);
            lemma2_to64();
            if chunk.len() < 16 {
                lemma_pow2_strictly_increases(chunk.len(), 16);
            }
            if rest.len() <= width {
                assert(rest =~= chunk);
                assert(bits@.skip(end as int).len() == 0);
            } else {
                assert(rest.take(width as int) =~= chunk);
                assert(rest.skip(width as int) =~= bits@.skip(end as int));
            }
            assert(chunk_values(rest, width as nat) =~= seq![bits_value(chunk)] + chunk_values(
                bits@.skip(end as int),
                width as nat,
            ));
        }
        let ghost before = out@;
        out.push(acc as u16);
        assert(values16(out@) =~= values16(before) + seq![bits_value(bits@.subrange(start as int, end as int))]);
        start = end;
    }
    assert(bits@.skip(n as int).len() == 0);
    assert(values16(out@) + Seq::<nat>::empty() =~= values16(out@));
    Some(out)
}

/// Cuts `bits` into consecutive chunks of `width` characters; the last chunk
/// holds what is left.
pub fn split_chunks(bits: &str, width: usize) -> (out: Vec<String>)
    requires
        1 <= width,
    ensures
        texts(out@) == chunks(bits@, width as nat),
{
    let n: usize = bits.unicode_len();
    let mut out: Vec<String> = Vec::new();
    let mut start: usize = 0;
    assert(bits@.skip(0) =~= bits@);
    assert(texts(out@) + chunks(bits@, width as nat) =~= chunks(bits@, width as nat));
    while start < n
        invariant
            n == bits@.len(),
            start <= n,
            1 <= width,
            chunks(bits@, width as nat) == texts(out@) + chunks(
                bits@.skip(start as int),
                width as nat,
            ),
        decreases n - start,
    {
        let end: usize = if n - start <= width { n } else { start + width };
        let piece = String::from_str(bits.substring_char(start, end));
        proof {
            let chunk = bits@.subrange(start as int, end as int);
            let rest = bits@.skip(start as int);
            if rest.len() <= width {
                assert(rest =~= chunk);
                assert(bits@.skip(end as int).len() == 0);
            } else {
                assert(rest.take(width as int) =~= chunk);
                assert(rest.skip(width as int) =~= bits@.skip(end as int));
            }
            assert(chunks(rest, width as nat) =~= seq![chunk] + chunks(
                bits@.skip(end as int),
                width as nat,
            ));
        }
        let ghost before = out@;
        out.push(piece);
        assert(texts(out@) =~= texts(before) + seq![bits@.subrange(start as int, end as int)]);
        start = end;
    }
    assert(bits@.skip(n as int).len() == 0);
    assert(texts(out@) + Seq::<Seq<char>>::empty() =~= texts(out@));
    out
}

} // verus!
