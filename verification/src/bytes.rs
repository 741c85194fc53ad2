//! Little-endian integers and byte-vector helpers shared by the record and
//! wire codecs.

use vstd::prelude::*;

verus! {

/// The eight little-endian bytes of `x`.
pub open spec fn u64_le_bytes(x: u64) -> Seq<u8> {
    seq![
        x as u8,
        (x >> 8) as u8,
        (x >> 16) as u8,
        (x >> 24) as u8,
        (x >> 32) as u8,
        (x >> 40) as u8,
        (x >> 48) as u8,
        (x >> 56) as u8,
    ]
}

/// The `u64` read little-endian from the first eight bytes of `b`.
pub open spec fn u64_from_le(b: Seq<u8>) -> u64
    recommends
        b.len() >= 8,
{
    (b[0] as u64) | ((b[1] as u64) << 8) | ((b[2] as u64) << 16) | ((b[3] as u64) << 24) | ((
    b[4] as u64) << 32) | ((b[5] as u64) << 40) | ((b[6] as u64) << 48) | ((b[7] as u64) << 56)
}

/// Reading back the little-endian bytes of `x` yields `x`.
pub proof fn lemma_u64_le_round_trip(x: u64)
    ensures
        u64_le_bytes(x).len() == 8,
        u64_from_le(u64_le_bytes(x)) == x,
{
    assert((x as u8 as u64) | ((x >> 8) as u8 as u64) << 8 | ((x >> 16) as u8 as u64) << 16 | ((x
        >> 24) as u8 as u64) << 24 | ((x >> 32) as u8 as u64) << 32 | ((x >> 40) as u8 as u64)
        << 40 | ((x >> 48) as u8 as u64) << 48 | ((x >> 56) as u8 as u64) << 56 == x)
        by (bit_vector);
}

/// Append the little-endian bytes of `x` to `out`.
pub fn push_u64_le(out: &mut Vec<u8>, x: u64)
    ensures
        final(out)@ == old(out)@ + u64_le_bytes(x),
{
    out.push(#[verifier::truncate] (x as u8));
    out.push(#[verifier::truncate] ((x >> 8) as u8));
    out.push(#[verifier::truncate] ((x >> 16) as u8));
    out.push(#[verifier::truncate] ((x >> 24) as u8));
    out.push(#[verifier::truncate] ((x >> 32) as u8));
    out.push(#[verifier::truncate] ((x >> 40) as u8));
    out.push(#[verifier::truncate] ((x >> 48) as u8));
    out.push(#[verifier::truncate] ((x >> 56) as u8));
    assert(out@ =~= old(out)@ + u64_le_bytes(x));
}

/// Read a `u64` little-endian from `data` at `off`.
pub fn read_u64_le(data: &Vec<u8>, off: usize) -> (r: u64)
    requires
        off + 8 <= data@.len(),
    ensures
        r == u64_from_le(data@.subrange(off as int, off as int + 8)),
{
    let n = data.len();
    let r = (data[off] as u64) | ((data[off + 1] as u64) << 8) | ((data[off + 2] as u64) << 16) | ((
    data[off + 3] as u64) << 24) | ((data[off + 4] as u64) << 32) | ((data[off + 5] as u64) << 40)
        | ((data[off + 6] as u64) << 48) | ((data[off + 7] as u64) << 56);
    proof {
        let s = data@.subrange(off as int, off as int + 8);
        assert(s[0] == data@[off as int]);
        assert(s[1] == data@[off as int + 1]);
        assert(s[2] == data@[off as int + 2]);
        assert(s[3] == data@[off as int + 3]);
        assert(s[4] == data@[off as int + 4]);
        assert(s[5] == data@[off as int + 5]);
        assert(s[6] == data@[off as int + 6]);
        assert(s[7] == data@[off as int + 7]);
    }
    r
}

/// Append a copy of `src` to `dst`.
pub fn push_bytes(dst: &mut Vec<u8>, src: &Vec<u8>)
    ensures
        final(dst)@ == old(dst)@ + src@,
{
    let ghost dst0 = dst@;
    let mut i: usize = 0;
    while i < src.len()
        invariant
            i <= src@.len(),
            dst@ == dst0 + src@.subrange(0, i as int),
        decreases src@.len() - i,
    {
        dst.push(src[i]);
        assert(dst@ =~= dst0 + src@.subrange(0, i as int + 1));
        i = i + 1;
    }
    assert(dst@ =~= dst0 + src@);
}

/// The ASCII digit for a nibble: `0`–`9`, then `a`–`f`.
pub open spec fn hex_digit(n: u8) -> u8
    recommends
        n < 16,
{
    if n < 10 {
        (0x30 + n) as u8
    } else {
        (0x57 + n) as u8
    }
}

/// The value of an ASCII hex digit, if it is one.
pub open spec fn hex_val(d: u8) -> Option<u8> {
    if 0x30 <= d <= 0x39 {
        Some((d - 0x30) as u8)
    } else if 0x61 <= d <= 0x66 {
        Some((d - 0x57) as u8)
    } else {
        None
    }
}

/// Two hex digits per byte, high nibble first.
pub open spec fn hex_of(s: Seq<u8>) -> Seq<u8>
    decreases s.len(),
{
    if s.len() == 0 {
        Seq::empty()
    } else {
        seq![hex_digit(s[0] / 16), hex_digit(s[0] % 16)] + hex_of(s.drop_first())
    }
}

/// Read a hex string back into bytes; `None` on an odd length or a
/// non-digit.
pub open spec fn unhex(s: Seq<u8>) -> Option<Seq<u8>>
    decreases s.len(),
{
    if s.len() == 0 {
        Some(Seq::empty())
    } else if s.len() == 1 {
        None
    } else {
        match (hex_val(s[0]), hex_val(s[1])) {
            (Some(h), Some(l)) => match unhex(s.skip(2)) {
                Some(rest) => Some(seq![(h * 16 + l) as u8] + rest),
                None => None,
            },
            _ => None,
        }
    }
}

/// Hex encoding reads back to what was encoded, and uses no newline byte,
/// so a hex-framed line can carry any payload.
pub proof fn lemma_hex_round_trip(s: Seq<u8>)
    ensures
        hex_of(s).len() == 2 * s.len(),
        unhex(hex_of(s)) == Some(s),
        forall|i: int| 0 <= i < hex_of(s).len() ==> hex_of(s)[i] != 0x0au8,
    decreases s.len(),
{
    if s.len() == 0 {
        assert(unhex(hex_of(s)) == Some(Seq::<u8>::empty()));
        assert(s =~= Seq::<u8>::empty());
    } else {
        lemma_hex_round_trip(s.drop_first());
        let h = hex_of(s);
        assert(h.skip(2) =~= hex_of(s.drop_first()));
        let b = s[0];
        assert(hex_val(hex_digit(b / 16)) == Some(b / 16));
        assert(hex_val(hex_digit(b % 16)) == Some(b % 16));
        assert((b / 16) * 16 + (b % 16) == b) by {
            assert(b == 16 * (b / 16) + (b % 16));
        }
        assert(unhex(h) == Some(seq![b] + s.drop_first()));
        assert(seq![b] + s.drop_first() =~= s);
    }
}

/// Append the hex digits of `src` to `out`.
pub fn push_hex(out: &mut Vec<u8>, src: &Vec<u8>)
    ensures
        final(out)@ == old(out)@ + hex_of(src@),
{
    let ghost out0 = out@;
    let n = src.len();
    let mut i: usize = 0;
    while i < n
        invariant
            i <= n,
            n == src@.len(),
            out@ == out0 + hex_of(src@.take(i as int)),
        decreases n - i,
    {
        let b = src[i];
        let hi = b / 16;
        let lo = b % 16;
        out.push(if hi < 10 { 0x30 + hi } else { 0x57 + hi });
        out.push(if lo < 10 { 0x30 + lo } else { 0x57 + lo });
        proof {
            let t1 = src@.take(i as int + 1);
            lemma_hex_of_take_step(src@, i as int);
            assert(out@ =~= out0 + hex_of(t1));
        }
        i = i + 1;
    }
    proof {
        assert(src@.take(n as int) =~= src@);
    }
}

/// One step of `hex_of` along a prefix.
proof fn lemma_hex_of_take_step(s: Seq<u8>, i: int)
    requires
        0 <= i < s.len(),
    ensures
        hex_of(s.take(i + 1)) == hex_of(s.take(i)) + seq![
            hex_digit(s[i] / 16),
            hex_digit(s[i] % 16),
        ],
    decreases i,
{
    if i == 0 {
        assert(s.take(1) =~= seq![s[0]]);
        assert(s.take(1).drop_first() =~= Seq::<u8>::empty());
        assert(s.take(0) =~= Seq::<u8>::empty());
        assert(hex_of(s.take(1)) =~= hex_of(s.take(0)) + seq![
            hex_digit(s[0] / 16),
            hex_digit(s[0] % 16),
        ]);
    } else {
        lemma_hex_of_take_step(s.drop_first(), i - 1);
        assert(s.take(i + 1).drop_first() =~= s.drop_first().take(i));
        assert(s.take(i).drop_first() =~= s.drop_first().take(i - 1));
        assert(s.take(i + 1)[0] == s[0]);
        assert(s.take(i)[0] == s[0]);
        assert(s.drop_first()[i - 1] == s[i]);
        assert(hex_of(s.take(i + 1)) =~= hex_of(s.take(i)) + seq![
            hex_digit(s[i] / 16),
            hex_digit(s[i] % 16),
        ]);
    }
}

/// Read the hex digits of `line` back into bytes.
pub fn unhex_bytes(line: &Vec<u8>) -> (r: Option<Vec<u8>>)
    ensures
        match r {
            Some(v) => unhex(line@) == Some(v@),
            None => unhex(line@) is None,
        },
{
    let n = line.len();
    if n % 2 != 0 {
        proof {
            lemma_unhex_odd(line@);
        }
        return None;
    }
    let mut out: Vec<u8> = Vec::new();
    let mut i: usize = 0;
    proof {
        assert(line@.skip(0) =~= line@);
        assert(forall|rest: Seq<u8>| out@ + rest =~= rest);
    }
    while i < n
        invariant
            i <= n,
            i % 2 == 0,
            n % 2 == 0,
            n == line@.len(),
            unhex(line@) == (match unhex(line@.skip(i as int)) {
                Some(rest) => Some(out@ + rest),
                None => None::<Seq<u8>>,
            }),
        decreases n - i,
    {
        let d0 = line[i];
        let d1 = line[i + 1];
        let h: u8 = if 0x30 <= d0 && d0 <= 0x39 {
            d0 - 0x30
        } else if 0x61 <= d0 && d0 <= 0x66 {
            d0 - 0x57
        } else {
            proof {
                assert(hex_val(line@.skip(i as int)[0]) is None);
            }
            return None;
        };
        let l: u8 = if 0x30 <= d1 && d1 <= 0x39 {
            d1 - 0x30
        } else if 0x61 <= d1 && d1 <= 0x66 {
            d1 - 0x57
        } else {
            proof {
                assert(hex_val(line@.skip(i as int)[1]) is None);
            }
            return None;
        };
        out.push(h * 16 + l);
        proof {
            let s = line@.skip(i as int);
            assert(s[0] == line@[i as int] && s[1] == line@[i as int + 1]);
            assert(s.skip(2) =~= line@.skip(i as int + 2));
            assert(hex_val(s[0]) == Some(h) && hex_val(s[1]) == Some(l));
            assert(unhex(s) == (match unhex(line@.skip(i as int + 2)) {
                Some(rest) => Some(seq![(h * 16 + l) as u8] + rest),
                None => None::<Seq<u8>>,
            }));
            assert(forall|rest: Seq<u8>|
                out@ + rest =~= (out@.drop_last() + (seq![(h * 16 + l) as u8] + rest)));
        }
        i = i + 2;
    }
    proof {
        assert(line@.skip(n as int) =~= Seq::<u8>::empty());
        assert(out@ + Seq::<u8>::empty() =~= out@);
    }
    Some(out)
}

/// An odd-length string is not hex.
proof fn lemma_unhex_odd(s: Seq<u8>)
    requires
        s.len() % 2 == 1,
    ensures
        unhex(s) is None,
    decreases s.len(),
{
    if s.len() == 1 {
    } else {
        lemma_unhex_odd(s.skip(2));
    }
}

/// The bytes of `data` in `[start, end)`, as a fresh vector.
pub fn vec_range(data: &Vec<u8>, start: usize, end: usize) -> (r: Vec<u8>)
    requires
        start <= end,
        end <= data@.len(),
    ensures
        r@ == data@.subrange(start as int, end as int),
{
    let mut r: Vec<u8> = Vec::new();
    let mut i: usize = start;
    while i < end
        invariant
            start <= i <= end,
            end <= data@.len(),
            r@ == data@.subrange(start as int, i as int),
        decreases end - i,
    {
        r.push(data[i]);
        assert(r@ =~= data@.subrange(start as int, i as int + 1));
        i = i + 1;
    }
    r
}

} // verus!
