//! Little-endian integers in byte sequences.

use vstd::prelude::*;

verus! {

/// 256 to the power `n`.
pub open spec fn pow256(n: nat) -> nat
    decreases n,
{
    if n == 0 {
        1
    } else {
        256 * pow256((n - 1) as nat)
    }
}

/// The unsigned integer that `s` holds, least significant byte first.
pub open spec fn le(s: Seq<u8>) -> nat
    decreases s.len(),
{
    if s.len() == 0 {
        0
    } else {
        s[0] as nat + 256 * le(s.drop_first())
    }
}

/// The `n` low bytes of `v`, least significant byte first.
pub open spec fn le_bytes(v: nat, n: nat) -> Seq<u8>
    decreases n,
{
    if n == 0 {
        Seq::empty()
    } else {
        seq![(v % 256) as u8] + le_bytes(v / 256, (n - 1) as nat)
    }
}

/// The integer held by the `n` bytes of `s` that start at `offset`.
pub open spec fn le_at(s: Seq<u8>, offset: int, n: int) -> nat {
    le(s.subrange(offset, offset + n))
}

/// The two's complement value of a 16-bit pattern.
pub open spec fn signed16(n: nat) -> int {
    if n < 0x8000 {
        n as int
    } else {
        n - 0x1_0000
    }
}

/// The two's complement value of a 32-bit pattern.
pub open spec fn signed32(n: nat) -> int {
    if n < 0x8000_0000 {
        n as int
    } else {
        n - 0x1_0000_0000
    }
}

/// The 16-bit pattern of a two's complement value.
pub open spec fn pattern16(v: i16) -> nat {
    if v >= 0 {
        v as nat
    } else {
        (v + 0x1_0000) as nat
    }
}

/// The 32-bit pattern of a two's complement value.
pub open spec fn pattern32(v: i32) -> nat {
    if v >= 0 {
        v as nat
    } else {
        (v + 0x1_0000_0000) as nat
    }
}

/// `s` with the bytes from `offset` on replaced by `part`.
pub open spec fn splice(s: Seq<u8>, offset: int, part: Seq<u8>) -> Seq<u8> {
    s.subrange(0, offset) + part + s.subrange(offset + part.len(), s.len() as int)
}

/// A sequence of `n` zero bytes.
pub open spec fn zeros(n: nat) -> Seq<u8> {
    Seq::new(n, |i: int| 0u8)
}

pub proof fn lemma_pow256_values()
    ensures
        pow256(0) == 1,
        pow256(1) == 0x100,
        pow256(2) == 0x1_0000,
        pow256(4) == 0x1_0000_0000,
        pow256(8) == 0x1_0000_0000_0000_0000,
{
    reveal_with_fuel(pow256, 9);
}

pub proof fn lemma_pow256_monotonic(a: nat, b: nat)
    requires
        a <= b,
    ensures
        0 < pow256(a) <= pow256(b),
    decreases b,
{
    if b > 0 {
        if a == b {
            lemma_pow256_monotonic((a - 1) as nat, (b - 1) as nat);
        } else {
            lemma_pow256_monotonic(a, (b - 1) as nat);
        }
    }
}

pub broadcast proof fn lemma_le_bytes_len(v: nat, n: nat)
    ensures
        #[trigger] le_bytes(v, n).len() == n,
    decreases n,
{
    if n > 0 {
        lemma_le_bytes_len(v / 256, (n - 1) as nat);
    }
}

pub proof fn lemma_le_bound(s: Seq<u8>)
    ensures
        le(s) < pow256(s.len()),
    decreases s.len(),
{
    if s.len() > 0 {
        lemma_le_bound(s.drop_first());
    }
}

/// Reading back what was written gives the value again, for every value that fits.
pub proof fn law_le_of_le_bytes(v: nat, n: nat)
    requires
        v < pow256(n),
    ensures
        le(le_bytes(v, n)) == v,
    decreases n,
{
    if n > 0 {
        let rest = le_bytes(v / 256, (n - 1) as nat);
        law_le_of_le_bytes(v / 256, (n - 1) as nat);
        lemma_le_bytes_len(v / 256, (n - 1) as nat);
        assert(le_bytes(v, n).drop_first() =~= rest);
        assert(le_bytes(v, n)[0] == (v % 256) as u8);
    }
}

/// Writing what was read gives the bytes again.
pub proof fn law_le_bytes_of_le(s: Seq<u8>)
    ensures
        le_bytes(le(s), s.len()) == s,
    decreases s.len(),
{
    if s.len() > 0 {
        let rest = s.drop_first();
        law_le_bytes_of_le(rest);
        assert(le(s) % 256 == s[0] as nat && le(s) / 256 == le(rest));
        assert(seq![s[0]] + rest =~= s);
    } else {
        assert(s =~= Seq::<u8>::empty());
    }
}

/// Reads the `n`-byte little-endian integer at `offset`.
pub fn read_le(src: &[u8], offset: usize, n: usize) -> (r: u64)
    requires
        n <= 8,
        offset + n <= src@.len(),
    ensures
        r == le_at(src@, offset as int, n as int),
        r < pow256(n as nat),
{
    let mut acc: u64 = 0;
    let mut i: usize = n;
    let total: usize = src.len();
    proof {
        assert(src@.subrange(offset + n, offset + n) =~= Seq::empty());
    }
    while i > 0
        invariant
            i <= n <= 8,
            offset + n <= total,
            total == src@.len(),
            acc == le(src@.subrange(offset + i, offset + n)),
            acc < pow256((n - i) as nat),
        decreases i,
    {
        let byte: u8 = src[offset + i - 1];
        proof {
            let longer = src@.subrange(offset + i - 1, offset + n);
            assert(longer.drop_first() =~= src@.subrange(offset + i, offset + n));
            assert(longer[0] == byte);
            lemma_pow256_values();
            lemma_pow256_monotonic((n - i + 1) as nat, 8);
            assert(pow256((n - i + 1) as nat) == 256 * pow256((n - i) as nat));
        }
        acc = acc * 256 + byte as u64;
        i = i - 1;
    }
    acc
}

/// Reads the 16-bit integer at `offset`.
pub fn read_u16(src: &[u8], offset: usize) -> (r: u16)
    requires
        offset + 2 <= src@.len(),
    ensures
        r == le_at(src@, offset as int, 2),
{
    let v: u64 = read_le(src, offset, 2);
    proof {
        lemma_pow256_values();
    }
    v as u16
}

/// Reads the 32-bit integer at `offset`.
pub fn read_u32(src: &[u8], offset: usize) -> (r: u32)
    requires
        offset + 4 <= src@.len(),
    ensures
        r == le_at(src@, offset as int, 4),
{
    let v: u64 = read_le(src, offset, 4);
    proof {
        lemma_pow256_values();
    }
    v as u32
}

/// Reads the 64-bit integer at `offset`.
pub fn read_u64(src: &[u8], offset: usize) -> (r: u64)
    requires
        offset + 8 <= src@.len(),
    ensures
        r == le_at(src@, offset as int, 8),
{
    read_le(src, offset, 8)
}

/// Reads the signed 32-bit integer at `offset`.
pub fn read_i32(src: &[u8], offset: usize) -> (r: i32)
    requires
        offset + 4 <= src@.len(),
    ensures
        r == signed32(le_at(src@, offset as int, 4)),
{
    let v: u32 = read_u32(src, offset);
    if v < 0x8000_0000 {
        v as i32
    } else {
        (v as i64 - 0x1_0000_0000) as i32
    }
}

/// The 16-bit pattern of `v`.
pub fn bits_i16(v: i16) -> (r: u16)
    ensures
        r == pattern16(v),
        signed16(r as nat) == v,
{
    if v >= 0 {
        v as u16
    } else {
        (v as i32 + 0x1_0000) as u16
    }
}

/// The 32-bit pattern of `v`.
pub fn bits_i32(v: i32) -> (r: u32)
    ensures
        r == pattern32(v),
        signed32(r as nat) == v,
{
    if v >= 0 {
        v as u32
    } else {
        (v as i64 + 0x1_0000_0000) as u32
    }
}

/// Appends the `n` low bytes of `v`.
pub fn push_le(out: &mut Vec<u8>, v: u64, n: usize)
    ensures
        final(out)@ == old(out)@ + le_bytes(v as nat, n as nat),
{
    let mut rest: u64 = v;
    let mut i: usize = 0;
    proof {
        assert(out@ + le_bytes(rest as nat, n as nat) =~= old(out)@ + le_bytes(
            v as nat,
            n as nat,
        ));
    }
    while i < n
        invariant
            i <= n,
            out@ + le_bytes(rest as nat, (n - i) as nat) == old(out)@ + le_bytes(
                v as nat,
                n as nat,
            ),
        decreases n - i,
    {
        let ghost before = out@;
        let byte: u8 = (rest % 256) as u8;
        out.push(byte);
        proof {
            let tail = le_bytes((rest / 256) as nat, (n - i - 1) as nat);
            assert(before + le_bytes(rest as nat, (n - i) as nat) =~= before.push(byte) + tail);
        }
        rest = rest / 256;
        i = i + 1;
    }
    proof {
        assert(out@ + le_bytes(rest as nat, 0) =~= out@);
    }
}

/// Appends all bytes of `part`.
pub fn push_bytes(out: &mut Vec<u8>, part: &[u8])
    ensures
        final(out)@ == old(out)@ + part@,
{
    let mut i: usize = 0;
    while i < part.len()
        invariant
            i <= part@.len(),
            out@ == old(out)@ + part@.subrange(0, i as int),
        decreases part@.len() - i,
    {
        out.push(part[i]);
        proof {
            assert(part@.subrange(0, i + 1) =~= part@.subrange(0, i as int).push(part@[i as int]));
        }
        i = i + 1;
    }
    proof {
        assert(part@.subrange(0, part@.len() as int) =~= part@);
    }
}

/// Overwrites the bytes at `offset` with those of `part`.
pub fn put_bytes(dst: &mut [u8], offset: usize, part: &[u8])
    requires
        offset + part@.len() <= old(dst)@.len(),
    ensures
        final(dst)@ == splice(old(dst)@, offset as int, part@),
{
    let mut i: usize = 0;
    let total: usize = dst.len();
    while i < part.len()
        invariant
            i <= part@.len(),
            offset + part@.len() <= total,
            total == old(dst)@.len(),
            dst@.len() == old(dst)@.len(),
            forall|k: int|
                0 <= k < dst@.len() ==> #[trigger] dst@[k] == (if offset <= k < offset + i {
                    part@[k - offset]
                } else {
                    old(dst)@[k]
                }),
        decreases part@.len() - i,
    {
        dst[offset + i] = part[i];
        i = i + 1;
    }
    proof {
        assert(dst@ =~= splice(old(dst)@, offset as int, part@));
    }
}

/// A vector of `n` zero bytes.
pub fn zero_bytes(n: usize) -> (r: Vec<u8>)
    ensures
        r@ == zeros(n as nat),
{
    let r = vec![0u8; n];
    proof {
        assert(r@ =~= zeros(n as nat));
    }
    r
}

/// Copies the bytes of `src` from `start` to `end`.
pub fn copy_range(src: &[u8], start: usize, end: usize) -> (r: Vec<u8>)
    requires
        start <= end <= src@.len(),
    ensures
        r@ == src@.subrange(start as int, end as int),
{
    let mut r: Vec<u8> = Vec::new();
    let mut i: usize = start;
    while i < end
        invariant
            start <= i <= end <= src@.len(),
            r@ == src@.subrange(start as int, i as int),
        decreases end - i,
    {
        r.push(src[i]);
        proof {
            assert(src@.subrange(start as int, i + 1) =~= src@.subrange(
                start as int,
                i as int,
            ).push(src@[i as int]));
        }
        i = i + 1;
    }
    r
}

/// The first byte of a number counts for ones, the next for 256 each, and so on.
pub proof fn law_place_values(s: Seq<u8>, o: int)
    requires
        0 <= o,
    ensures
        o + 2 <= s.len() ==> le_at(s, o, 2) == s[o] + 0x100 * s[o + 1],
        o + 4 <= s.len() ==> le_at(s, o, 4) == s[o] + 0x100 * s[o + 1] + 0x1_0000 * s[o + 2]
            + 0x100_0000 * s[o + 3],
        o + 8 <= s.len() ==> le_at(s, o, 8) == s[o] + 0x100 * s[o + 1] + 0x1_0000 * s[o + 2]
            + 0x100_0000 * s[o + 3] + 0x1_0000_0000 * s[o + 4] + 0x100_0000_0000 * s[o + 5]
            + 0x1_0000_0000_0000 * s[o + 6] + 0x100_0000_0000_0000 * s[o + 7],
{
    if o + 2 <= s.len() {
        lemma_first_byte(s, o, 2);
        lemma_first_byte(s, o + 1, 1);
        lemma_no_bytes(s, o + 2);
    }
    if o + 4 <= s.len() {
        lemma_four_bytes(s, o, 0);
    }
    if o + 8 <= s.len() {
        lemma_four_bytes(s, o, 4);
        lemma_four_bytes(s, o + 4, 0);
    }
}

proof fn lemma_no_bytes(s: Seq<u8>, o: int)
    requires
        0 <= o <= s.len(),
    ensures
        le_at(s, o, 0) == 0,
{
}

proof fn lemma_first_byte(s: Seq<u8>, o: int, n: int)
    requires
        0 <= o,
        0 < n,
        o + n <= s.len(),
    ensures
        le_at(s, o, n) == s[o] + 256 * le_at(s, o + 1, n - 1),
{
    assert(s.subrange(o, o + n).drop_first() =~= s.subrange(o + 1, o + n));
}

proof fn lemma_four_bytes(s: Seq<u8>, o: int, more: int)
    requires
        0 <= o,
        0 <= more,
        o + 4 + more <= s.len(),
    ensures
        le_at(s, o, 4 + more) == s[o] + 0x100 * s[o + 1] + 0x1_0000 * s[o + 2] + 0x100_0000 * s[o
            + 3] + 0x1_0000_0000 * le_at(s, o + 4, more),
{
    lemma_first_byte(s, o, 4 + more);
    lemma_first_byte(s, o + 1, 3 + more);
    lemma_first_byte(s, o + 2, 2 + more);
    lemma_first_byte(s, o + 3, 1 + more);
    lemma_no_bytes(s, o + 4);
}

/// Byte `i` of a number is what is left of it after `i` divisions by 256, modulo 256.
pub proof fn law_byte_of_a_number(v: nat, n: nat, i: int)
    requires
        0 <= i < n,
    ensures
        le_bytes(v, n).len() == n,
        i == 0 ==> le_bytes(v, n)[i] == v % 256,
        i > 0 ==> le_bytes(v, n)[i] == le_bytes(v / 256, n)[i - 1],
    decreases n,
{
    lemma_le_bytes_len(v, n);
    if i > 0 {
        lemma_more_bytes(v / 256, (n - 1) as nat, i - 1);
    }
}

/// More bytes of a number do not change the first ones.
proof fn lemma_more_bytes(v: nat, n: nat, i: int)
    requires
        0 <= i < n,
    ensures
        le_bytes(v, n + 1)[i] == le_bytes(v, n)[i],
    decreases n,
{
    lemma_le_bytes_len(v, n);
    lemma_le_bytes_len(v, n + 1);
    lemma_le_bytes_len(v / 256, n);
    lemma_le_bytes_len(v / 256, (n - 1) as nat);
    if i > 0 {
        lemma_more_bytes(v / 256, (n - 1) as nat, i - 1);
    }
}

/// A signed number differs from its pattern by nothing or by the number of all patterns, lies
/// in the signed range, and has the pattern again.
pub proof fn law_twos_complement(n: nat, v: i32, w: i16)
    ensures
        n < 0x1_0000_0000 ==> {
            &&& -0x8000_0000 <= signed32(n) < 0x8000_0000
            &&& signed32(n) == n || signed32(n) + 0x1_0000_0000 == n
        },
        n < 0x1_0000 ==> {
            &&& -0x8000 <= signed16(n) < 0x8000
            &&& signed16(n) == n || signed16(n) + 0x1_0000 == n
        },
        signed32(pattern32(v)) == v && pattern32(v) < 0x1_0000_0000,
        signed16(pattern16(w)) == w && pattern16(w) < 0x1_0000,
{
}

/// Putting a part into bytes changes the bytes from its place on to those of the part, and no
/// others.
pub proof fn law_splice(s: Seq<u8>, offset: int, part: Seq<u8>, i: int)
    requires
        0 <= offset,
        offset + part.len() <= s.len(),
        0 <= i < s.len(),
    ensures
        splice(s, offset, part).len() == s.len(),
        splice(s, offset, part)[i] == if offset <= i < offset + part.len() {
            part[i - offset]
        } else {
            s[i]
        },
{
}

/// Zero bytes are zero.
pub proof fn law_zeros(n: nat, i: int)
    requires
        0 <= i < n,
    ensures
        zeros(n).len() == n,
        zeros(n)[i] == 0,
        le(zeros(n)) == 0,
    decreases n,
{
    if n > 1 {
        law_zeros((n - 1) as nat, 0);
        assert(zeros(n).drop_first() =~= zeros((n - 1) as nat));
    } else {
        assert(zeros(n).drop_first() =~= Seq::empty());
        assert(le(zeros(n).drop_first()) == 0);
    }
}

/// A byte is the sum of its bits; the fifth and the sixth are taken as one number.
pub proof fn lemma_byte_sum(v: u8)
    ensures
        v as int == v as int % 2 + 2 * (v as int / 2 % 2) + 4 * (v as int / 4 % 2) + 8 * (v as int
            / 8 % 2) + 16 * (v as int / 16 % 4) + 64 * (v as int / 64 % 2) + 128 * (v as int
            / 128),
        v as int / 128 <= 1,
{
    let a = v as int;
    assert(a / 4 == a / 2 / 2 && a / 8 == a / 4 / 2 && a / 16 == a / 8 / 2);
    assert(a / 64 == a / 16 / 4 && a / 128 == a / 64 / 2);
}

} // verus!
