//! Big-endian byte-level encoding and decoding of unsigned integers.
//!
//! Every multi-byte field of the wire format goes through these helpers, so
//! their contracts pin down the exact byte image (`be_bytes`) and the exact
//! value recovered from bytes (`be_val`), together with the lemmas that make
//! the two inverse to each other.

use vstd::prelude::*;

verus! {

/// 256 to the power `n` (1 for non-positive `n`).
pub open spec fn pow256(n: int) -> int
    decreases n,
{
    if n <= 0 {
        1
    } else {
        256 * pow256(n - 1)
    }
}

/// The `n`-byte big-endian image of `v`: most significant byte first,
/// `v` taken modulo `256^n`.
pub open spec fn be_bytes(v: u64, n: int) -> Seq<u8>
    decreases n,
{
    if n <= 0 {
        Seq::empty()
    } else {
        be_bytes(v / 256, n - 1).push((v % 256) as u8)
    }
}

/// The unsigned value of a big-endian byte sequence.
pub open spec fn be_val(s: Seq<u8>) -> int
    decreases s.len(),
{
    if s.len() == 0 {
        0
    } else {
        be_val(s.drop_last()) * 256 + s.last()
    }
}

pub proof fn lemma_be_bytes_len(v: u64, n: int)
    requires
        n >= 0,
    ensures
        be_bytes(v, n).len() == n,
    decreases n,
{
    if n > 0 {
        lemma_be_bytes_len(v / 256, n - 1);
    }
}

/// Reading back the big-endian image of `v` yields `v`, provided `v` fits in
/// `n` bytes.
pub proof fn lemma_be_val_of_be_bytes(v: u64, n: int)
    requires
        0 <= n,
        v < pow256(n),
    ensures
        be_val(be_bytes(v, n)) == v,
    decreases n,
{
    if n == 0 {
    } else {
        lemma_be_bytes_len(v / 256, n - 1);
        assert(v / 256 < pow256(n - 1)) by {
            vstd::arithmetic::div_mod::lemma_multiply_divide_lt(v as int, 256, pow256(n - 1));
        }
        lemma_be_val_of_be_bytes(v / 256, n - 1);
        let s = be_bytes(v, n);
        assert(s.drop_last() =~= be_bytes(v / 256, n - 1));
        assert(be_val(s) == (v / 256) * 256 + v % 256);
        assert((v / 256) * 256 + v % 256 == v) by {
            vstd::arithmetic::div_mod::lemma_fundamental_div_mod(v as int, 256);
        }
    }
}

/// Appends the `width`-byte big-endian image of `v` to `out`.
pub fn push_be(out: &mut Vec<u8>, v: u64, width: usize)
    requires
        width <= 8,
    ensures
        final(out)@ == old(out)@ + be_bytes(v, width as int),
{
    let mut i: usize = 0;
    let mut cur: u64 = v;
    let mut tail: Vec<u8> = Vec::new();
    // Build the image least-significant byte first, then append in reverse.
    while i < width
        invariant
            i <= width <= 8,
            tail@.len() == i,
            be_bytes(v, width as int) == be_bytes(cur, (width - i) as int) + tail@.reverse(),
        decreases width - i,
    {
        let ghost pre_tail = tail@;
        let ghost pre_cur = cur;
        tail.push((cur % 256) as u8);
        cur = cur / 256;
        i = i + 1;
        proof {
            assert(tail@.reverse() =~= seq![(pre_cur % 256) as u8] + pre_tail.reverse());
            assert(be_bytes(pre_cur, (width - i + 1) as int) == be_bytes(
                cur,
                (width - i) as int,
            ).push((pre_cur % 256) as u8));
            assert(be_bytes(cur, (width - i) as int) + tail@.reverse() =~= be_bytes(
                pre_cur,
                (width - i + 1) as int,
            ) + pre_tail.reverse());
        }
    }
    proof {
        assert(be_bytes(cur, 0) =~= Seq::<u8>::empty());
        assert(be_bytes(v, width as int) =~= tail@.reverse());
    }
    let mut j: usize = tail.len();
    while j > 0
        invariant
            j <= tail@.len(),
            out@ == old(out)@ + tail@.reverse().take(tail@.len() - j),
        decreases j,
    {
        j = j - 1;
        let b = tail[j];
        out.push(b);
        proof {
            let rev = tail@.reverse();
            let k = tail@.len() - j - 1;
            assert(rev[k as int] == tail@[j as int]);
            assert(rev.take(k + 1) =~= rev.take(k).push(tail@[j as int]));
            assert(out@ =~= old(out)@ + rev.take(k + 1));
        }
    }
    proof {
        assert(tail@.reverse().take(tail@.len() as int) =~= tail@.reverse());
    }
}

/// Reads the `width`-byte big-endian value starting at `pos` in `buf`.
pub fn read_be(buf: &[u8], pos: usize, width: usize) -> (r: u64)
    requires
        width <= 8,
        pos + width <= buf@.len(),
    ensures
        r as int == be_val(buf@.subrange(pos as int, pos + width)),
        r < pow256(width as int),
{
    let mut acc: u64 = 0;
    let mut i: usize = 0;
    let n = buf.len();
    proof {
        lemma_pow256_values();
        lemma_pow256_increases(i as int, width as int);
    }
    while i < width
        invariant
            i <= width <= 8,
            pos + width <= n == buf@.len(),
            acc as int == be_val(buf@.subrange(pos as int, pos + i)),
            acc < pow256(i as int),
            pow256(8) == 0x1_0000_0000_0000_0000,
        decreases width - i,
    {
        proof {
            lemma_pow256_increases(i as int + 1, 8);
            assert(256 * pow256(i as int) == pow256(i as int + 1));
        }
        let b = buf[pos + i];
        let prev = acc;
        acc = acc * 256 + (b as u64);
        i = i + 1;
        proof {
            let s = buf@.subrange(pos as int, pos + i);
            assert(s.drop_last() =~= buf@.subrange(pos as int, pos + i - 1));
            assert(s.last() == b);
        }
    }
    proof {
        lemma_pow256_increases(width as int, 8);
    }
    acc
}

/// The concrete values of the byte powers that bound machine integers.
pub proof fn lemma_pow256_values()
    ensures
        pow256(0) == 1,
        pow256(1) == 0x100,
        pow256(2) == 0x1_0000,
        pow256(3) == 0x100_0000,
        pow256(4) == 0x1_0000_0000,
        pow256(5) == 0x100_0000_0000,
        pow256(6) == 0x1_0000_0000_0000,
        pow256(7) == 0x100_0000_0000_0000,
        pow256(8) == 0x1_0000_0000_0000_0000,
{
    assert(pow256(0) == 1);
    assert(pow256(1) == 0x100);
    assert(pow256(2) == 0x1_0000);
    assert(pow256(3) == 0x100_0000);
    assert(pow256(4) == 0x1_0000_0000);
    assert(pow256(5) == 0x100_0000_0000);
    assert(pow256(6) == 0x1_0000_0000_0000);
    assert(pow256(7) == 0x100_0000_0000_0000);
    assert(pow256(8) == 0x1_0000_0000_0000_0000);
}

pub proof fn lemma_pow256_pos(a: int)
    ensures
        pow256(a) >= 1,
    decreases a,
{
    if a > 0 {
        lemma_pow256_pos(a - 1);
    }
}

pub proof fn lemma_pow256_increases(a: int, b: int)
    requires
        a <= b,
    ensures
        1 <= pow256(a) <= pow256(b),
    decreases b - a,
{
    lemma_pow256_pos(a);
    if a < b {
        lemma_pow256_increases(a, b - 1);
        lemma_pow256_pos(b - 1);
    }
}

} // verus!
