//! Unsigned integers as byte strings of a chosen width and byte order.
use crate::config::Endian;
use vstd::prelude::*;

verus! {

/// 256 to the power `n`.
pub open spec fn pow256(n: nat) -> nat
    decreases n,
{
    if n == 0 {
        1
    } else {
        256 * pow256((n - 1) as nat)
    }
}

/// The `n` low bytes of `v`, least significant first.
pub open spec fn le_bytes(v: nat, n: nat) -> Seq<u8>
    decreases n,
{
    if n == 0 {
        Seq::empty()
    } else {
        seq![(v % 256) as u8] + le_bytes(v / 256, (n - 1) as nat)
    }
}

/// The number whose bytes, least significant first, are `bytes`.
pub open spec fn le_value(bytes: Seq<u8>) -> nat
    decreases bytes.len(),
{
    if bytes.len() == 0 {
        0
    } else {
        bytes[0] as nat + 256 * le_value(bytes.skip(1))
    }
}

/// Bytes given least significant first, put in the byte order `endian`; and
/// back, since reversing twice changes nothing.
pub open spec fn arrange(bytes: Seq<u8>, endian: Endian) -> Seq<u8> {
    match endian {
        Endian::Little => bytes,
        Endian::Big => bytes.reverse(),
    }
}

/// The `n` low bytes of `v` in the byte order `endian`.
pub open spec fn int_bytes(v: nat, n: nat, endian: Endian) -> Seq<u8> {
    arrange(le_bytes(v, n), endian)
}

/// The number that `bytes` hold in the byte order `endian`.
pub open spec fn int_value(bytes: Seq<u8>, endian: Endian) -> nat {
    le_value(arrange(bytes, endian))
}

/// The powers of 256 that the integer widths in use reach.
pub proof fn lemma_pow256_values()
    ensures
        pow256(0) == 1,
        pow256(1) == 0x100,
        pow256(2) == 0x1_0000,
        pow256(3) == 0x100_0000,
        pow256(4) == 0x1_0000_0000,
        pow256(5) == 0x100_0000_0000,
        pow256(6) == 0x1_0000_0000_0000,
        pow256(7) == 0x100_0000_0000_0000,
        pow256(8) == 0x1_0000_0000_0000_0000,
{
    reveal_with_fuel(pow256, 9);
}

/// `n` bytes are `n` bytes.
pub proof fn lemma_le_bytes_len(v: nat, n: nat)
    ensures
        le_bytes(v, n).len() == n,
    decreases n,
{
    if n > 0 {
        lemma_le_bytes_len(v / 256, (n - 1) as nat);
    }
}

/// `n` bytes hold a number below 256 to the `n`.
pub proof fn lemma_le_value_bound(bytes: Seq<u8>)
    ensures
        le_value(bytes) < pow256(bytes.len()),
    decreases bytes.len(),
{
    if bytes.len() > 0 {
        lemma_le_value_bound(bytes.skip(1));
    }
}

/// A number that fits `n` bytes is read back from them unchanged.
pub proof fn lemma_le_round_trip(v: nat, n: nat)
    requires
        v < pow256(n),
    ensures
        le_value(le_bytes(v, n)) == v,
    decreases n,
{
    if n > 0 {
        let tail = le_bytes(v / 256, (n - 1) as nat);
        lemma_le_round_trip(v / 256, (n - 1) as nat);
        lemma_le_bytes_len(v / 256, (n - 1) as nat);
        assert(le_bytes(v, n).skip(1) == tail);
    }
}

/// The same in either byte order, with the width of the result.
pub proof fn lemma_int_round_trip(v: nat, n: nat, endian: Endian)
    requires
        v < pow256(n),
    ensures
        int_bytes(v, n, endian).len() == n,
        int_value(int_bytes(v, n, endian), endian) == v,
{
    lemma_le_round_trip(v, n);
    lemma_le_bytes_len(v, n);
    let le = le_bytes(v, n);
    assert(le.reverse().reverse() == le);
}

/// Where the `k`-th least significant of `width` bytes stands behind `start`.
pub open spec fn slot(start: int, width: int, k: int, endian: Endian) -> int {
    match endian {
        Endian::Little => start + k,
        Endian::Big => start + width - 1 - k,
    }
}

/// Writes the `width` low bytes of `v` into `buf` from `start` on, in the
/// byte order `endian`, and leaves the rest of `buf` alone.
pub fn put_uint(buf: &mut [u8; 9], start: usize, v: u64, width: usize, endian: Endian)
    requires
        start + width <= 9,
    ensures
        final(buf)@.subrange(start as int, start + width) == int_bytes(
            v as nat,
            width as nat,
            endian,
        ),
        forall|i: int|
            0 <= i < 9 && !(start <= i < start + width) ==> final(buf)@[i] == old(buf)@[i],
{
    let mut rest: u64 = v;
    let mut k: usize = 0;
    let ghost done: Seq<u8> = Seq::empty();
    let ghost target = le_bytes(v as nat, width as nat);
    proof {
        lemma_le_bytes_len(v as nat, width as nat);
    }
    while k < width
        invariant
            k <= width,
            start + width <= 9,
            target == le_bytes(v as nat, width as nat),
            target.len() == width,
            done.len() == k,
            target == done + le_bytes(rest as nat, (width - k) as nat),
            forall|j: int|
                0 <= j < k ==> buf@[slot(start as int, width as int, j, endian)] == done[j],
            forall|i: int| 0 <= i < 9 && !(start <= i < start + width) ==> buf@[i] == old(buf)@[i],
        decreases width - k,
    {
        let index = match endian {
            Endian::Little => start + k,
            Endian::Big => start + width - 1 - k,
        };
        let byte = (rest % 256) as u8;
        proof {
            let tail = le_bytes((rest / 256) as nat, (width - k - 1) as nat);
            assert(le_bytes(rest as nat, (width - k) as nat) == seq![byte] + tail);
            assert(done + (seq![byte] + tail) == done.push(byte) + tail);
            done = done.push(byte);
        }
        buf[index] = byte;
        rest = rest / 256;
        k = k + 1;
    }
    proof {
        assert(target == done);
        let got = buf@.subrange(start as int, start + width);
        assert(got == int_bytes(v as nat, width as nat, endian)) by {
            assert forall|i: int| 0 <= i < width implies got[i] == arrange(target, endian)[i] by {
                match endian {
                    Endian::Little => {
                        assert(slot(start as int, width as int, i, endian) == start + i);
                    },
                    Endian::Big => {
                        assert(slot(start as int, width as int, width - 1 - i, endian) == start
                            + i);
                    },
                }
            }
        }
    }
}

/// Reads `bytes` as one number in the byte order `endian`.
pub fn uint_from_bytes(bytes: &[u8], endian: Endian) -> (v: u64)
    requires
        bytes@.len() <= 8,
    ensures
        v == int_value(bytes@, endian),
{
    let width = bytes.len();
    let mut acc: u64 = 0;
    let mut k: usize = width;
    let ghost ordered = arrange(bytes@, endian);
    proof {
        lemma_pow256_values();
        assert(ordered.skip(width as int) == Seq::<u8>::empty());
    }
    while k > 0
        invariant
            k <= width,
            width == bytes@.len(),
            width <= 8,
            ordered == arrange(bytes@, endian),
            ordered.len() == width,
            acc == le_value(ordered.skip(k as int)),
        decreases k,
    {
        let index = match endian {
            Endian::Little => k - 1,
            Endian::Big => width - k,
        };
        let byte = bytes[index];
        proof {
            let upper = ordered.skip(k as int);
            let next = ordered.skip(k - 1);
            assert(next.skip(1) == upper);
            assert(next[0] == byte);
            lemma_le_value_bound(upper);
            lemma_le_value_bound(next);
            lemma_pow256_values();
            lemma_pow256_grows(upper.len(), 7);
        }
        acc = acc * 256 + byte as u64;
        k = k - 1;
    }
    proof {
        assert(ordered.skip(0) == ordered);
    }
    acc
}

/// A higher power of 256 is not smaller.
pub proof fn lemma_pow256_grows(m: nat, n: nat)
    requires
        m <= n,
    ensures
        pow256(m) <= pow256(n),
        pow256(m) >= 1,
    decreases n,
{
    if m < n {
        lemma_pow256_grows(m, (n - 1) as nat);
    } else if n > 0 {
        lemma_pow256_grows((m - 1) as nat, (n - 1) as nat);
    }
}

} // verus!
