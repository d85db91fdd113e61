//! Fletcher32 checksum over byte ranges, with 360-word reduction cycles.
//!
//! Words are read big-endian (`(b[i] << 8) | b[i+1]`); an odd-length message
//! is padded with one conceptual zero byte.  Both running sums start at
//! `0xFFFF`, are folded to 16 bits after every 360 words, and once more at
//! the end; the result is `(sum2 << 16) | sum1`.

use vstd::prelude::*;

verus! {

/// One 16-bit reduction step: add the upper half onto the lower half.
pub open spec fn fold16(s: int) -> int {
    s % 0x10000 + s / 0x10000
}

/// Big-endian 16-bit word starting at even byte index `2 * i`.
pub open spec fn word_at(data: Seq<u8>, i: int) -> int {
    (data[2 * i] as int) * 256 + (data[2 * i + 1] as int)
}

/// Runs the Fletcher sums over the whole words of `data`, starting at word
/// `i` with sums `s1, s2` and `k` words accumulated since the last fold.
/// Folds after every 360th word and once more over a trailing partial block.
pub open spec fn fletcher_run(data: Seq<u8>, i: int, s1: int, s2: int, k: int) -> (int, int)
    decreases data.len() / 2 - i,
{
    if i < 0 || i >= data.len() / 2 {
        if k > 0 {
            (fold16(s1), fold16(s2))
        } else {
            (s1, s2)
        }
    } else {
        let s1n = s1 + word_at(data, i);
        let s2n = s2 + s1n;
        if k + 1 == 360 {
            fletcher_run(data, i + 1, fold16(s1n), fold16(s2n), 0)
        } else {
            fletcher_run(data, i + 1, s1n, s2n, k + 1)
        }
    }
}

/// The Fletcher32 checksum of a byte sequence.
pub open spec fn fletcher32_spec(data: Seq<u8>) -> u32 {
    let sums = fletcher_run(data, 0, 0xffff, 0xffff, 0);
    let s1 = if data.len() % 2 == 1 {
        sums.0 + (data[data.len() - 1] as int) * 256
    } else {
        sums.0
    };
    let s2 = if data.len() % 2 == 1 {
        sums.1 + s1
    } else {
        sums.1
    };
    (((fold16(s2) as u32) << 16) | (fold16(s1) as u32))
}

/// Upper bound on `sum2` after `k` words of the current block: each word
/// adds at most the bound on the new `sum1`, `0x10200 + (k + 1) * 0xffff`.
pub open spec fn sum2_bound(k: int) -> int
    decreases k,
{
    if k <= 0 {
        0x20000
    } else {
        sum2_bound(k - 1) + 0x10200 + k * 0xffff
    }
}

proof fn lemma_sum2_bound_mono(j: int, k: int)
    requires
        j <= k,
    ensures
        sum2_bound(j) <= sum2_bound(k),
    decreases k,
{
    if j < k && k > 0 {
        lemma_sum2_bound_mono(j, k - 1);
    }
}

proof fn lemma_sum2_bound_closed(k: int)
    requires
        k >= 0,
    ensures
        2 * sum2_bound(k) == 0x40000 + k * 0x20400 + 0xffff * k * (k + 1),
    decreases k,
{
    if k > 0 {
        lemma_sum2_bound_closed(k - 1);
        assert(0xffff * (k - 1) * ((k - 1) + 1) + 2 * (k * 0xffff) == 0xffff * k * (k + 1))
            by (nonlinear_arith);
        assert(2 * sum2_bound(k) == 2 * sum2_bound(k - 1) + 0x20400 + 2 * (k * 0xffff));
        assert(2 * sum2_bound(k - 1) == 0x40000 + (k - 1) * 0x20400 + 0xffff * (k - 1) * ((k - 1)
            + 1));
        assert(2 * sum2_bound(k) == 0x40000 + k * 0x20400 + 0xffff * k * (k + 1));
    } else {
        assert(k == 0);
        assert(sum2_bound(0) == 0x20000);
        assert(0xffff * k * (k + 1) == 0);
    }
}

proof fn lemma_sum2_bound_total(k: int)
    requires
        0 <= k <= 360,
    ensures
        sum2_bound(k) < 0x100000000,
{
    lemma_sum2_bound_mono(k, 360);
    lemma_sum2_bound_closed(360);
}

/// Fletcher32 of the empty message is `0xFFFFFFFF`.
pub proof fn lemma_fletcher32_empty()
    ensures
        fletcher32_spec(Seq::<u8>::empty()) == 0xFFFFFFFFu32,
{
    assert(fletcher_run(Seq::<u8>::empty(), 0, 0xffff, 0xffff, 0) == (0xffff as int, 0xffff as int));
    assert(fold16(0xffff) == 0xffff);
    assert((((0xffff as u32) << 16) | (0xffff as u32)) == 0xFFFFFFFFu32) by (bit_vector);
}

/// Exact exec-level fold, tied to `fold16`.
fn fold_step(s: u32) -> (r: u32)
    ensures
        r == fold16(s as int),
        r <= 0xffff + (s as int) / 0x10000,
        r <= 0x1fffe,
{
    proof {
        assert((s & 0xffff) == s % 0x10000 && (s >> 16) == s / 0x10000 && (s & 0xffff) <= 0xffff
            && (s >> 16) <= 0xffff) by (bit_vector);
    }
    (s & 0xffff) + (s >> 16)
}

/// Computes the Fletcher32 checksum over `bytes[offset .. offset + length]`.
///
/// The result is a function of that byte range alone, so the same range at
/// another offset or in another slice yields the same checksum.
pub fn get_fletcher32(bytes: &[u8], offset: usize, length: usize) -> (r: u32)
    requires
        offset + length <= bytes@.len(),
    ensures
        r == fletcher32_spec(bytes@.subrange(offset as int, offset + length)),
{
    let blen: usize = bytes.len();
    let ghost msg: Seq<u8> = bytes@.subrange(offset as int, offset + length);
    let nw: usize = length / 2;
    let mut s1: u32 = 0xffff;
    let mut s2: u32 = 0xffff;
    let mut i: usize = 0;
    let mut k: usize = 0;

    while i < nw
        invariant
            blen == bytes@.len(),
            offset + length <= blen,
            msg == bytes@.subrange(offset as int, offset + length),
            nw == length / 2,
            i <= nw,
            k < 360,
            s1 <= 0x10200 + k * 0xffff,
            s2 <= sum2_bound(k as int),
            fletcher_run(msg, i as int, s1 as int, s2 as int, k as int) == fletcher_run(
                msg,
                0,
                0xffff,
                0xffff,
                0,
            ),
        decreases nw - i,
    {
        let ghost prev = fletcher_run(msg, i as int, s1 as int, s2 as int, k as int);
        let b0: u8 = bytes[offset + 2 * i];
        let b1: u8 = bytes[offset + 2 * i + 1];
        let x: u32 = ((b0 as u32) << 8) | (b1 as u32);
        proof {
            assert((((b0 as u32) << 8) | (b1 as u32)) == (b0 as u32) * 256 + (b1 as u32))
                by (bit_vector);
            assert(msg[2 * (i as int)] == b0 && msg[2 * (i as int) + 1] == b1);
            assert(x as int == word_at(msg, i as int));
            lemma_sum2_bound_total(k + 1);
        }
        s1 = s1 + x;
        s2 = s2 + s1;
        proof {
            assert(sum2_bound(k as int + 1) == sum2_bound(k as int) + 0x10200 + (k + 1) * 0xffff);
        }
        if k + 1 == 360 {
            proof {
                assert(s1 <= 0x10200 + 360 * 0xffff);
            }
            s1 = fold_step(s1);
            s2 = fold_step(s2);
            proof {
                assert((0x10200 + 360 * 0xffff) / 0x10000 == 361);
                assert(s1 <= 0x10200);
            }
            k = 0;
        } else {
            k = k + 1;
        }
        i = i + 1;
        proof {
            assert(fletcher_run(msg, i as int, s1 as int, s2 as int, k as int) == prev);
        }
    }

    let ghost pre1: int = s1 as int;
    let ghost pre2: int = s2 as int;
    let ghost prek: int = k as int;
    if k > 0 {
        s1 = fold_step(s1);
        s2 = fold_step(s2);
    }
    proof {
        assert(i as int >= msg.len() / 2);
        assert((s1 as int, s2 as int) == fletcher_run(msg, i as int, pre1, pre2, prek));
        assert((s1 as int, s2 as int) == fletcher_run(msg, 0, 0xffff, 0xffff, 0));
        assert(s1 <= 0x20000 && s2 <= 0x20000);
    }

    if length % 2 == 1 {
        let b: u8 = bytes[offset + length - 1];
        let x: u32 = (b as u32) << 8;
        proof {
            assert(((b as u32) << 8) == (b as u32) * 256 && ((b as u32) << 8) <= 0xff00)
                by (bit_vector);
            assert(msg[msg.len() - 1] == b);
        }
        s1 = s1 + x;
        s2 = s2 + s1;
    }

    let s1f: u32 = fold_step(s1);
    let s2f: u32 = fold_step(s2);
    (s2f << 16) | s1f
}

} // verus!
