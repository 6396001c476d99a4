//! Power-of-two quantization of child bounds into a parent's frame.
//!
//! For a parent extent `x` on one axis, the quantization step is `2^k`
//! with `k` the smallest exponent such that `x <= 255 * 2^k`: 255 steps
//! then span the whole extent. Child offsets are quantized to a byte by
//! rounding down (for minima) or up (for maxima), so the decoded box
//! `origin + quantized * 2^k` never shrinks the true box.

use vstd::prelude::*;
use vstd::arithmetic::power2::{pow2, lemma_pow2_unfold, lemma_pow2_strictly_increases, lemma2_to64};
use vstd::arithmetic::div_mod::{lemma_fundamental_div_mod, lemma_div_is_ordered, lemma_basic_div};

verus! {

/// The quantization exponent of an axis extent: the smallest `k` with
/// `extent <= 255 * 2^k`.
pub open spec fn quant_k(extent: int) -> nat
    decreases extent,
{
    if extent <= 255 {
        0
    } else {
        1 + quant_k((extent + 1) / 2)
    }
}

/// `quant_k` satisfies its characterization: the extent fits in 255 steps
/// of `2^k`, and `k` is minimal for that.
pub proof fn lemma_quant_k_bounds(extent: int)
    requires
        extent >= 0,
    ensures
        extent <= 255 * pow2(quant_k(extent)),
        quant_k(extent) > 0 ==> extent > 255 * pow2((quant_k(extent) - 1) as nat),
    decreases extent,
{
    if extent <= 255 {
        assert(pow2(0) == 1) by {
            lemma2_to64();
        }
    } else {
        let q = (extent + 1) / 2;
        let r = (extent + 1) % 2;
        lemma_fundamental_div_mod(extent + 1, 2);
        assert(extent + 1 == 2 * q + r);
        lemma_quant_k_bounds(q);
        let k1 = quant_k(q);
        assert(pow2(k1 + 1) == 2 * pow2(k1)) by {
            lemma_pow2_unfold((k1 + 1) as nat);
        }
        assert(extent == 2 * q + r - 1);
        assert(extent <= 2 * q <= 2 * (255 * pow2(k1)));
        assert(2 * (255 * pow2(k1)) == 255 * pow2(k1 + 1)) by (nonlinear_arith)
            requires
                pow2(k1 + 1) == 2 * pow2(k1),
        ;
        if k1 > 0 {
            assert(q > 255 * pow2((k1 - 1) as nat));
            assert(q >= 255 * pow2((k1 - 1) as nat) + 1);
            assert(extent >= 2 * q - 1);
            lemma_pow2_unfold(k1);
            assert(2 * (255 * pow2((k1 - 1) as nat)) == 255 * pow2(k1)) by (nonlinear_arith)
                requires
                    pow2(k1) == 2 * pow2((k1 - 1) as nat),
            ;
            assert(extent > 255 * pow2(k1));
        } else {
            assert(pow2(0) == 1) by {
                lemma2_to64();
            }
            assert(extent > 255);
        }
    }
}

/// Any `k` meeting the characterization equals `quant_k`.
pub proof fn lemma_quant_k_unique(extent: int, k: nat)
    requires
        extent >= 0,
        extent <= 255 * pow2(k),
        k > 0 ==> extent > 255 * pow2((k - 1) as nat),
    ensures
        k == quant_k(extent),
{
    let kq = quant_k(extent);
    lemma_quant_k_bounds(extent);
    if k < kq {
        // then k <= kq - 1, so extent <= 255 * pow2(kq - 1), contradicting minimality
        if k < kq - 1 {
            lemma_pow2_strictly_increases(k, (kq - 1) as nat);
        }
        assert(255 * pow2(k) <= 255 * pow2((kq - 1) as nat)) by (nonlinear_arith)
            requires
                pow2(k) <= pow2((kq - 1) as nat),
        ;
        assert(false);
    }
    if kq < k {
        if kq < k - 1 {
            lemma_pow2_strictly_increases(kq, (k - 1) as nat);
        }
        assert(255 * pow2(kq) <= 255 * pow2((k - 1) as nat)) by (nonlinear_arith)
            requires
                pow2(kq) <= pow2((k - 1) as nat),
        ;
        assert(false);
    }
}

/// Compute the quantization exponent and step of an axis extent: `r.0` is
/// `quant_k(extent)` and `r.1 == 2^(r.0)` is the step.
pub fn quant_exponent(extent: u64) -> (r: (u8, u64))
    requires
        extent <= 0xFFFF_FFFF,
    ensures
        r.0 == quant_k(extent as int),
        r.1 == pow2(r.0 as nat),
        r.0 <= 25,
        1 <= r.1 <= 0x200_0000,
        extent <= 255 * r.1,
{
    let mut e: u64 = 1;
    let mut k: u8 = 0;
    proof {
        lemma2_to64();
    }
    while 255 * e < extent
        invariant
            extent <= 0xFFFF_FFFF,
            e == pow2(k as nat),
            1 <= e <= 0x200_0000,
            k <= 25,
            k > 0 ==> extent > 255 * pow2((k - 1) as nat),
        decreases extent - e,
    {
        proof {
            lemma_pow2_unfold((k + 1) as nat);
            lemma2_to64();
            // 255 * pow2(25) exceeds every admissible extent, so the loop
            // stops before k reaches 25.
            if k >= 25 {
                assert(e == pow2(25));
                assert(false);
            }
            if k < 24 {
                lemma_pow2_strictly_increases(k as nat, 24);
            }
            assert(e <= pow2(24));
        }
        e = 2 * e;
        k = k + 1;
    }
    proof {
        lemma_quant_k_unique(extent as int, k as nat);
    }
    (k, e)
}

/// Quantize a lower offset: round down to a step multiple.
pub fn quant_floor(d: u64, e: u64) -> (q: u64)
    requires
        1 <= e,
    ensures
        q == d as int / e as int,
        q * e <= d,
        d < (q + 1) * e,
    no_unwind
{
    let q = d / e;
    proof {
        lemma_fundamental_div_mod(d as int, e as int);
        assert(e as int * (d as int / e as int) == (d as int / e as int) * e) by (nonlinear_arith);
        assert((q as int + 1) * e == q as int * e + e) by (nonlinear_arith);
    }
    q
}

/// Quantize an upper offset: round up to a step multiple.
pub fn quant_ceil(d: u64, e: u64) -> (q: u64)
    requires
        1 <= e <= 0x200_0000,
        d <= 0xFFFF_FFFF,
    ensures
        q == (d + e - 1) as int / e as int,
        d <= q * e,
        d > 0 ==> (q - 1) * e < d,
        d == 0 ==> q == 0,
{
    let q = (d + e - 1) / e;
    proof {
        lemma_fundamental_div_mod((d + e - 1) as int, e as int);
        assert(e as int * ((d + e - 1) as int / e as int) == ((d + e - 1) as int / e as int)
            * e) by (nonlinear_arith);
        assert((q as int - 1) * e == q as int * e - e) by (nonlinear_arith);
        if d == 0 {
            lemma_basic_div((e - 1) as int, e as int);
        }
    }
    q
}

/// Offsets within 255 steps of the origin quantize to a byte.
pub proof fn lemma_quant_fits_byte(d: int, e: int)
    requires
        1 <= e,
        0 <= d <= 255 * e,
    ensures
        d / e <= 255,
        (d + e - 1) / e <= 255,
{
    lemma_div_is_ordered(d, 255 * e, e);
    lemma_div_is_ordered(d + e - 1, 256 * e - 1, e);
    assert(255 * e / e == 255) by {
        vstd::arithmetic::div_mod::lemma_div_multiples_vanish(255, e);
    }
    assert((256 * e - 1) / e == 255) by {
        lemma_fundamental_div_mod(256 * e - 1, e);
        assert(256 * e - 1 == e * 255 + (e - 1)) by (nonlinear_arith);
        vstd::arithmetic::div_mod::lemma_fundamental_div_mod_converse(
            256 * e - 1,
            e,
            255,
            e - 1,
        );
    }
}

} // verus!
