//! Products of two 128-bit numbers, held in full.
use vstd::prelude::*;

verus! {

/// A number below 2^256: `high` times 2^128, and `low`.
#[derive(Clone, Copy, Debug, PartialEq, Eq)]
pub struct Wide {
    pub high: u128,
    pub low: u128,
}

impl Wide {
    /// The number that the two halves stand for.
    pub open spec fn value(self) -> int {
        self.high * 0x1_0000_0000_0000_0000_0000_0000_0000_0000 + self.low
    }

    /// Whether this number is more than `other`.
    pub fn exceeds(&self, other: &Wide) -> (more: bool)
        ensures
            more == (self.value() > other.value()),
    {
        self.high > other.high || (self.high == other.high && self.low > other.low)
    }
}

/// The product of `a` and `b`, with nothing cut off.
pub fn mul_wide(a: u128, b: u128) -> (p: Wide)
    ensures
        p.value() == a * b,
{
    let a1: u128 = a / 0x1_0000_0000_0000_0000;
    let a0: u128 = a % 0x1_0000_0000_0000_0000;
    let b1: u128 = b / 0x1_0000_0000_0000_0000;
    let b0: u128 = b % 0x1_0000_0000_0000_0000;
    proof {
        lemma_half_product(a0, b0);
        lemma_half_product(a0, b1);
        lemma_half_product(a1, b0);
        lemma_half_product(a1, b1);
    }
    let p00: u128 = a0 * b0;
    let p01: u128 = a0 * b1;
    let p10: u128 = a1 * b0;
    let p11: u128 = a1 * b1;
    let t: u128 = p00 / 0x1_0000_0000_0000_0000 + p01 % 0x1_0000_0000_0000_0000 + p10
        % 0x1_0000_0000_0000_0000;
    let low: u128 = p00 % 0x1_0000_0000_0000_0000 + (t % 0x1_0000_0000_0000_0000)
        * 0x1_0000_0000_0000_0000;
    let high: u128 = p11 + p01 / 0x1_0000_0000_0000_0000 + p10 / 0x1_0000_0000_0000_0000 + t
        / 0x1_0000_0000_0000_0000;
    proof {
        assert(a * b == p11 * 0x1_0000_0000_0000_0000_0000_0000_0000_0000 + (p01 + p10)
            * 0x1_0000_0000_0000_0000 + p00) by (nonlinear_arith)
            requires
                a == a1 * 0x1_0000_0000_0000_0000 + a0,
                b == b1 * 0x1_0000_0000_0000_0000 + b0,
                p00 == a0 * b0,
                p01 == a0 * b1,
                p10 == a1 * b0,
                p11 == a1 * b1,
        ;
        let h00 = p00 as int / 0x1_0000_0000_0000_0000;
        let l00 = p00 as int % 0x1_0000_0000_0000_0000;
        let h01 = p01 as int / 0x1_0000_0000_0000_0000;
        let l01 = p01 as int % 0x1_0000_0000_0000_0000;
        let h10 = p10 as int / 0x1_0000_0000_0000_0000;
        let l10 = p10 as int % 0x1_0000_0000_0000_0000;
        let ht = t as int / 0x1_0000_0000_0000_0000;
        let lt = t as int % 0x1_0000_0000_0000_0000;
        assert(p00 == h00 * 0x1_0000_0000_0000_0000 + l00);
        assert(p01 == h01 * 0x1_0000_0000_0000_0000 + l01);
        assert(p10 == h10 * 0x1_0000_0000_0000_0000 + l10);
        assert(t == ht * 0x1_0000_0000_0000_0000 + lt);
        assert(t == h00 + l01 + l10);
        assert(low == l00 + lt * 0x1_0000_0000_0000_0000);
        assert(high == p11 + h01 + h10 + ht);
    }
    Wide { high, low }
}

/// The product of two numbers below 2^64 is at most (2^64 - 1) squared.
proof fn lemma_half_product(x: u128, y: u128)
    requires
        x < 0x1_0000_0000_0000_0000,
        y < 0x1_0000_0000_0000_0000,
    ensures
        0 <= x * y <= 0xffff_ffff_ffff_fffe_0000_0000_0000_0001,
{
    assert(0 <= x * y <= 0xffff_ffff_ffff_fffe_0000_0000_0000_0001) by (nonlinear_arith)
        requires
            0 <= x <= 0xffff_ffff_ffff_ffff,
            0 <= y <= 0xffff_ffff_ffff_ffff,
    ;
}

} // verus!
