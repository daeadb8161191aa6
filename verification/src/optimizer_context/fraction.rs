use vstd::arithmetic::div_mod::{lemma_fundamental_div_mod, lemma_fundamental_div_mod_converse};
use vstd::prelude::*;

verus! {

/// The part of a full timestep that the first timestep of the day covers,
/// as a ratio of two whole numbers: what is left of the step over the length
/// of a step.
#[derive(Clone, Copy, Debug, PartialEq, Eq, Structural)]
pub struct StepFraction {
    pub numerator: u64,
    pub denominator: u64,
}

impl StepFraction {
    /// The fraction lies in `(0, 1]`.
    pub open spec fn wf(&self) -> bool {
        0 < self.numerator <= self.denominator
    }

    /// `r` is the whole number nearest to `x` times the fraction, a half
    /// counting upward.
    pub open spec fn rounds_to(&self, x: int, r: int) -> bool {
        2 * self.denominator * r - self.denominator <= 2 * x * self.numerator < 2
            * self.denominator * r + self.denominator
    }

    /// The whole number nearest to `x` times the fraction, a half counting
    /// upward.
    pub open spec fn scaled(&self, x: int) -> int {
        (2 * x * self.numerator + self.denominator) / (2 * self.denominator)
    }

    /// The fraction `numerator / denominator`, or `None` when it is not in
    /// `(0, 1]`.
    pub fn new(numerator: u64, denominator: u64) -> (r: Option<Self>)
        ensures
            r is Some <==> 0 < numerator <= denominator,
            r matches Some(f) ==> f.numerator == numerator && f.denominator == denominator,
    {
        if 0 < numerator && numerator <= denominator {
            Some(StepFraction { numerator, denominator })
        } else {
            None
        }
    }

    /// The whole first timestep.
    pub fn full() -> (f: Self)
        ensures
            f.wf(),
            f.numerator == 1,
            f.denominator == 1,
    {
        StepFraction { numerator: 1, denominator: 1 }
    }

    /// Whether the fraction lies in `(0, 1]`.
    pub fn is_valid(&self) -> (ok: bool)
        ensures
            ok == self.wf(),
    {
        0 < self.numerator && self.numerator <= self.denominator
    }

    /// The rate `x` of a full timestep, cut down to the first timestep and
    /// rounded to the nearest whole number.
    pub fn scale(&self, x: i64) -> (r: i64)
        requires
            self.wf(),
            x >= 0,
        ensures
            0 <= r <= x,
            self.rounds_to(x as int, r as int),
            r == self.scaled(x as int),
    {
        let n = self.numerator as u128;
        let d = self.denominator as u128;
        assert(0 <= x * n <= 0x7fff_ffff_ffff_ffff * 0xffff_ffff_ffff_ffff) by (nonlinear_arith)
            requires
                0 <= x <= 0x7fff_ffff_ffff_ffff,
                0 <= n <= 0xffff_ffff_ffff_ffff,
        ;
        let p: u128 = x as u128 * n;
        let q = p / d;
        let rem = p % d;
        proof {
            lemma_fundamental_div_mod(p as int, d as int);
            assert(p == d * q + rem);
            assert(q <= x && (q == x ==> rem == 0)) by (nonlinear_arith)
                requires
                    x * n == d * q + rem,
                    0 < n <= d,
                    0 <= rem < d,
                    0 <= x,
                    0 <= q,
            ;
        }
        if 2 * rem >= d {
            proof {
                assert(2 * d * (q + 1) - d <= 2 * (x * n) < 2 * d * (q + 1) + d) by (nonlinear_arith)
                    requires
                        x * n == d * q + rem,
                        0 <= rem < d,
                        2 * rem >= d,
                ;
                assert(2 * x * n == 2 * (x * n)) by (nonlinear_arith);
                assert(2 * x * n + d == (q + 1) * (2 * d) + (2 * rem - d)) by (nonlinear_arith)
                    requires
                        x * n == d * q + rem,
                ;
                lemma_fundamental_div_mod_converse(
                    2 * x * n + d,
                    2 * d as int,
                    q as int + 1,
                    2 * rem - d,
                );
            }
            (q + 1) as i64
        } else {
            proof {
                assert(2 * d * q - d <= 2 * (x * n) < 2 * d * q + d) by (nonlinear_arith)
                    requires
                        x * n == d * q + rem,
                        0 <= rem < d,
                        2 * rem < d,
                ;
                assert(2 * x * n == 2 * (x * n)) by (nonlinear_arith);
                assert(2 * x * n + d == q * (2 * d) + (2 * rem + d)) by (nonlinear_arith)
                    requires
                        x * n == d * q + rem,
                ;
                lemma_fundamental_div_mod_converse(2 * x * n + d, 2 * d as int, q as int, 2 * rem + d);
            }
            q as i64
        }
    }
}

} // verus!
