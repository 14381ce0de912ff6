//! Rates between zero and one, kept as integer fractions.

use vstd::prelude::*;

verus! {

/// A rate `num / den` between zero and one, used for proportions and
/// probabilities.
#[derive(Clone, Copy, Debug)]
pub struct Taxa {
    num: u32,
    den: u32,
}

/// `ceil(x * num / den)`.
pub open spec fn teto_fracao(x: int, num: int, den: int) -> int {
    (x * num + den - 1) / den
}

impl Taxa {
    #[verifier::type_invariant]
    spec fn entre_zero_e_um(self) -> bool {
        0 < self.den && self.num <= self.den
    }

    pub closed spec fn numerador(self) -> nat {
        self.num as nat
    }

    pub closed spec fn denominador(self) -> nat {
        self.den as nat
    }

    /// The rate `num / den`; `None` unless `den > 0` and `num <= den`.
    pub fn new(num: u32, den: u32) -> (r: Option<Taxa>)
        ensures
            r is Some <==> 0 < den && num <= den,
            r matches Some(t) ==> t.numerador() == num && t.denominador() == den,
    {
        if den > 0 && num <= den {
            Some(Taxa { num, den })
        } else {
            None
        }
    }

    pub fn num(&self) -> (r: u32)
        ensures
            r == self.numerador(),
            r <= self.denominador(),
    {
        proof {
            use_type_invariant(self);
        }
        self.num
    }

    pub fn den(&self) -> (r: u32)
        ensures
            r == self.denominador(),
            r > 0,
    {
        proof {
            use_type_invariant(self);
        }
        self.den
    }

    /// `ceil(x * self)`, which lies between zero and `x`.
    pub fn teto(&self, x: usize) -> (r: usize)
        ensures
            r == teto_fracao(x as int, self.numerador() as int, self.denominador() as int),
            r <= x,
            self.numerador() > 0 && x > 0 ==> r >= 1,
    {
        proof {
            use_type_invariant(self);
        }
        let num = self.num as u128;
        let den = self.den as u128;
        let xx = x as u128;
        assert(xx * num <= xx * den) by (nonlinear_arith)
            requires
                num <= den,
        ;
        assert(xx * den <= 0xffff_ffff_ffff_ffff * 0xffff_ffff) by (nonlinear_arith)
            requires
                xx <= 0xffff_ffff_ffff_ffff,
                den <= 0xffff_ffff,
        ;
        let a = xx * num + den - 1;
        let q = a / den;
        assert(a < (xx + 1) * den) by (nonlinear_arith)
            requires
                a == xx * num + den - 1,
                xx * num <= xx * den,
        ;
        assert(q <= xx) by (nonlinear_arith)
            requires
                a < (xx + 1) * den,
                den > 0,
                q == a / den,
        ;
        assert(num > 0 && xx > 0 ==> q >= 1) by (nonlinear_arith)
            requires
                a == xx * num + den - 1,
                den > 0,
                q == a / den,
        ;
        q as usize
    }

    /// Whether the draw `x` falls inside the rate: `x mod den < num`.
    pub fn acerta(&self, x: u64) -> (r: bool)
        ensures
            r == (x % (self.denominador() as u64) < self.numerador()),
    {
        proof {
            use_type_invariant(self);
        }
        x % (self.den as u64) < self.num as u64
    }
}

} // verus!
