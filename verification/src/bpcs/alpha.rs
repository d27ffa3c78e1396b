//! Complexity coefficients as exact fractions.

use vstd::prelude::*;

verus! {

/// The largest number of changes between neighbouring bits that an 8×8 plane
/// can have: seven in each of eight lines, in both directions.
pub const MAX_BIT_CHANGES: u32 = 112;

/// A complexity coefficient: the fraction `numer / denom`.
///
/// A plane's own coefficient has the denominator [`MAX_BIT_CHANGES`]; a
/// threshold may have any positive denominator.
#[derive(Clone, Copy, Debug)]
pub struct Alpha {
    pub numer: u32,
    pub denom: u32,
}

impl Alpha {
    /// The denominator is not zero.
    pub open spec fn wf(self) -> bool {
        self.denom > 0
    }

    /// The fraction lies in `[0, 1/2]`, the range of complexity thresholds.
    pub open spec fn is_threshold(self) -> bool {
        self.denom > 0 && 2 * self.numer <= self.denom
    }

    /// `self >= other` as fractions.
    pub open spec fn at_least(self, other: Alpha) -> bool {
        self.numer * other.denom >= other.numer * self.denom
    }

    /// Whether a plane with `changes` changes between neighbouring bits has a
    /// coefficient of at least `self`.
    pub open spec fn accepts(self, changes: nat) -> bool {
        changes * self.denom >= self.numer * 112
    }

    /// The fraction `numer / denom`, unless `denom` is zero.
    pub fn new(numer: u32, denom: u32) -> (alpha: Option<Alpha>)
        ensures
            denom == 0 <==> alpha is None,
            alpha matches Some(a) ==> a.numer == numer && a.denom == denom,
    {
        if denom == 0 {
            None
        } else {
            Some(Alpha { numer, denom })
        }
    }

    /// One half: the least complexity of a plane as it is stored, and the
    /// highest threshold.
    pub fn half() -> (alpha: Alpha)
        ensures
            alpha.numer == 1,
            alpha.denom == 2,
    {
        Alpha { numer: 1, denom: 2 }
    }

    /// Whether the fraction can serve as a complexity threshold.
    pub fn valid_threshold(&self) -> (ok: bool)
        ensures
            ok == self.is_threshold(),
    {
        self.denom > 0 && 2 * (self.numer as u64) <= self.denom as u64
    }

    /// Whether `self >= other` as fractions.
    pub fn ge(&self, other: &Alpha) -> (b: bool)
        ensures
            b == self.at_least(*other),
    {
        assert(self.numer * other.denom <= 0xffff_ffff * 0xffff_ffff) by (nonlinear_arith)
            requires
                self.numer <= 0xffff_ffff,
                other.denom <= 0xffff_ffff,
        ;
        assert(other.numer * self.denom <= 0xffff_ffff * 0xffff_ffff) by (nonlinear_arith)
            requires
                other.numer <= 0xffff_ffff,
                self.denom <= 0xffff_ffff,
        ;
        let left: u64 = (self.numer as u64) * (other.denom as u64);
        let right: u64 = (other.numer as u64) * (self.denom as u64);
        left >= right
    }

    /// Whether `self < other` as fractions.
    pub fn lt(&self, other: &Alpha) -> (b: bool)
        ensures
            b == !self.at_least(*other),
    {
        !self.ge(other)
    }
}

/// A threshold accepts every plane that a higher threshold accepts.
pub proof fn lemma_accepts_monotone(low: Alpha, high: Alpha, changes: nat)
    requires
        low.wf(),
        high.wf(),
        high.at_least(low),
        high.accepts(changes),
    ensures
        low.accepts(changes),
{
    let c = changes as int;
    let ln = low.numer as int;
    let ld = low.denom as int;
    let hn = high.numer as int;
    let hd = high.denom as int;
    assert(c * ld >= ln * 112) by (nonlinear_arith)
        requires
            ld > 0,
            hd > 0,
            c >= 0,
            ln >= 0,
            hn >= 0,
            hn * ld >= ln * hd,
            c * hd >= hn * 112,
    {
        assert(c * hd * ld >= hn * 112 * ld);
        assert(hn * ld * 112 >= ln * hd * 112);
        assert(c * ld * hd >= ln * 112 * hd);
    }
}

} // verus!
