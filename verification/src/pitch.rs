//! Pitches as exact rational numbers of octaves.

use crate::math::{
    coprime, lemma_lowest_terms_bound, lemma_lowest_terms_unique, round_half_away,
    round_half_away_exec,
};
use num_rational::Ratio;
use vstd::prelude::*;

verus! {

/// The MIDI key nearest to the pitch `numer / denom` octaves from concert A,
/// which is key 69, twelve keys to the octave, before it is cut to the range
/// of keys.
pub open spec fn nearest_key(numer: int, denom: int) -> int {
    round_half_away(12 * numer + 69 * denom, denom)
}

/// A pitch: the base-two logarithm of a frequency ratio against concert A
/// (440 Hz), held as a fraction in lowest terms with a positive denominator.
/// One octave up is `1/1`, an equal-tempered semitone is `1/12`.
#[derive(Clone, Copy, Debug, PartialEq, Eq, Structural)]
pub struct Pitch {
    numer: i32,
    denom: i32,
}

/// Calls `num_rational::Ratio::new` and hands back numerator and denominator
/// of what it built. The contract claims that `Ratio::new` puts the fraction
/// into lowest terms with a positive denominator, without changing its value.
/// `Ratio::new` panics on a zero denominator; the smallest `i64` is left out
/// because negating it overflows.
#[verifier::external_body]
fn lowest_terms(numer: i64, denom: i64) -> (r: (i64, i64))
    requires
        denom != 0,
        numer > i64::MIN,
        denom > i64::MIN,
    ensures
        r.1 > 0,
        r.0 * denom == numer * r.1,
        coprime(r.0 as int, r.1 as int),
{
    let ratio = Ratio::new(numer, denom);
    (*ratio.numer(), *ratio.denom())
}

/// Some pitch is `num / den` octaves: the fraction in lowest terms fits the
/// numbers that a pitch is made of.
pub open spec fn representable(num: int, den: int) -> bool {
    exists|p: Pitch| p.is_ratio(num, den)
}

impl Pitch {
    /// The fraction is in lowest terms and its denominator is positive.
    #[verifier::type_invariant]
    pub closed spec fn well_formed(self) -> bool {
        self.denom > 0 && coprime(self.numer as int, self.denom as int)
    }

    /// Numerator of the fraction in lowest terms.
    pub closed spec fn spec_numer(self) -> int {
        self.numer as int
    }

    /// Denominator of the fraction in lowest terms; positive for every pitch
    /// that executable code holds.
    pub closed spec fn spec_denom(self) -> int {
        self.denom as int
    }

    /// The pitch is `num / den` octaves: it has that value, in lowest terms
    /// and with a positive denominator. One pitch has it.
    pub open spec fn is_ratio(self, num: int, den: int) -> bool {
        &&& self.spec_denom() > 0
        &&& self.spec_numer() * den == num * self.spec_denom()
        &&& coprime(self.spec_numer(), self.spec_denom())
    }

    /// The pitch `num / den` octaves, reduced to lowest terms.
    pub fn new(num: i32, den: i32) -> (p: Pitch)
        requires
            den != 0,
            num > i32::MIN,
            den > i32::MIN,
        ensures
            p.is_ratio(num as int, den as int),
    {
        let r = lowest_terms(num as i64, den as i64);
        proof {
            lemma_lowest_terms_bound(num as int, den as int, r.0 as int, r.1 as int);
        }
        Pitch { numer: r.0 as i32, denom: r.1 as i32 }
    }

    /// The pitch `num / den` octaves, or `None` where none is.
    fn reduced(num: i64, den: i64) -> (found: Option<Pitch>)
        requires
            den != 0,
            num > i64::MIN,
            den > i64::MIN,
        ensures
            match found {
                Some(p) => p.is_ratio(num as int, den as int),
                None => !representable(num as int, den as int),
            },
    {
        let r = lowest_terms(num, den);
        if -0x8000_0000 <= r.0 && r.0 <= 0x7fff_ffff && r.1 <= 0x7fff_ffff {
            Some(Pitch { numer: r.0 as i32, denom: r.1 as i32 })
        } else {
            proof {
                assert forall|p: Pitch| !p.is_ratio(num as int, den as int) by {
                    if p.is_ratio(num as int, den as int) {
                        assert(p.spec_numer() * r.1 == r.0 * p.spec_denom()) by (nonlinear_arith)
                            requires
                                p.spec_numer() * den == num * p.spec_denom(),
                                r.0 * den == num * r.1,
                                den != 0,
                        ;
                        lemma_lowest_terms_unique(
                            p.spec_numer(),
                            p.spec_denom(),
                            r.0 as int,
                            r.1 as int,
                        );
                    }
                }
            }
            None
        }
    }

    /// The sum of two pitches, or `None` where the sum is no pitch because
    /// its lowest terms do not fit.
    pub fn checked_add(self, rhs: Pitch) -> (sum: Option<Pitch>)
        ensures
            match sum {
                Some(p) => p.is_ratio(
                    self.spec_numer() * rhs.spec_denom() + rhs.spec_numer() * self.spec_denom(),
                    self.spec_denom() * rhs.spec_denom(),
                ),
                None => !representable(
                    self.spec_numer() * rhs.spec_denom() + rhs.spec_numer() * self.spec_denom(),
                    self.spec_denom() * rhs.spec_denom(),
                ),
            },
    {
        proof {
            use_type_invariant(self);
            use_type_invariant(rhs);
        }
        let (a, b) = (self.numer as i64, self.denom as i64);
        let (c, d) = (rhs.numer as i64, rhs.denom as i64);
        assert(-0x8000_0000 * 0x7fff_ffff <= a * d <= 0x8000_0000 * 0x7fff_ffff && -0x8000_0000
            * 0x7fff_ffff <= c * b <= 0x8000_0000 * 0x7fff_ffff && 0 < b * d <= 0x7fff_ffff
            * 0x7fff_ffff) by (nonlinear_arith)
            requires
                -0x8000_0000 <= a <= 0x7fff_ffff,
                -0x8000_0000 <= c <= 0x7fff_ffff,
                0 < b <= 0x7fff_ffff,
                0 < d <= 0x7fff_ffff,
        ;
        Self::reduced(a * d + c * b, b * d)
    }

    /// The difference of two pitches, or `None` where the difference is no
    /// pitch because its lowest terms do not fit.
    pub fn checked_sub(self, rhs: Pitch) -> (difference: Option<Pitch>)
        ensures
            match difference {
                Some(p) => p.is_ratio(
                    self.spec_numer() * rhs.spec_denom() - rhs.spec_numer() * self.spec_denom(),
                    self.spec_denom() * rhs.spec_denom(),
                ),
                None => !representable(
                    self.spec_numer() * rhs.spec_denom() - rhs.spec_numer() * self.spec_denom(),
                    self.spec_denom() * rhs.spec_denom(),
                ),
            },
    {
        proof {
            use_type_invariant(self);
            use_type_invariant(rhs);
        }
        let (a, b) = (self.numer as i64, self.denom as i64);
        let (c, d) = (rhs.numer as i64, rhs.denom as i64);
        assert(-0x8000_0000 * 0x7fff_ffff <= a * d <= 0x8000_0000 * 0x7fff_ffff && -0x8000_0000
            * 0x7fff_ffff <= c * b <= 0x8000_0000 * 0x7fff_ffff && 0 < b * d <= 0x7fff_ffff
            * 0x7fff_ffff) by (nonlinear_arith)
            requires
                -0x8000_0000 <= a <= 0x7fff_ffff,
                -0x8000_0000 <= c <= 0x7fff_ffff,
                0 < b <= 0x7fff_ffff,
                0 < d <= 0x7fff_ffff,
        ;
        Self::reduced(a * d - c * b, b * d)
    }

    /// The pitch as far below concert A as this one is above it, or `None`
    /// where that is no pitch.
    pub fn checked_neg(self) -> (negated: Option<Pitch>)
        ensures
            match negated {
                Some(p) => p.is_ratio(-self.spec_numer(), self.spec_denom()),
                None => !representable(-self.spec_numer(), self.spec_denom()),
            },
    {
        proof {
            use_type_invariant(self);
        }
        Self::reduced(-(self.numer as i64), self.denom as i64)
    }

    /// The sum of two pitches is a pitch.
    pub open spec fn sum_fits(self, rhs: Pitch) -> bool {
        representable(
            self.spec_numer() * rhs.spec_denom() + rhs.spec_numer() * self.spec_denom(),
            self.spec_denom() * rhs.spec_denom(),
        )
    }

    /// The sum of two pitches, where it is a pitch.
    pub open spec fn sum(self, rhs: Pitch) -> Pitch {
        pitch_of(
            self.spec_numer() * rhs.spec_denom() + rhs.spec_numer() * self.spec_denom(),
            self.spec_denom() * rhs.spec_denom(),
        )
    }

    /// The difference of two pitches is a pitch.
    pub open spec fn difference_fits(self, rhs: Pitch) -> bool {
        representable(
            self.spec_numer() * rhs.spec_denom() - rhs.spec_numer() * self.spec_denom(),
            self.spec_denom() * rhs.spec_denom(),
        )
    }

    /// The difference of two pitches, where it is a pitch.
    pub open spec fn difference(self, rhs: Pitch) -> Pitch {
        pitch_of(
            self.spec_numer() * rhs.spec_denom() - rhs.spec_numer() * self.spec_denom(),
            self.spec_denom() * rhs.spec_denom(),
        )
    }

    /// This pitch is below `other`.
    pub open spec fn spec_lt(self, other: Pitch) -> bool {
        self.spec_numer() * other.spec_denom() < other.spec_numer() * self.spec_denom()
    }

    /// Whether this pitch is below `other`.
    pub fn lt(&self, other: &Pitch) -> (below: bool)
        ensures
            below == self.spec_lt(*other),
    {
        proof {
            use_type_invariant(self);
            use_type_invariant(other);
        }
        let (a, b) = (self.numer as i64, self.denom as i64);
        let (c, d) = (other.numer as i64, other.denom as i64);
        assert(-0x8000_0000 * 0x7fff_ffff <= a * d <= 0x8000_0000 * 0x7fff_ffff && -0x8000_0000
            * 0x7fff_ffff <= c * b <= 0x8000_0000 * 0x7fff_ffff) by (nonlinear_arith)
            requires
                -0x8000_0000 <= a <= 0x7fff_ffff,
                -0x8000_0000 <= c <= 0x7fff_ffff,
                0 < b <= 0x7fff_ffff,
                0 < d <= 0x7fff_ffff,
        ;
        a * d < c * b
    }

    /// Whether this pitch is not above `other`.
    pub fn le(&self, other: &Pitch) -> (not_above: bool)
        ensures
            not_above == !other.spec_lt(*self),
    {
        !other.lt(self)
    }

    /// Numerator of the fraction in lowest terms.
    pub fn numer(&self) -> (n: i32)
        ensures
            n == self.spec_numer(),
    {
        self.numer
    }

    /// Denominator of the fraction in lowest terms.
    pub fn denom(&self) -> (d: i32)
        ensures
            d == self.spec_denom(),
            d > 0,
    {
        proof {
            use_type_invariant(self);
        }
        self.denom
    }

    /// The MIDI key nearest to the pitch; a pitch below key 0 gives key 0.
    pub open spec fn spec_midi_key(self) -> int {
        let key = nearest_key(self.spec_numer(), self.spec_denom());
        if key < 0 {
            0
        } else if key > u32::MAX {
            u32::MAX as int
        } else {
            key
        }
    }

    /// The pitch-bend value that carries what the pitch is off its nearest
    /// key: 8192 means no bend, and 8192 more or less means
    /// `pitch_bend_range` semitones up or down. A fraction of a step is
    /// dropped.
    pub open spec fn spec_midi_bend(self, pitch_bend_range: int) -> int {
        let semitones = 12 * self.spec_numer() + 69 * self.spec_denom();
        let off = semitones - nearest_key(self.spec_numer(), self.spec_denom()) * self.spec_denom();
        (off * 8192 + 8192 * self.spec_denom() * pitch_bend_range) / (self.spec_denom()
            * pitch_bend_range)
    }

    /// The MIDI key and the pitch-bend value that together sound the pitch,
    /// for a synthesizer whose full bend is `pitch_bend_range` semitones.
    pub fn midi_pitch(&self, pitch_bend_range: u32) -> (r: (u32, u32))
        requires
            pitch_bend_range > 0,
        ensures
            r.0 == self.spec_midi_key(),
            r.1 == self.spec_midi_bend(pitch_bend_range as int),
            4096 <= r.1 <= 12288,
    {
        proof {
            use_type_invariant(self);
        }
        let denom: i128 = self.denom as i128;
        let semitones: i128 = 12 * (self.numer as i128) + 69 * denom;
        let nearest: i128 = round_half_away_exec(semitones, denom);
        assert(nearest == nearest_key(self.numer as int, self.denom as int));
        assert(-denom <= 2 * (semitones - nearest * denom) <= denom && -0x1_0000_0000_0000
            <= nearest <= 0x1_0000_0000_0000) by (nonlinear_arith)
            requires
                nearest == round_half_away(semitones as int, denom as int),
                0 < denom < 0x8000_0000,
                -0x1_0000_0000_00 <= semitones <= 0x1_0000_0000_00,
        ;
        let key: u32 = if nearest < 0 {
            0
        } else if nearest > 0xffff_ffff {
            0xffff_ffff
        } else {
            nearest as u32
        };
        let range: i128 = pitch_bend_range as i128;
        assert(nearest * denom <= 0x1_0000_0000_0000 * 0x8000_0000 && nearest * denom
            >= -0x1_0000_0000_0000 * 0x8000_0000) by (nonlinear_arith)
            requires
                -0x1_0000_0000_0000 <= nearest <= 0x1_0000_0000_0000,
                0 < denom < 0x8000_0000,
        ;
        let off: i128 = semitones - nearest * denom;
        assert(0 < denom * range <= 0x8000_0000 * 0x1_0000_0000) by (nonlinear_arith)
            requires
                0 < denom < 0x8000_0000,
                0 < range < 0x1_0000_0000,
        ;
        let step: i128 = denom * range;
        assert(step >= denom) by (nonlinear_arith)
            requires
                step == denom * range,
                denom > 0,
                range >= 1,
        ;
        let scaled: i128 = off * 8192 + 8192 * step;
        assert(scaled >= 0);
        assert(8192 * denom * range == 8192 * step) by (nonlinear_arith)
            requires
                step == denom * range,
        ;
        let bend: i128 = scaled / step;
        assert(4096 <= bend <= 12288) by (nonlinear_arith)
            requires
                bend == (off * 8192 + 8192 * step) / (step as int),
                step == denom * range,
                step >= denom,
                -denom <= 2 * off <= denom,
                denom > 0,
                range >= 1,
        ;
        (key, bend as u32)
    }
}

/// Two pitches of one value are one pitch.
pub proof fn lemma_pitch_unique(p: Pitch, q: Pitch, num: int, den: int)
    requires
        den != 0,
        p.is_ratio(num, den),
        q.is_ratio(num, den),
    ensures
        p == q,
{
    assert(p.spec_numer() * q.spec_denom() == q.spec_numer() * p.spec_denom()) by (nonlinear_arith)
        requires
            p.spec_numer() * den == num * p.spec_denom(),
            q.spec_numer() * den == num * q.spec_denom(),
            den != 0,
    ;
    lemma_lowest_terms_unique(p.spec_numer(), p.spec_denom(), q.spec_numer(), q.spec_denom());
}

/// The pitch that is `num / den` octaves, where there is one.
pub open spec fn pitch_of(num: int, den: int) -> Pitch {
    choose|p: Pitch| p.is_ratio(num, den)
}

impl core::ops::Add for Pitch {
    type Output = Pitch;

    fn add(self, rhs: Pitch) -> (sum: Pitch) {
        proof {
            use_type_invariant(self);
            use_type_invariant(rhs);
        }
        match self.checked_add(rhs) {
            Some(p) => {
                proof {
                    let num = self.spec_numer() * rhs.spec_denom() + rhs.spec_numer()
                        * self.spec_denom();
                    let den = self.spec_denom() * rhs.spec_denom();
                    assert(den != 0) by (nonlinear_arith)
                        requires
                            den == self.spec_denom() * rhs.spec_denom(),
                            self.spec_denom() > 0,
                            rhs.spec_denom() > 0,
                    ;
                    lemma_pitch_unique(p, pitch_of(num, den), num, den);
                }
                p
            },
            None => self,
        }
    }
}

impl vstd::std_specs::ops::AddSpecImpl for Pitch {
    open spec fn obeys_add_spec() -> bool {
        true
    }

    open spec fn add_req(self, rhs: Pitch) -> bool {
        self.sum_fits(rhs)
    }

    open spec fn add_spec(self, rhs: Pitch) -> Pitch {
        self.sum(rhs)
    }
}

impl core::ops::Sub for Pitch {
    type Output = Pitch;

    fn sub(self, rhs: Pitch) -> (difference: Pitch) {
        proof {
            use_type_invariant(self);
            use_type_invariant(rhs);
        }
        match self.checked_sub(rhs) {
            Some(p) => {
                proof {
                    let num = self.spec_numer() * rhs.spec_denom() - rhs.spec_numer()
                        * self.spec_denom();
                    let den = self.spec_denom() * rhs.spec_denom();
                    assert(den != 0) by (nonlinear_arith)
                        requires
                            den == self.spec_denom() * rhs.spec_denom(),
                            self.spec_denom() > 0,
                            rhs.spec_denom() > 0,
                    ;
                    lemma_pitch_unique(p, pitch_of(num, den), num, den);
                }
                p
            },
            None => self,
        }
    }
}

impl vstd::std_specs::ops::SubSpecImpl for Pitch {
    open spec fn obeys_sub_spec() -> bool {
        true
    }

    open spec fn sub_req(self, rhs: Pitch) -> bool {
        self.difference_fits(rhs)
    }

    open spec fn sub_spec(self, rhs: Pitch) -> Pitch {
        self.difference(rhs)
    }
}

impl core::ops::Neg for Pitch {
    type Output = Pitch;

    fn neg(self) -> (negated: Pitch) {
        proof {
            use_type_invariant(self);
        }
        match self.checked_neg() {
            Some(p) => {
                proof {
                    lemma_pitch_unique(
                        p,
                        pitch_of(-self.spec_numer(), self.spec_denom()),
                        -self.spec_numer(),
                        self.spec_denom(),
                    );
                }
                p
            },
            None => self,
        }
    }
}

impl vstd::std_specs::ops::NegSpecImpl for Pitch {
    open spec fn obeys_neg_spec() -> bool {
        true
    }

    open spec fn neg_req(self) -> bool {
        representable(-self.spec_numer(), self.spec_denom())
    }

    open spec fn neg_spec(self) -> Pitch {
        pitch_of(-self.spec_numer(), self.spec_denom())
    }
}

} // verus!
