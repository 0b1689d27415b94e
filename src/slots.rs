//! A position counter modulo a width chosen at run time.
use strength_reduce::StrengthReducedU16;
use vstd::prelude::*;

verus! {

#[verifier::external_type_specification]
#[verifier::external_body]
pub struct ExStrengthReducedU16(StrengthReducedU16);

/// The divisor that a strength-reduced divisor was built from.
pub uninterp spec fn reduced_divisor(r: StrengthReducedU16) -> u16;

/// Relies on `StrengthReducedU16::new`: keeps the divisor it is given (it
/// panics on zero).
#[verifier::external_body]
fn reduce(d: u16) -> (r: StrengthReducedU16)
    requires
        d > 0,
    ensures
        reduced_divisor(r) == d,
{
    StrengthReducedU16::new(d)
}

/// Relies on `StrengthReducedU16::get`: returns the divisor it was built from.
#[verifier::external_body]
fn reduced_get(r: &StrengthReducedU16) -> (d: u16)
    ensures
        d == reduced_divisor(*r),
{
    r.get()
}

/// Relies on `Rem<StrengthReducedU16> for u16`: the remainder of `a` divided by
/// the divisor, computed with a multiplication and shifts.
#[verifier::external_body]
fn reduced_rem(a: u16, r: &StrengthReducedU16) -> (m: u16)
    requires
        reduced_divisor(*r) > 0,
    ensures
        m == a % reduced_divisor(*r),
{
    a % *r
}

/// A counter over `0..width` that wraps around, with `width` fixed at creation.
pub struct SlotCounter {
    modulus: StrengthReducedU16,
    pos: u16,
}

impl SlotCounter {
    /// The width the counter wraps at.
    pub closed spec fn modulus(&self) -> nat {
        reduced_divisor(self.modulus) as nat
    }

    /// The slot that the next item will be given.
    pub closed spec fn position(&self) -> nat {
        self.pos as nat
    }

    pub open spec fn wf(&self) -> bool {
        0 < self.modulus() && self.position() < self.modulus()
    }

    /// A counter at slot 0 that wraps at `width`.
    pub fn new(width: u16) -> (r: Self)
        requires
            width > 0,
        ensures
            r.wf(),
            r.modulus() == width,
            r.position() == 0,
    {
        SlotCounter { modulus: reduce(width), pos: 0 }
    }

    pub fn width(&self) -> (r: u16)
        ensures
            r == self.modulus(),
    {
        reduced_get(&self.modulus)
    }

    pub fn current(&self) -> (r: u16)
        ensures
            r == self.position(),
    {
        self.pos
    }

    /// Moves to the next slot, wrapping from `width - 1` to 0.
    pub fn advance(&mut self)
        requires
            old(self).wf(),
        ensures
            final(self).wf(),
            final(self).modulus() == old(self).modulus(),
            final(self).position() == (old(self).position() + 1) % old(self).modulus(),
    {
        let next = self.pos + 1;
        self.pos = reduced_rem(next, &self.modulus);
    }

    /// How far `slot` lies from the counter, as `(width - pos + slot) % width`,
    /// computed without overflow for every width.
    pub fn distance(&self, slot: u16) -> (r: u16)
        requires
            self.wf(),
            slot < self.modulus(),
        ensures
            r == (self.modulus() - self.position() + slot) % (self.modulus() as int),
    {
        let w = reduced_get(&self.modulus);
        let p = self.pos;
        if slot >= p {
            proof {
                vstd::arithmetic::div_mod::lemma_mod_add_multiples_vanish((slot - p) as int, w as int);
                vstd::arithmetic::div_mod::lemma_small_mod((slot - p) as nat, w as nat);
            }
            slot - p
        } else {
            proof {
                vstd::arithmetic::div_mod::lemma_small_mod((w - p + slot) as nat, w as nat);
            }
            slot + (w - p)
        }
    }
}

} // verus!
