//! Temporal smoothing: an exponential moving average per channel, applied after colour
//! correction.
//!
//! The blend factor comes from a time constant, so that the strip settles in the same time at
//! any frame rate.

use vstd::prelude::*;

use crate::float;
use crate::float::facts;
use crate::float::{F32, ONE};

use super::color;
use super::LedColor;

verus! {

/// The pattern of 1000.0.
pub const THOUSAND: u32 = 0x447A_0000;

/// The exponent of the decay over `dt` seconds with the time constant `tau`: `-dt / tau`.
pub open spec fn decay_exponent_of(dt: F32, tau: F32) -> F32 {
    float::quotient(float::negation(dt), tau)
}

/// The blend factor of a step whose decay is `decay`: what has not decayed, from zero to one;
/// one without a positive time constant.
pub open spec fn alpha_of(tau: F32, decay: F32) -> F32 {
    if float::less_eq(tau, F32 { bits: 0 }) {
        F32 { bits: ONE }
    } else {
        color::unit_clamped(float::difference(F32 { bits: ONE }, decay))
    }
}

/// A time constant in seconds.
pub open spec fn tau_of(time_constant_ms: F32) -> F32 {
    float::quotient(time_constant_ms, F32 { bits: THOUSAND })
}

/// The time constant in seconds.
pub fn tau_secs(time_constant_ms: F32) -> (tau: F32)
    ensures
        tau == tau_of(time_constant_ms),
{
    time_constant_ms.over(F32 { bits: THOUSAND })
}

/// The exponent of the decay over `dt` seconds with the time constant `tau`.
pub fn decay_exponent(dt: F32, tau: F32) -> (x: F32)
    ensures
        x == decay_exponent_of(dt, tau),
{
    dt.negated().over(tau)
}

/// The blend factor of a step with the time constant `tau`, over which `decay` is the
/// exponential of [`decay_exponent`].
pub fn alpha_from_time_constant(tau: F32, decay: F32) -> (a: F32)
    ensures
        a == alpha_of(tau, decay),
{
    let zero: F32 = F32 { bits: 0 };
    let one: F32 = F32 { bits: ONE };
    if tau.le(zero) {
        return one;
    }
    one.minus(decay).clamp(zero, one)
}

/// One channel between its last value and the current one.
pub open spec fn blended_channel(last: u8, cur: u8, a: F32) -> u8 {
    color::channel(
        float::sum(
            float::product(color::number(last), float::difference(F32 { bits: ONE }, a)),
            float::product(color::number(cur), a),
        ),
    )
}

/// A colour between its last value and the current one.
pub open spec fn blended(last: LedColor, cur: LedColor, alpha: F32) -> LedColor {
    let a = color::unit_clamped(alpha);
    LedColor {
        r: blended_channel(last.r, cur.r, a),
        g: blended_channel(last.g, cur.g, a),
        b: blended_channel(last.b, cur.b, a),
    }
}

/// What a step makes of the current colours, given the last ones: a blend, or the current ones
/// as they are where their number has changed.
pub open spec fn smoothed(last: Seq<LedColor>, cur: Seq<LedColor>, alpha: F32) -> Seq<LedColor> {
    if last.len() != cur.len() {
        cur
    } else {
        Seq::new(cur.len(), |i: int| blended(last[i], cur[i], alpha))
    }
}

/// The colours that were last shown.
#[derive(Clone, Debug)]
pub struct EmaState {
    last: Vec<LedColor>,
}

impl View for EmaState {
    type V = Seq<LedColor>;

    closed spec fn view(&self) -> Seq<LedColor> {
        self.last@
    }
}

impl Default for EmaState {
    fn default() -> (s: EmaState)
        ensures
            s@ == Seq::<LedColor>::empty(),
    {
        EmaState { last: Vec::new() }
    }
}

fn blend_channel(last: u8, cur: u8, a: F32, one_minus: F32) -> (c: u8)
    requires
        one_minus == float::difference(F32 { bits: ONE }, a),
    ensures
        c == blended_channel(last, cur, a),
{
    F32::from_u32(last as u32).times(one_minus).plus(
        F32::from_u32(cur as u32).times(a),
    ).rounded_at_most(255) as u8
}

impl EmaState {
    /// Nothing was shown yet.
    pub fn new() -> (s: EmaState)
        ensures
            s@ == Seq::<LedColor>::empty(),
    {
        EmaState::default()
    }

    /// Blends the current colours with the last ones, in place, and remembers the result.
    ///
    /// On the first step, and where the number of LEDs has changed, the colours are taken as
    /// they are.
    pub fn step(&mut self, current: &mut Vec<LedColor>, alpha: F32)
        ensures
            final(current)@ == smoothed(old(self)@, old(current)@, alpha),
            final(self)@ == final(current)@,
    {
        let ghost before = current@;
        let ghost shown = self@;
        if self.last.len() != current.len() {
            self.last.clear();
            let mut i: usize = 0;
            while i < current.len()
                invariant
                    i <= current@.len(),
                    self.last@ == current@.take(i as int),
                decreases current@.len() - i,
            {
                self.last.push(current[i]);
                i += 1;
                assert(self.last@ =~= current@.take(i as int));
            }
            assert(current@.take(i as int) =~= current@);
            return;
        }
        let one: F32 = F32 { bits: ONE };
        let a: F32 = alpha.clamp(F32 { bits: 0 }, one);
        let one_minus: F32 = one.minus(a);
        let mut i: usize = 0;
        while i < current.len()
            invariant
                i <= current@.len(),
                current@.len() == before.len(),
                self.last@.len() == before.len(),
                shown.len() == before.len(),
                a == color::unit_clamped(alpha),
                one_minus == float::difference(F32 { bits: ONE }, a),
                forall|j: int|
                    0 <= j < i ==> #[trigger] current@[j] == blended(shown[j], before[j], alpha),
                forall|j: int| 0 <= j < i ==> #[trigger] self.last@[j] == current@[j],
                forall|j: int| i <= j < current@.len() ==> #[trigger] current@[j] == before[j],
                forall|j: int| i <= j < current@.len() ==> #[trigger] self.last@[j] == shown[j],
            decreases current@.len() - i,
        {
            let l: LedColor = self.last[i];
            let c: LedColor = current[i];
            let next: LedColor = LedColor {
                r: blend_channel(l.r, c.r, a, one_minus),
                g: blend_channel(l.g, c.g, a, one_minus),
                b: blend_channel(l.b, c.b, a, one_minus),
            };
            current.set(i, next);
            self.last.set(i, next);
            i += 1;
        }
        assert(current@ =~= smoothed(shown, before, alpha));
        assert(self.last@ =~= current@);
    }
}

/// A blend factor of one takes the current colour, and one of zero keeps the last.
pub proof fn blend_ends(last: LedColor, cur: LedColor)
    ensures
        blended(last, cur, F32 { bits: ONE }) == cur,
        blended(last, cur, F32 { bits: 0 }) == last,
{
    lemma_ends(last.r, cur.r);
    lemma_ends(last.g, cur.g);
    lemma_ends(last.b, cur.b);
    facts::one_is_unit();
    facts::zero_is_zero();
}

proof fn lemma_ends(last: u8, cur: u8)
    ensures
        blended_channel(last, cur, F32 { bits: ONE }) == cur,
        blended_channel(last, cur, F32 { bits: 0 }) == last,
{
    let one = F32 { bits: ONE };
    let zero = F32 { bits: 0 };
    facts::one_is_unit();
    facts::zero_is_zero();
    assert(float::difference(one, one) == zero);
    facts::sum_with_zero(one);
    assert(float::difference(one, zero) == one) by {
        assert(float::negation(zero) == (F32 { bits: float::SIGN }));
    }
    facts::small_integers_are_exact(last as int);
    facts::small_integers_are_exact(cur as int);
    facts::product_with_one(color::number(last));
    facts::product_with_one(color::number(cur));
    facts::product_with_zero(color::number(last));
    facts::product_with_zero(color::number(cur));
    facts::sum_with_zero(color::number(last));
    facts::sum_with_zero(color::number(cur));
    facts::small_integers_round_to_themselves(last as int, 255);
    facts::small_integers_round_to_themselves(cur as int, 255);
}

/// A blend factor of one passes every frame through.
pub proof fn full_blend_is_pass_through(last: Seq<LedColor>, cur: Seq<LedColor>)
    ensures
        smoothed(last, cur, F32 { bits: ONE }) == cur,
{
    if last.len() == cur.len() {
        assert forall|i: int| 0 <= i < cur.len() implies #[trigger] smoothed(
            last,
            cur,
            F32 { bits: ONE },
        )[i] == cur[i] by {
            blend_ends(last[i], cur[i]);
        }
        assert(smoothed(last, cur, F32 { bits: ONE }) =~= cur);
    }
}

} // verus!
