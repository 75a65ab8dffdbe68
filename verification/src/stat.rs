//! The per-family statistics record and the fairness-score rule: one trip
//! leg of `families` participants costs `total_families` fairness units in
//! all; the driver is credited the share carried for the others and every
//! passenger is debited one share, in integer arithmetic.

use vstd::prelude::*;

verus! {

/// Running statistics of one family: trips ridden out, trips ridden back,
/// trips driven, and the signed fairness score.
#[derive(Clone, Copy, PartialEq, Eq, Structural, Debug)]
pub struct Stat {
    pub going: u32,
    pub back: u32,
    pub drive: u32,
    pub score: i32,
}

/// The mathematical shadow of `Stat`: the same four numbers, unbounded.
pub ghost struct StatModel {
    pub going: int,
    pub back: int,
    pub drive: int,
    pub score: int,
}

impl View for Stat {
    type V = StatModel;

    open spec fn view(&self) -> StatModel {
        StatModel {
            going: self.going as int,
            back: self.back as int,
            drive: self.drive as int,
            score: self.score as int,
        }
    }
}

/// The record a family starts from: everything zero.
pub open spec fn stat_zero() -> StatModel {
    StatModel { going: 0, back: 0, drive: 0, score: 0 }
}

impl Default for Stat {
    fn default() -> (r: Stat)
        ensures
            r@ == stat_zero(),
    {
        Stat { going: 0, back: 0, drive: 0, score: 0 }
    }
}

/// The score change of one family for one leg: the driver of a group of
/// `g` families earns `k * (g - 1) / g`, a passenger pays `k / g`, and a
/// leg with no participants changes nothing.
pub open spec fn leg_delta(name: Seq<u8>, driver: Seq<u8>, k: int, g: int) -> int {
    if g <= 0 {
        0
    } else if name == driver {
        k * (g - 1) / g
    } else {
        -(k / g)
    }
}

/// The magnitude of one leg's score change never exceeds the fairness
/// constant `k` itself.
pub proof fn lemma_leg_delta_bound(name: Seq<u8>, driver: Seq<u8>, k: int, g: int)
    requires
        k >= 0,
    ensures
        -k <= leg_delta(name, driver, k, g) <= k,
{
    if g >= 1 {
        assert(k * (g - 1) <= k * g) by (nonlinear_arith)
            requires
                k >= 0 && g >= 1,
        ;
        assert(0 <= k * (g - 1) / g) by (nonlinear_arith)
            requires
                k >= 0 && g >= 1,
        ;
        assert(k * g / g == k) by (nonlinear_arith)
            requires
                g >= 1,
        ;
        assert(k * (g - 1) / g <= k * g / g) by (nonlinear_arith)
            requires
                g >= 1 && k * (g - 1) <= k * g,
        ;
        assert(0 <= k / g <= k) by (nonlinear_arith)
            requires
                k >= 0 && g >= 1,
        ;
    }
}

/// Applies the score rule for one leg to one family's record: credits the
/// family when it is the driver of the leg, debits it otherwise; the
/// counts are untouched.
pub fn update_score(
    family_stat: &mut Stat,
    family_name: &Vec<u8>,
    driver_name: &Vec<u8>,
    total_families: u32,
    families: u32,
)
    requires
        families >= 1,
        total_families <= i32::MAX,
        total_families * (families - 1) <= i32::MAX,
        i32::MIN <= old(family_stat)@.score + leg_delta(
            family_name@,
            driver_name@,
            total_families as int,
            families as int,
        ),
        old(family_stat)@.score + leg_delta(
            family_name@,
            driver_name@,
            total_families as int,
            families as int,
        ) <= i32::MAX,
    ensures
        final(family_stat)@.score == old(family_stat)@.score + leg_delta(
            family_name@,
            driver_name@,
            total_families as int,
            families as int,
        ),
        final(family_stat)@.going == old(family_stat)@.going,
        final(family_stat)@.back == old(family_stat)@.back,
        final(family_stat)@.drive == old(family_stat)@.drive,
{
    if crate::text::bytes_eq(family_name, driver_name) {
        let credit = total_families * (families - 1) / families;
        family_stat.score = family_stat.score + credit as i32;
    } else {
        let debit = total_families / families;
        proof {
            lemma_leg_delta_bound(
                family_name@,
                driver_name@,
                total_families as int,
                families as int,
            );
        }
        family_stat.score = family_stat.score - debit as i32;
    }
}

} // verus!
