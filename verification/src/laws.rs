//! The laws the aggregation engine obeys, stated over the fold model and
//! proved once and for all: counts are exactly the occurrence totals of
//! the input, counts never shrink as more rows are folded in, a leg whose
//! group size divides the fairness constant settles to a zero score sum,
//! and skipped or empty fields leave the mapping alone.

use vstd::prelude::*;

use crate::stat::{StatModel, leg_delta};
use crate::stats_map::stat_or_zero;
use crate::rows::{
    back_toks, driver_toks, fold_rows, going_score_delta, going_toks, lemma_apply_row_at, row_cols,
    row_is_data, row_update,
};
use crate::text::{occ, occ_canon, trim_spec};

verus! {

/// How often `fam` occurs in the going fields of the data rows among lines
/// 2..n.
pub open spec fn total_going_occ(rows: Seq<Seq<u8>>, n: int, fam: Seq<u8>) -> int
    decreases n,
{
    if n <= 2 {
        0
    } else {
        total_going_occ(rows, n - 1, fam) + if row_is_data(rows[n - 1]) {
            occ(going_toks(row_cols(rows[n - 1])), fam) as int
        } else {
            0
        }
    }
}

/// How often `fam` occurs in the returning fields of the data rows among
/// lines 2..n.
pub open spec fn total_back_occ(rows: Seq<Seq<u8>>, n: int, fam: Seq<u8>) -> int
    decreases n,
{
    if n <= 2 {
        0
    } else {
        total_back_occ(rows, n - 1, fam) + if row_is_data(rows[n - 1]) {
            occ(back_toks(row_cols(rows[n - 1])), fam) as int
        } else {
            0
        }
    }
}

/// How often a driver token of the data rows among lines 2..n has `fam` as
/// its canonical family.
pub open spec fn total_drive_occ(rows: Seq<Seq<u8>>, n: int, fam: Seq<u8>) -> int
    decreases n,
{
    if n <= 2 {
        0
    } else {
        total_drive_occ(rows, n - 1, fam) + if row_is_data(rows[n - 1]) {
            occ_canon(driver_toks(row_cols(rows[n - 1])), fam) as int
        } else {
            0
        }
    }
}

/// Counting is exact: after folding lines 2..n in, each family's three
/// counters equal the number of times its name occurs in the matching
/// field over those rows (a family never seen stands at zero).
pub proof fn lemma_counts_are_occurrence_totals(rows: Seq<Seq<u8>>, n: int, fam: Seq<u8>)
    ensures
        stat_or_zero(fold_rows(rows, n), fam).going == total_going_occ(rows, n, fam),
        stat_or_zero(fold_rows(rows, n), fam).back == total_back_occ(rows, n, fam),
        stat_or_zero(fold_rows(rows, n), fam).drive == total_drive_occ(rows, n, fam),
    decreases n,
{
    if n <= 2 {
    } else {
        lemma_counts_are_occurrence_totals(rows, n - 1, fam);
        if row_is_data(rows[n - 1]) {
            lemma_apply_row_at(fold_rows(rows, n - 1), row_cols(rows[n - 1]), fam);
        }
    }
}

/// Counts are monotonic: folding more rows in never lowers a counter, and
/// a family once present stays present.
pub proof fn lemma_counts_monotonic(rows: Seq<Seq<u8>>, a: int, b: int, fam: Seq<u8>)
    requires
        a <= b,
    ensures
        fold_rows(rows, a).contains_key(fam) ==> fold_rows(rows, b).contains_key(fam),
        stat_or_zero(fold_rows(rows, a), fam).going <= stat_or_zero(fold_rows(rows, b), fam).going,
        stat_or_zero(fold_rows(rows, a), fam).back <= stat_or_zero(fold_rows(rows, b), fam).back,
        stat_or_zero(fold_rows(rows, a), fam).drive <= stat_or_zero(fold_rows(rows, b), fam).drive,
    decreases b - a,
{
    if a < b {
        lemma_counts_monotonic(rows, a, b - 1, fam);
        if b > 2 && row_is_data(rows[b - 1]) {
            lemma_apply_row_at(fold_rows(rows, b - 1), row_cols(rows[b - 1]), fam);
        }
    }
}


/// In how many data rows among lines 2..n the family occurs in the going
/// field.
pub open spec fn rows_with_going(rows: Seq<Seq<u8>>, n: int, fam: Seq<u8>) -> int
    decreases n,
{
    if n <= 2 {
        0
    } else {
        rows_with_going(rows, n - 1, fam) + if row_is_data(rows[n - 1]) && occ(
            going_toks(row_cols(rows[n - 1])),
            fam,
        ) > 0 {
            1int
        } else {
            0int
        }
    }
}

/// In how many data rows among lines 2..n the family occurs in the
/// returning field.
pub open spec fn rows_with_back(rows: Seq<Seq<u8>>, n: int, fam: Seq<u8>) -> int
    decreases n,
{
    if n <= 2 {
        0
    } else {
        rows_with_back(rows, n - 1, fam) + if row_is_data(rows[n - 1]) && occ(
            back_toks(row_cols(rows[n - 1])),
            fam,
        ) > 0 {
            1int
        } else {
            0int
        }
    }
}

/// In how many data rows among lines 2..n a driver token resolves to the
/// family.
pub open spec fn rows_with_drive(rows: Seq<Seq<u8>>, n: int, fam: Seq<u8>) -> int
    decreases n,
{
    if n <= 2 {
        0
    } else {
        rows_with_drive(rows, n - 1, fam) + if row_is_data(rows[n - 1]) && occ_canon(
            driver_toks(row_cols(rows[n - 1])),
            fam,
        ) > 0 {
            1int
        } else {
            0int
        }
    }
}

/// Counting, row form: when no data row names the family twice in the same
/// field, each counter equals the number of rows whose matching field
/// names the family (a field with a repeated name adds one count per
/// occurrence instead, which the occurrence-total law above covers).
pub proof fn lemma_counts_are_row_counts(rows: Seq<Seq<u8>>, n: int, fam: Seq<u8>)
    requires
        forall|j: int|
            2 <= j < n && row_is_data(#[trigger] rows[j]) ==> occ(going_toks(row_cols(rows[j])), fam)
                <= 1 && occ(back_toks(row_cols(rows[j])), fam) <= 1 && occ_canon(
                driver_toks(row_cols(rows[j])),
                fam,
            ) <= 1,
    ensures
        stat_or_zero(fold_rows(rows, n), fam).going == rows_with_going(rows, n, fam),
        stat_or_zero(fold_rows(rows, n), fam).back == rows_with_back(rows, n, fam),
        stat_or_zero(fold_rows(rows, n), fam).drive == rows_with_drive(rows, n, fam),
    decreases n,
{
    if n <= 2 {
    } else {
        lemma_counts_are_row_counts(rows, n - 1, fam);
        if row_is_data(rows[n - 1]) {
            lemma_apply_row_at(fold_rows(rows, n - 1), row_cols(rows[n - 1]), fam);
        }
    }
}

/// The score changes one leg deals out, summed over its name tokens.
pub open spec fn leg_delta_sum(toks: Seq<Seq<u8>>, driver: Seq<u8>, k: int, g: int) -> int
    decreases toks.len(),
{
    if toks.len() == 0 {
        0
    } else {
        leg_delta_sum(toks.drop_last(), driver, k, g) + leg_delta(toks.last(), driver, k, g)
    }
}

proof fn lemma_leg_delta_sum_split(toks: Seq<Seq<u8>>, driver: Seq<u8>, k: int, g: int)
    requires
        g >= 1,
    ensures
        leg_delta_sum(toks, driver, k, g) == (occ(toks, driver) as int) * (k * (g - 1) / g) + (
        toks.len() as int - occ(toks, driver) as int) * (-(k / g)),
    decreases toks.len(),
{
    crate::text::lemma_occ_le_len(toks, driver);
    if toks.len() == 0 {
        assert(leg_delta_sum(toks, driver, k, g) == 0);
        assert(occ(toks, driver) == 0);
        assert((occ(toks, driver) as int) * (k * (g - 1) / g) == 0);
        assert((toks.len() as int - occ(toks, driver) as int) * (-(k / g)) == 0);
    } else {
        lemma_leg_delta_sum_split(toks.drop_last(), driver, k, g);
        crate::text::lemma_occ_le_len(toks.drop_last(), driver);
        let c = occ(toks.drop_last(), driver) as int;
        let l = toks.drop_last().len() as int;
        let credit = k * (g - 1) / g;
        let debit = -(k / g);
        assert(leg_delta_sum(toks, driver, k, g) == c * credit + (l - c) * debit + leg_delta(
            toks.last(),
            driver,
            k,
            g,
        ));
        assert(toks.len() as int == l + 1);
        if toks.last() == driver {
            assert(occ(toks, driver) as int == c + 1);
            assert(leg_delta(toks.last(), driver, k, g) == credit);
            assert((c + 1) * credit == c * credit + credit) by (nonlinear_arith);
            assert(toks.len() as int - occ(toks, driver) as int == l - c);
            assert((toks.len() as int - occ(toks, driver) as int) * debit == (l - c) * debit);
            assert(leg_delta_sum(toks, driver, k, g) == (c + 1) * credit + (l - c) * debit);
        } else {
            assert(occ(toks, driver) as int == c);
            assert(leg_delta(toks.last(), driver, k, g) == debit);
            assert((l + 1 - c) * debit == (l - c) * debit + debit) by (nonlinear_arith);
            assert(toks.len() as int - occ(toks, driver) as int == l + 1 - c);
            assert((toks.len() as int - occ(toks, driver) as int) * debit == (l + 1 - c) * debit);
            assert(leg_delta_sum(toks, driver, k, g) == c * credit + (l + 1 - c) * debit);
        }
    }
}

/// Zero-sum of one leg: when the group's size divides the fairness
/// constant and the driver rides in the group exactly once, the driver's
/// credit cancels the passengers' debits to the unit.
pub proof fn lemma_leg_zero_sum(toks: Seq<Seq<u8>>, driver: Seq<u8>, k: int)
    requires
        toks.len() >= 1,
        occ(toks, driver) == 1,
        k >= 0,
        k % (toks.len() as int) == 0,
    ensures
        leg_delta_sum(toks, driver, k, toks.len() as int) == 0,
{
    let g = toks.len() as int;
    lemma_leg_delta_sum_split(toks, driver, k, g);
    assert(leg_delta_sum(toks, driver, k, g) == 1int * (k * (g - 1) / g) + (g - 1) * (-(k / g)));
    vstd::arithmetic::div_mod::lemma_fundamental_div_mod(k, g);
    let q = k / g;
    assert(k == g * q);
    assert(k * (g - 1) == g * (q * (g - 1))) by (nonlinear_arith)
        requires
            k == g * q,
    ;
    vstd::arithmetic::div_mod::lemma_div_multiples_vanish(q * (g - 1), g);
    assert(k * (g - 1) / g == q * (g - 1));
    assert(1int * (q * (g - 1)) + (g - 1) * (-q) == 0) by (nonlinear_arith);
}

/// A line with fewer than five pipe-split segments changes nothing when
/// folded in: the column filter is silent.
pub proof fn lemma_skipped_row_no_effect(rows: Seq<Seq<u8>>, n: int)
    requires
        n > 2,
        !row_is_data(rows[n - 1]),
    ensures
        fold_rows(rows, n) == fold_rows(rows, n - 1),
{
}

/// A blank going field contributes no going count and no going-leg score
/// change for any family; the returning leg and the drive count of the
/// same row are its only effects.
pub proof fn lemma_empty_going_leg(cols: Seq<Seq<u8>>, fam: Seq<u8>, s: StatModel)
    requires
        trim_spec(cols[2]).len() == 0,
    ensures
        occ(going_toks(cols), fam) == 0,
        going_score_delta(cols, fam) == 0,
        row_update(s, cols, fam).going == s.going,
{
    assert(going_toks(cols) =~= Seq::<Seq<u8>>::empty());
    assert(occ(going_toks(cols), fam) == 0);
}

} // verus!
