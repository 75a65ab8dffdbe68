//! The row parser and aggregation engine.
//!
//! A data row is `| date | going | returning | driver |`: splitting on `|`
//! must give at least five segments (the first is the text before the
//! leading pipe), or the row is silently skipped. The going, returning and
//! driver fields are trimmed and comma-split into name tokens; driver
//! tokens carry an optional possessive suffix that is stripped to the
//! canonical family name. Every name token bumps the matching counter of
//! its family, and each leg applies the fairness-score rule with the leg's
//! own group size. A row whose driver tokens resolve to more than one
//! family is a hard error that stops the run.

use vstd::prelude::*;

use crate::TOTAL_FAMILIES_LCM;
use crate::stat::{StatModel, leg_delta, lemma_leg_delta_bound, update_score};
use crate::stats_map::{StatMap, stat_or_zero};
use crate::text::{
    canon_spec, canon_token, field_toks, field_tokens, lemma_occ_canon_le_len, lemma_occ_le_len,
    lemma_occ_take_all, lemma_occ_take_step, occ, occ_canon, bytes_eq, split_spec, trim_spec,
    split_bytes, trim_bytes,
};

verus! {

/// The tokens of the going field (column 2 of a pipe-split row).
pub open spec fn going_toks(cols: Seq<Seq<u8>>) -> Seq<Seq<u8>> {
    field_toks(cols[2])
}

/// The tokens of the returning field (column 3).
pub open spec fn back_toks(cols: Seq<Seq<u8>>) -> Seq<Seq<u8>> {
    field_toks(cols[3])
}

/// The tokens of the driver field (column 4).
pub open spec fn driver_toks(cols: Seq<Seq<u8>>) -> Seq<Seq<u8>> {
    field_toks(cols[4])
}

/// The family credited as this row's driver: the canonical name of the
/// first driver token, or the empty name when the driver field is empty
/// (a row without a driver is legal and credits nobody).
pub open spec fn row_driver(cols: Seq<Seq<u8>>) -> Seq<u8> {
    if driver_toks(cols).len() == 0 {
        Seq::empty()
    } else {
        canon_spec(driver_toks(cols)[0])
    }
}

/// Whether the driver field names more than one distinct family: the one
/// fatal condition of the format.
pub open spec fn multi_driver(cols: Seq<Seq<u8>>) -> bool {
    exists|i: int, j: int|
        0 <= i < driver_toks(cols).len() && 0 <= j < driver_toks(cols).len() && canon_spec(
            driver_toks(cols)[i],
        ) != canon_spec(driver_toks(cols)[j])
}

/// The score change one row causes for `fam` through its going leg: one
/// leg-delta per occurrence of the name, with the going group's size.
pub open spec fn going_score_delta(cols: Seq<Seq<u8>>, fam: Seq<u8>) -> int {
    occ(going_toks(cols), fam) * leg_delta(
        fam,
        row_driver(cols),
        TOTAL_FAMILIES_LCM as int,
        going_toks(cols).len() as int,
    )
}

/// The score change one row causes for `fam` through its returning leg.
pub open spec fn back_score_delta(cols: Seq<Seq<u8>>, fam: Seq<u8>) -> int {
    occ(back_toks(cols), fam) * leg_delta(
        fam,
        row_driver(cols),
        TOTAL_FAMILIES_LCM as int,
        back_toks(cols).len() as int,
    )
}

/// Whether the row names `fam` in any of its three name fields.
pub open spec fn row_mentions(cols: Seq<Seq<u8>>, fam: Seq<u8>) -> bool {
    occ(going_toks(cols), fam) > 0 || occ(back_toks(cols), fam) > 0 || occ_canon(
        driver_toks(cols),
        fam,
    ) > 0
}

/// One family's record after one row: every occurrence in a field bumps
/// the matching counter, and both legs apply the score rule.
pub open spec fn row_update(s: StatModel, cols: Seq<Seq<u8>>, fam: Seq<u8>) -> StatModel {
    StatModel {
        going: s.going + occ(going_toks(cols), fam),
        back: s.back + occ(back_toks(cols), fam),
        drive: s.drive + occ_canon(driver_toks(cols), fam),
        score: s.score + going_score_delta(cols, fam) + back_score_delta(cols, fam),
    }
}

/// The aggregate mapping after folding one row in: families the row
/// mentions are created at zero if absent, then updated; all others keep
/// their records.
pub open spec fn apply_row(m: Map<Seq<u8>, StatModel>, cols: Seq<Seq<u8>>) -> Map<
    Seq<u8>,
    StatModel,
> {
    Map::new(
        |fam: Seq<u8>| m.contains_key(fam) || row_mentions(cols, fam),
        |fam: Seq<u8>| row_update(stat_or_zero(m, fam), cols, fam),
    )
}

/// Intermediate state of the drive pass: the first `n` driver tokens have
/// been counted.
pub open spec fn apply_drive(m: Map<Seq<u8>, StatModel>, toks: Seq<Seq<u8>>, n: int) -> Map<
    Seq<u8>,
    StatModel,
> {
    Map::new(
        |fam: Seq<u8>| m.contains_key(fam) || occ_canon(toks.take(n), fam) > 0,
        |fam: Seq<u8>|
            StatModel {
                drive: stat_or_zero(m, fam).drive + occ_canon(toks.take(n), fam),
                ..stat_or_zero(m, fam)
            },
    )
}

/// Intermediate state of one leg's pass: the first `n` tokens have been
/// counted into the going (or, when `is_back`, returning) counter and the
/// score, with `g` the full group size of the leg.
pub open spec fn leg_update(
    s: StatModel,
    c: int,
    fam: Seq<u8>,
    driver: Seq<u8>,
    g: int,
    is_back: bool,
) -> StatModel {
    StatModel {
        going: s.going + if is_back { 0int } else { c },
        back: s.back + if is_back { c } else { 0int },
        drive: s.drive,
        score: s.score + c * leg_delta(fam, driver, TOTAL_FAMILIES_LCM as int, g),
    }
}

pub open spec fn apply_leg(
    m: Map<Seq<u8>, StatModel>,
    toks: Seq<Seq<u8>>,
    n: int,
    driver: Seq<u8>,
    g: int,
    is_back: bool,
) -> Map<Seq<u8>, StatModel> {
    Map::new(
        |fam: Seq<u8>| m.contains_key(fam) || occ(toks.take(n), fam) > 0,
        |fam: Seq<u8>|
            leg_update(
                stat_or_zero(m, fam),
                occ(toks.take(n), fam) as int,
                fam,
                driver,
                g,
                is_back,
            ),
    )
}

/// What one family's record looks like after the first `k` tokens of a
/// leg have been counted.
proof fn lemma_apply_leg_at(
    m0: Map<Seq<u8>, StatModel>,
    tdv: Seq<Seq<u8>>,
    k: int,
    driver: Seq<u8>,
    g: int,
    is_back: bool,
    name: Seq<u8>,
)
    requires
        0 <= k <= tdv.len(),
    ensures
        apply_leg(m0, tdv, k, driver, g, is_back).contains_key(name) <==> (m0.contains_key(name)
            || occ(tdv.take(k), name) > 0),
        stat_or_zero(apply_leg(m0, tdv, k, driver, g, is_back), name) == leg_update(
            stat_or_zero(m0, name),
            occ(tdv.take(k), name) as int,
            name,
            driver,
            g,
            is_back,
        ),
{
    let prev = apply_leg(m0, tdv, k, driver, g, is_back);
    if prev.contains_key(name) {
        assert(prev[name] == leg_update(
            stat_or_zero(m0, name),
            occ(tdv.take(k), name) as int,
            name,
            driver,
            g,
            is_back,
        ));
    } else {
        assert(!m0.contains_key(name) && occ(tdv.take(k), name) == 0);
    }
}

/// Headroom for `extra` more increments on every record of the mapping,
/// so that the fixed-width counters cannot overflow.
pub open spec fn room_for(m: Map<Seq<u8>, StatModel>, extra: int) -> bool {
    &&& 0 <= extra
    &&& 6 * extra <= i32::MAX
    &&& forall|fam: Seq<u8>| #[trigger] m.contains_key(fam) ==> {
        &&& 0 <= m[fam].going
        &&& 0 <= m[fam].back
        &&& 0 <= m[fam].drive
        &&& m[fam].going + extra <= u32::MAX
        &&& m[fam].back + extra <= u32::MAX
        &&& m[fam].drive + extra <= u32::MAX
        &&& -(i32::MAX as int) + 6 * extra <= m[fam].score
        &&& m[fam].score <= i32::MAX - 6 * extra
    }
}

/// Counts the first `n` driver tokens into their families' `drive`
/// counters.
fn apply_drive_tokens(m: &mut StatMap, toks: &Vec<Vec<u8>>, Ghost(extra): Ghost<int>)
    requires
        old(m).wf(),
        toks.deep_view().len() <= extra,
        room_for(old(m)@, extra),
    ensures
        final(m).wf(),
        final(m)@ == apply_drive(old(m)@, toks.deep_view(), toks.deep_view().len() as int),
        room_for(final(m)@, extra - toks.deep_view().len()),
{
    let ghost m0 = m@;
    let ghost tdv = toks.deep_view();
    proof {
        assert(tdv.take(0) =~= Seq::<Seq<u8>>::empty());
        assert(apply_drive(m0, tdv, 0) =~= m0) by {
            assert forall|fam: Seq<u8>| #[trigger] m0.contains_key(fam) implies apply_drive(
                m0,
                tdv,
                0,
            )[fam] == m0[fam] by {}
        }
    }
    let mut k: usize = 0;
    while k < toks.len()
        invariant
            k <= tdv.len(),
            tdv == toks.deep_view(),
            tdv.len() <= extra,
            room_for(m0, extra),
            m.wf(),
            m@ == apply_drive(m0, tdv, k as int),
        decreases tdv.len() - k,
    {
        let name = canon_token(&toks[k]);
        proof {
            assert(toks@[k as int]@ == tdv[k as int]);
            lemma_occ_canon_le_len(tdv.take(k as int), name@);
        }
        let mut st = m.get_or_default(&name);
        st.drive = st.drive + 1;
        m.set(&name, st);
        proof {
            assert forall|fam: Seq<u8>| true implies {
                occ_canon(tdv.take(k + 1 as int), fam) == occ_canon(tdv.take(k as int), fam)
                    + if canon_spec(tdv[k as int]) == fam {
                    1int
                } else {
                    0int
                }
            } by {
                lemma_occ_take_step(tdv, k as int, fam);
            }
            assert(m@ =~= apply_drive(m0, tdv, k + 1 as int));
        }
        k = k + 1;
    }
    proof {
        assert forall|fam: Seq<u8>| #[trigger]
            m@.contains_key(fam) implies {
            &&& 0 <= m@[fam].going
            &&& 0 <= m@[fam].back
            &&& 0 <= m@[fam].drive
            &&& m@[fam].going + (extra - tdv.len()) <= u32::MAX
            &&& m@[fam].back + (extra - tdv.len()) <= u32::MAX
            &&& m@[fam].drive + (extra - tdv.len()) <= u32::MAX
            &&& -(i32::MAX as int) + 6 * (extra - tdv.len()) <= m@[fam].score
            &&& m@[fam].score <= i32::MAX - 6 * (extra - tdv.len())
        } by {
            lemma_occ_canon_le_len(tdv.take(tdv.len() as int), fam);
        }
    }
}

/// A per-token score change of at most `6` in magnitude, taken `c` times,
/// stays within `6 * n` when `c <= n`.
proof fn lemma_mul_delta_bound(c: int, d: int, n: int)
    requires
        0 <= c <= n,
        -6 <= d <= 6,
    ensures
        -6 * n <= c * d <= 6 * n,
{
    assert(-6 * n <= c * d <= 6 * n) by (nonlinear_arith)
        requires
            0 <= c <= n && -6 <= d <= 6,
    ;
}

/// Counts the first `n` tokens of one leg into their families' records:
/// one ride counted and one application of the score rule per token.
fn apply_leg_tokens(
    m: &mut StatMap,
    toks: &Vec<Vec<u8>>,
    driver: &Vec<u8>,
    is_back: bool,
    Ghost(extra): Ghost<int>,
)
    requires
        old(m).wf(),
        toks.deep_view().len() <= extra,
        room_for(old(m)@, extra),
    ensures
        final(m).wf(),
        final(m)@ == apply_leg(
            old(m)@,
            toks.deep_view(),
            toks.deep_view().len() as int,
            driver@,
            toks.deep_view().len() as int,
            is_back,
        ),
        room_for(final(m)@, extra - toks.deep_view().len()),
{
    let ghost m0 = m@;
    let ghost tdv = toks.deep_view();
    let ghost g = tdv.len() as int;
    proof {
        assert(tdv.take(0) =~= Seq::<Seq<u8>>::empty());
        assert(apply_leg(m0, tdv, 0, driver@, g, is_back) =~= m0) by {
            assert forall|fam: Seq<u8>| #[trigger] m0.contains_key(fam) implies apply_leg(
                m0,
                tdv,
                0,
                driver@,
                g,
                is_back,
            )[fam] == m0[fam] by {
                assert(occ(tdv.take(0), fam) == 0);
                assert((occ(tdv.take(0), fam) as int) * leg_delta(
                    fam,
                    driver@,
                    TOTAL_FAMILIES_LCM as int,
                    g,
                ) == 0);
            }
        }
    }
    let glen = toks.len();
    let mut k: usize = 0;
    while k < toks.len()
        invariant
            k <= tdv.len(),
            tdv == toks.deep_view(),
            glen == tdv.len(),
            g == tdv.len() as int,
            tdv.len() <= extra,
            room_for(m0, extra),
            m.wf(),
            m@ == apply_leg(m0, tdv, k as int, driver@, g, is_back),
        decreases tdv.len() - k,
    {
        let name = crate::text::copy_bytes(&toks[k]);
        proof {
            assert(toks@[k as int]@ == tdv[k as int]);
            assert(glen as u32 as int == g);
            lemma_occ_le_len(tdv.take(k as int), name@);
            lemma_leg_delta_bound(name@, driver@, TOTAL_FAMILIES_LCM as int, g);
            lemma_mul_delta_bound(
                occ(tdv.take(k as int), name@) as int,
                leg_delta(name@, driver@, TOTAL_FAMILIES_LCM as int, g),
                k as int,
            );
        }
        let mut st = m.get_or_default(&name);
        if is_back {
            st.back = st.back + 1;
        } else {
            st.going = st.going + 1;
        }
        update_score(&mut st, &name, driver, TOTAL_FAMILIES_LCM, glen as u32);
        m.set(&name, st);
        proof {
            let prev = apply_leg(m0, tdv, k as int, driver@, g, is_back);
            let next = apply_leg(m0, tdv, (k + 1) as int, driver@, g, is_back);
            let dd = leg_delta(name@, driver@, TOTAL_FAMILIES_LCM as int, g);
            let c0 = occ(tdv.take(k as int), name@) as int;
            lemma_occ_take_step(tdv, k as int, name@);
            lemma_apply_leg_at(m0, tdv, k as int, driver@, g, is_back, name@);
            lemma_apply_leg_at(m0, tdv, (k + 1) as int, driver@, g, is_back, name@);
            assert(occ(tdv.take((k + 1) as int), name@) as int == c0 + 1);
            assert(st@.score == stat_or_zero(m0, name@).score + c0 * dd + dd);
            assert((c0 + 1) * dd == c0 * dd + dd) by (nonlinear_arith);
            assert(st@ == stat_or_zero(next, name@));
            assert(next.contains_key(name@));
            assert forall|fam: Seq<u8>| #[trigger] next.contains_key(fam) implies m@.contains_key(
                fam,
            ) && m@[fam] == next[fam] by {
                if fam != name@ {
                    lemma_occ_take_step(tdv, k as int, fam);
                    lemma_apply_leg_at(m0, tdv, k as int, driver@, g, is_back, fam);
                    lemma_apply_leg_at(m0, tdv, (k + 1) as int, driver@, g, is_back, fam);
                    assert(prev.contains_key(fam));
                    assert(m@[fam] == prev[fam]);
                    assert(next[fam] == stat_or_zero(next, fam));
                    assert(prev[fam] == stat_or_zero(prev, fam));
                }
            }
            assert forall|fam: Seq<u8>| #[trigger] m@.contains_key(fam) implies next.contains_key(
                fam,
            ) by {
                if fam != name@ {
                    lemma_occ_take_step(tdv, k as int, fam);
                    lemma_apply_leg_at(m0, tdv, k as int, driver@, g, is_back, fam);
                    lemma_apply_leg_at(m0, tdv, (k + 1) as int, driver@, g, is_back, fam);
                    assert(prev.contains_key(fam));
                }
            }
            assert(m@ =~= next);
        }
        k = k + 1;
    }
    proof {
        assert forall|fam: Seq<u8>| #[trigger]
            m@.contains_key(fam) implies {
            &&& 0 <= m@[fam].going
            &&& 0 <= m@[fam].back
            &&& 0 <= m@[fam].drive
            &&& m@[fam].going + (extra - tdv.len()) <= u32::MAX
            &&& m@[fam].back + (extra - tdv.len()) <= u32::MAX
            &&& m@[fam].drive + (extra - tdv.len()) <= u32::MAX
            &&& -(i32::MAX as int) + 6 * (extra - tdv.len()) <= m@[fam].score
            &&& m@[fam].score <= i32::MAX - 6 * (extra - tdv.len())
        } by {
            lemma_occ_le_len(tdv.take(tdv.len() as int), fam);
            lemma_leg_delta_bound(fam, driver@, TOTAL_FAMILIES_LCM as int, g);
            lemma_mul_delta_bound(
                occ(tdv.take(tdv.len() as int), fam) as int,
                leg_delta(fam, driver@, TOTAL_FAMILIES_LCM as int, g),
                tdv.len() as int,
            );
        }
    }
}

/// What one family's record looks like after the first `n` driver tokens
/// have been counted.
proof fn lemma_apply_drive_at(m0: Map<Seq<u8>, StatModel>, tdv: Seq<Seq<u8>>, n: int, name: Seq<u8>)
    requires
        0 <= n <= tdv.len(),
    ensures
        apply_drive(m0, tdv, n).contains_key(name) <==> (m0.contains_key(name) || occ_canon(
            tdv.take(n),
            name,
        ) > 0),
        stat_or_zero(apply_drive(m0, tdv, n), name) == (StatModel {
            drive: stat_or_zero(m0, name).drive + occ_canon(tdv.take(n), name),
            ..stat_or_zero(m0, name)
        }),
{
    let dm = apply_drive(m0, tdv, n);
    if dm.contains_key(name) {
        assert(dm[name] == (StatModel {
            drive: stat_or_zero(m0, name).drive + occ_canon(tdv.take(n), name),
            ..stat_or_zero(m0, name)
        }));
    } else {
        assert(!m0.contains_key(name) && occ_canon(tdv.take(n), name) == 0);
    }
}

/// The row-level errors a caller must handle.
#[derive(Clone, Copy, PartialEq, Eq, Structural, Debug)]
pub enum ParseError {
    /// A row's driver field resolved to two or more distinct families.
    MultipleDrivers,
}

/// How many name tokens one row carries over all three name fields: the
/// headroom folding the row in can consume.
pub open spec fn row_extra(cols: Seq<Seq<u8>>) -> int {
    going_toks(cols).len() + back_toks(cols).len() + driver_toks(cols).len() as int
}

/// Folds one pipe-split data row into the aggregate mapping: counts the
/// driver tokens, then both legs with the score rule. A driver field that
/// names more than one distinct family is rejected and the mapping is left
/// untouched.
pub fn parse_cols(cols: &Vec<Vec<u8>>, collected_data: &mut StatMap) -> (r: Result<
    (),
    ParseError,
>)
    requires
        cols.deep_view().len() >= 5,
        old(collected_data).wf(),
        room_for(old(collected_data)@, row_extra(cols.deep_view())),
    ensures
        final(collected_data).wf(),
        r is Ok <==> !multi_driver(cols.deep_view()),
        r is Ok ==> final(collected_data)@ == apply_row(old(collected_data)@, cols.deep_view()),
        r is Err ==> final(collected_data)@ == old(collected_data)@ && r == Err::<
            (),
            ParseError,
        >(ParseError::MultipleDrivers),
{
    let ghost cdv = cols.deep_view();
    let ghost m0 = collected_data@;
    let ghost extra0 = row_extra(cdv);
    let d_toks = field_tokens(&cols[4]);
    let ghost ddv = d_toks.deep_view();
    proof {
        assert(cols@[4 as int]@ == cdv[4 as int]);
        assert(ddv == driver_toks(cdv));
    }
    let mut driver_name: Vec<u8> = Vec::new();
    if d_toks.len() > 0 {
        driver_name = canon_token(&d_toks[0]);
        proof {
            assert(d_toks@[0 as int]@ == ddv[0 as int]);
        }
        let mut i: usize = 1;
        while i < d_toks.len()
            invariant
                1 <= i <= ddv.len(),
                ddv == d_toks.deep_view(),
                cdv == cols.deep_view(),
                ddv == driver_toks(cdv),
                collected_data.wf(),
                collected_data@ == old(collected_data)@,
                driver_name@ == canon_spec(ddv[0]),
                forall|j: int| 0 <= j < i ==> canon_spec(#[trigger] ddv[j]) == canon_spec(ddv[0]),
            decreases ddv.len() - i,
        {
            let c = canon_token(&d_toks[i]);
            proof {
                assert(d_toks@[i as int]@ == ddv[i as int]);
            }
            if !bytes_eq(&c, &driver_name) {
                proof {
                    assert(canon_spec(ddv[i as int]) != canon_spec(ddv[0]));
                    assert(multi_driver(cdv));
                }
                return Err(ParseError::MultipleDrivers);
            }
            i = i + 1;
        }
    }
    proof {
        assert forall|i: int, j: int|
            0 <= i < ddv.len() && 0 <= j < ddv.len() implies canon_spec(#[trigger] ddv[i])
            == canon_spec(#[trigger] ddv[j]) by {
            if ddv.len() > 0 {
                assert(canon_spec(ddv[i]) == canon_spec(ddv[0]));
                assert(canon_spec(ddv[j]) == canon_spec(ddv[0]));
            }
        }
        assert(!multi_driver(cdv));
        if ddv.len() == 0 {
            assert(driver_name@ =~= Seq::<u8>::empty());
        }
        assert(driver_name@ == row_driver(cdv));
    }
    apply_drive_tokens(collected_data, &d_toks, Ghost(extra0));
    let ghost m1 = collected_data@;
    let g_toks = field_tokens(&cols[2]);
    let ghost gdv = g_toks.deep_view();
    proof {
        assert(cols@[2 as int]@ == cdv[2 as int]);
        assert(gdv == going_toks(cdv));
    }
    apply_leg_tokens(collected_data, &g_toks, &driver_name, false, Ghost(extra0 - ddv.len()));
    let ghost m2 = collected_data@;
    let b_toks = field_tokens(&cols[3]);
    let ghost bdv = b_toks.deep_view();
    proof {
        assert(cols@[3 as int]@ == cdv[3 as int]);
        assert(bdv == back_toks(cdv));
    }
    apply_leg_tokens(
        collected_data,
        &b_toks,
        &driver_name,
        true,
        Ghost(extra0 - ddv.len() - gdv.len()),
    );
    proof {
        let drv = row_driver(cdv);
        let m3 = collected_data@;
        assert forall|fam: Seq<u8>| #[trigger] m3.contains_key(fam) <==> (m0.contains_key(fam)
            || row_mentions(cdv, fam)) by {
            lemma_apply_drive_at(m0, ddv, ddv.len() as int, fam);
            lemma_apply_leg_at(m1, gdv, gdv.len() as int, drv, gdv.len() as int, false, fam);
            lemma_apply_leg_at(m2, bdv, bdv.len() as int, drv, bdv.len() as int, true, fam);
            lemma_occ_take_all(ddv, fam);
            lemma_occ_take_all(gdv, fam);
            lemma_occ_take_all(bdv, fam);
        }
        assert forall|fam: Seq<u8>| #[trigger] m3.contains_key(fam) implies m3[fam] == row_update(
            stat_or_zero(m0, fam),
            cdv,
            fam,
        ) by {
            lemma_apply_drive_at(m0, ddv, ddv.len() as int, fam);
            lemma_apply_leg_at(m1, gdv, gdv.len() as int, drv, gdv.len() as int, false, fam);
            lemma_apply_leg_at(m2, bdv, bdv.len() as int, drv, bdv.len() as int, true, fam);
            lemma_occ_take_all(ddv, fam);
            lemma_occ_take_all(gdv, fam);
            lemma_occ_take_all(bdv, fam);
            assert(m3[fam] == stat_or_zero(m3, fam));
        }
        assert(m3 =~= apply_row(m0, cdv));
    }
    Ok(())
}

/// What one family's record looks like after one whole row.
pub proof fn lemma_apply_row_at(m0: Map<Seq<u8>, StatModel>, cols: Seq<Seq<u8>>, fam: Seq<u8>)
    ensures
        apply_row(m0, cols).contains_key(fam) <==> (m0.contains_key(fam) || row_mentions(
            cols,
            fam,
        )),
        stat_or_zero(apply_row(m0, cols), fam) == row_update(stat_or_zero(m0, fam), cols, fam),
{
    let nm = apply_row(m0, cols);
    if nm.contains_key(fam) {
        assert(nm[fam] == row_update(stat_or_zero(m0, fam), cols, fam));
    } else {
        assert(!m0.contains_key(fam) && !row_mentions(cols, fam));
        assert(occ(going_toks(cols), fam) == 0 && occ(back_toks(cols), fam) == 0 && occ_canon(
            driver_toks(cols),
            fam,
        ) == 0);
    }
}

/// The columns a raw line yields: trimmed, then split on the pipes.
pub open spec fn row_cols(row: Seq<u8>) -> Seq<Seq<u8>> {
    split_spec(trim_spec(row), 124)
}

/// Whether a line is a data row: at least five pipe-split segments (the
/// first being the text before the leading pipe).
pub open spec fn row_is_data(row: Seq<u8>) -> bool {
    row_cols(row).len() >= 5
}

/// An upper bound on the name tokens one line can yield, used as the
/// line's budget against counter overflow.
pub open spec fn weight(row: Seq<u8>) -> int {
    3 * (row.len() as int) + 3
}

/// The summed budget of the data region (lines 2 and later) up to line `n`.
pub open spec fn total_weight(rows: Seq<Seq<u8>>, n: int) -> int
    decreases n,
{
    if n <= 2 {
        0
    } else {
        total_weight(rows, n - 1) + weight(rows[n - 1])
    }
}

/// The aggregate mapping after folding the data rows among lines 2..n in,
/// in order; lines with fewer than five segments are skipped.
pub open spec fn fold_rows(rows: Seq<Seq<u8>>, n: int) -> Map<Seq<u8>, StatModel>
    decreases n,
{
    if n <= 2 {
        Map::empty()
    } else if row_is_data(rows[n - 1]) {
        apply_row(fold_rows(rows, n - 1), row_cols(rows[n - 1]))
    } else {
        fold_rows(rows, n - 1)
    }
}

/// No data row among lines 2..n has a multi-family driver field.
pub open spec fn clean_prefix(rows: Seq<Seq<u8>>, n: int) -> bool {
    forall|j: int|
        2 <= j < n ==> !(row_is_data(#[trigger] rows[j]) && multi_driver(row_cols(rows[j])))
}

/// Every record's counters stay within the budget `t`, and its score
/// within six units per ride counted: the shape folding preserves.
pub open spec fn stats_bounded(m: Map<Seq<u8>, StatModel>, t: int) -> bool {
    forall|fam: Seq<u8>| #[trigger] m.contains_key(fam) ==> {
        &&& 0 <= m[fam].going
        &&& 0 <= m[fam].back
        &&& 0 <= m[fam].drive
        &&& m[fam].going + m[fam].back + m[fam].drive <= t
        &&& -6 * (m[fam].going + m[fam].back) <= m[fam].score
        &&& m[fam].score <= 6 * (m[fam].going + m[fam].back)
    }
}

proof fn lemma_total_weight_nonneg(rows: Seq<Seq<u8>>, n: int)
    ensures
        0 <= total_weight(rows, n),
    decreases n,
{
    if n > 2 {
        lemma_total_weight_nonneg(rows, n - 1);
    }
}

proof fn lemma_total_weight_mono(rows: Seq<Seq<u8>>, a: int, b: int)
    requires
        a <= b,
    ensures
        total_weight(rows, a) <= total_weight(rows, b),
    decreases b - a,
{
    if a < b {
        lemma_total_weight_mono(rows, a, b - 1);
    }
}

/// One line's tokens never outnumber its budget.
proof fn lemma_row_extra_le_weight(row: Seq<u8>)
    requires
        row_is_data(row),
    ensures
        row_extra(row_cols(row)) <= weight(row),
{
    crate::text::lemma_trim_len(row);
    crate::text::lemma_split_bounds(trim_spec(row), 124);
    let cols = row_cols(row);
    assert(cols[2].len() <= trim_spec(row).len());
    assert(cols[3].len() <= trim_spec(row).len());
    assert(cols[4].len() <= trim_spec(row).len());
    crate::text::lemma_field_toks_len(cols[2]);
    crate::text::lemma_field_toks_len(cols[3]);
    crate::text::lemma_field_toks_len(cols[4]);
}

/// Bounded statistics leave room for one more row's tokens, as long as the
/// total budget stays under the cap the counters were sized for.
proof fn lemma_stats_room(m: Map<Seq<u8>, StatModel>, t: int, extra: int, cap: int)
    requires
        stats_bounded(m, t),
        0 <= t,
        0 <= extra,
        t + extra <= cap,
        6 * cap <= i32::MAX,
        cap <= u32::MAX,
    ensures
        room_for(m, extra),
{
    assert forall|fam: Seq<u8>| #[trigger] m.contains_key(fam) implies {
        &&& 0 <= m[fam].going
        &&& 0 <= m[fam].back
        &&& 0 <= m[fam].drive
        &&& m[fam].going + extra <= u32::MAX
        &&& m[fam].back + extra <= u32::MAX
        &&& m[fam].drive + extra <= u32::MAX
        &&& -(i32::MAX as int) + 6 * extra <= m[fam].score
        &&& m[fam].score <= i32::MAX - 6 * extra
    } by {}
}

/// Folding one row in keeps every record bounded by the grown budget.
proof fn lemma_apply_row_bounded(m: Map<Seq<u8>, StatModel>, cols: Seq<Seq<u8>>, t: int)
    requires
        stats_bounded(m, t),
        0 <= t,
    ensures
        stats_bounded(apply_row(m, cols), t + row_extra(cols)),
{
    let nm = apply_row(m, cols);
    let drv = row_driver(cols);
    assert forall|fam: Seq<u8>| #[trigger] nm.contains_key(fam) implies {
        &&& 0 <= nm[fam].going
        &&& 0 <= nm[fam].back
        &&& 0 <= nm[fam].drive
        &&& nm[fam].going + nm[fam].back + nm[fam].drive <= t + row_extra(cols)
        &&& -6 * (nm[fam].going + nm[fam].back) <= nm[fam].score
        &&& nm[fam].score <= 6 * (nm[fam].going + nm[fam].back)
    } by {
        lemma_apply_row_at(m, cols, fam);
        assert(nm[fam] == stat_or_zero(nm, fam));
        lemma_occ_le_len(going_toks(cols), fam);
        lemma_occ_le_len(back_toks(cols), fam);
        lemma_occ_canon_le_len(driver_toks(cols), fam);
        let cg = occ(going_toks(cols), fam) as int;
        let cb = occ(back_toks(cols), fam) as int;
        lemma_leg_delta_bound(fam, drv, TOTAL_FAMILIES_LCM as int, going_toks(cols).len() as int);
        lemma_leg_delta_bound(fam, drv, TOTAL_FAMILIES_LCM as int, back_toks(cols).len() as int);
        lemma_mul_delta_bound(
            cg,
            leg_delta(fam, drv, TOTAL_FAMILIES_LCM as int, going_toks(cols).len() as int),
            cg,
        );
        lemma_mul_delta_bound(
            cb,
            leg_delta(fam, drv, TOTAL_FAMILIES_LCM as int, back_toks(cols).len() as int),
            cb,
        );
    }
}

/// Folds every data row of a line list (lines 0 and 1 are the table's
/// title and separator) into a fresh aggregate mapping. Stops at the first
/// row whose driver field names two or more distinct families.
pub fn parse_rows(rows: &Vec<Vec<u8>>) -> (r: Result<StatMap, ParseError>)
    requires
        rows.deep_view().len() >= 2,
        total_weight(rows.deep_view(), rows.deep_view().len() as int) <= 0x0200_0000,
    ensures
        match r {
            Ok(m) => m.wf() && m@ == fold_rows(rows.deep_view(), rows.deep_view().len() as int)
                && clean_prefix(rows.deep_view(), rows.deep_view().len() as int),
            Err(e) => e == ParseError::MultipleDrivers && !clean_prefix(
                rows.deep_view(),
                rows.deep_view().len() as int,
            ),
        },
{
    let ghost rdv = rows.deep_view();
    let mut collected_data = StatMap::new();
    let mut i: usize = 2;
    while i < rows.len()
        invariant
            2 <= i <= rdv.len(),
            rdv == rows.deep_view(),
            total_weight(rdv, rdv.len() as int) <= 0x0200_0000,
            collected_data.wf(),
            collected_data@ == fold_rows(rdv, i as int),
            clean_prefix(rdv, i as int),
            stats_bounded(collected_data@, total_weight(rdv, i as int)),
        decreases rdv.len() - i,
    {
        let trimmed = trim_bytes(&rows[i]);
        let cols = split_bytes(&trimmed, 124);
        proof {
            assert(rows@[i as int]@ == rdv[i as int]);
            assert(cols.deep_view() == row_cols(rdv[i as int]));
        }
        if cols.len() >= 5 {
            proof {
                lemma_total_weight_nonneg(rdv, i as int);
                lemma_total_weight_mono(rdv, i + 1 as int, rdv.len() as int);
                lemma_row_extra_le_weight(rdv[i as int]);
                lemma_stats_room(
                    collected_data@,
                    total_weight(rdv, i as int),
                    row_extra(cols.deep_view()),
                    0x0200_0000,
                );
            }
            let ghost before = collected_data@;
            match parse_cols(&cols, &mut collected_data) {
                Ok(()) => {
                    proof {
                        lemma_apply_row_bounded(before, cols.deep_view(), total_weight(rdv, i as int));
                        assert(collected_data@ == fold_rows(rdv, i + 1 as int));
                        assert(stats_bounded(collected_data@, total_weight(rdv, i + 1 as int)));
                    }
                },
                Err(e) => {
                    proof {
                        assert(row_is_data(rdv[i as int]) && multi_driver(row_cols(rdv[i as int])));
                        assert(!clean_prefix(rdv, rdv.len() as int));
                    }
                    return Err(e);
                },
            }
        } else {
            proof {
                lemma_total_weight_nonneg(rdv, i as int);
                lemma_total_weight_mono(rdv, i as int, i + 1 as int);
                assert(collected_data@ == fold_rows(rdv, i + 1 as int));
            }
        }
        i = i + 1;
    }
    Ok(collected_data)
}

/// Total length of the first `n` segments.
pub open spec fn sum_prefix(parts: Seq<Seq<u8>>, n: int) -> int
    decreases n,
{
    if n <= 0 {
        0
    } else {
        sum_prefix(parts, n - 1) + parts[n - 1].len()
    }
}

proof fn lemma_sum_prefix_drop_last(parts: Seq<Seq<u8>>, k: int)
    requires
        0 <= k <= parts.len() - 1,
    ensures
        sum_prefix(parts.drop_last(), k) == sum_prefix(parts, k),
    decreases k,
{
    if k > 0 {
        lemma_sum_prefix_drop_last(parts, k - 1);
        assert(parts.drop_last()[k - 1] == parts[k - 1]);
    }
}

proof fn lemma_sum_prefix_all(parts: Seq<Seq<u8>>)
    ensures
        sum_prefix(parts, parts.len() as int) == crate::text::sum_lens(parts),
    decreases parts.len(),
{
    if parts.len() > 0 {
        lemma_sum_prefix_all(parts.drop_last());
        lemma_sum_prefix_drop_last(parts, parts.len() - 1);
    }
}

proof fn lemma_sum_prefix_nonneg(parts: Seq<Seq<u8>>, n: int)
    ensures
        0 <= sum_prefix(parts, n),
    decreases n,
{
    if n > 0 {
        lemma_sum_prefix_nonneg(parts, n - 1);
    }
}

proof fn lemma_total_weight_le_sum(parts: Seq<Seq<u8>>, n: int)
    requires
        2 <= n <= parts.len(),
    ensures
        total_weight(parts, n) <= 3 * sum_prefix(parts, n) + 3 * n,
    decreases n,
{
    if n <= 2 {
        lemma_sum_prefix_nonneg(parts, n);
    } else {
        lemma_total_weight_le_sum(parts, n - 1);
    }
}

/// Splits a whole table text into its lines and folds the data rows in.
/// A text of fewer than two lines (no separator row can follow the title)
/// yields no report at all, which is not an error.
pub fn parse_content(content: &Vec<u8>) -> (r: Option<Result<StatMap, ParseError>>)
    requires
        content@.len() <= 0x0040_0000,
    ensures
        r is None <==> split_spec(content@, 10).len() < 2,
        match r {
            None => true,
            Some(Ok(m)) => {
                let lines = split_spec(content@, 10);
                m.wf() && m@ == fold_rows(lines, lines.len() as int) && clean_prefix(
                    lines,
                    lines.len() as int,
                )
            },
            Some(Err(e)) => {
                let lines = split_spec(content@, 10);
                e == ParseError::MultipleDrivers && !clean_prefix(lines, lines.len() as int)
            },
        },
{
    let rows = split_bytes(content, 10);
    let ghost rdv = rows.deep_view();
    if rows.len() < 2 {
        return None;
    }
    proof {
        crate::text::lemma_split_bounds(content@, 10);
        lemma_total_weight_le_sum(rdv, rdv.len() as int);
        lemma_sum_prefix_all(rdv);
        assert(total_weight(rdv, rdv.len() as int) <= 3 * (content@.len() as int) + 3 * (
        content@.len() + 1));
    }
    Some(parse_rows(&rows))
}

} // verus!
