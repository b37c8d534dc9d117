//! Properties of the registry that hold across its operations.
use crate::amount::{all_wf, lemma_sum_units_concat, lemma_total_exact, sum_units, total_of, Amount};
use crate::model::Contribution;
use crate::model::YearSummary;
use crate::repo::{
    contribution_added, contribution_removed, member_deleted, recomputed, year_closed,
    year_reopened, Repository,
};
use crate::tables::{
    amounts_wf, contributions_without, fresh_total, has_member, has_year,
    lemma_year_amounts_concat, lemma_year_amounts_single, upserted, year_amounts,
};
use vstd::prelude::*;

verus! {

proof fn lemma_year_amounts_wf(cs: Seq<Contribution>, y: i32)
    requires
        amounts_wf(cs),
    ensures
        all_wf(year_amounts(cs, y)),
    decreases cs.len(),
{
    if cs.len() > 0 {
        let t = cs.drop_last();
        assert(amounts_wf(t)) by {
            assert forall|i: int| 0 <= i < t.len() implies (#[trigger] t[i]).amount.wf() by {
                assert(t[i] == cs[i]);
            }
        }
        lemma_year_amounts_wf(t, y);
        assert(cs.last() == cs[cs.len() - 1]);
    }
}

/// Every year's stored total is exactly the sum of the amounts of that year's
/// contributions. Every operation keeps the invariant, so this holds after any
/// sequence of them.
pub proof fn law_year_total_is_sum(repo: Repository, j: int)
    requires
        repo.wf(),
        0 <= j < repo.summaries().len(),
    ensures
        repo.summaries()[j].total.units() == sum_units(
            year_amounts(repo.contributions(), repo.summaries()[j].year),
        ),
{
    let y = repo.summaries()[j].year;
    lemma_year_amounts_wf(repo.contributions(), y);
    lemma_total_exact(year_amounts(repo.contributions(), y));
}

proof fn lemma_without_excludes(cs: Seq<Contribution>, id: i64)
    ensures
        forall|i: int|
            0 <= i < contributions_without(cs, id).len() ==> (#[trigger] contributions_without(
                cs,
                id,
            )[i]).member_id != id,
    decreases cs.len(),
{
    if cs.len() > 0 {
        lemma_without_excludes(cs.drop_last(), id);
        let w = contributions_without(cs, id);
        let p = contributions_without(cs.drop_last(), id);
        assert forall|i: int| 0 <= i < w.len() implies (#[trigger] w[i]).member_id != id by {
            if i < p.len() {
                assert(w[i] == p[i]);
            }
        }
    }
}

/// Deleting a member removes all of their contributions, and no remaining
/// contribution refers to a member that does not exist.
pub proof fn law_delete_member_cascades(before: Repository, after: Repository, id: i64)
    requires
        before.wf(),
        after.wf(),
        member_deleted(before, after, id),
    ensures
        !has_member(after.members(), id),
        forall|i: int|
            0 <= i < after.contributions().len() ==> (#[trigger] after.contributions()[i]).member_id
                != id && has_member(after.members(), after.contributions()[i].member_id),
{
    lemma_without_excludes(before.contributions(), id);
}

/// No two members share a card number.
pub proof fn law_card_numbers_unique(repo: Repository, i: int, j: int)
    requires
        repo.wf(),
        0 <= i < repo.members().len(),
        0 <= j < repo.members().len(),
        i != j,
    ensures
        repo.members()[i].card_number@ != repo.members()[j].card_number@,
{
}

/// Recomputing a year's total twice in a row gives the same total both times, and
/// the second time changes nothing.
pub proof fn law_recompute_idempotent(a: Repository, b: Repository, c: Repository, year: i32)
    requires
        a.wf(),
        recomputed(a, b, year),
        recomputed(b, c, year),
    ensures
        fresh_total(b.contributions(), year) == fresh_total(a.contributions(), year),
        c.summaries() == b.summaries(),
        c.contributions() == b.contributions(),
{
    let t = fresh_total(a.contributions(), year).unwrap();
    let bs = b.summaries();
    let as_ = a.summaries();
    assert forall|j: int| 0 <= j < bs.len() && (#[trigger] bs[j]).year == year implies bs[j].total
        == t by {
        if has_year(as_, year) {
            if as_[j].year != year {
                assert(bs[j] == as_[j]);
            }
        } else {
            let k = choose|k: int|
                0 <= k <= as_.len() && bs == as_.insert(
                    k,
                    YearSummary { year: year, total: t, closed_at: None, note: None },
                );
            if j < k {
                assert(bs[j] == as_[j]);
                assert(has_year(as_, year));
            } else if j > k {
                assert(bs[j] == as_[j - 1]);
                assert(has_year(as_, year));
            }
        }
    }
    assert(has_year(bs, year)) by {
        if has_year(as_, year) {
            let j = choose|j: int| 0 <= j < as_.len() && (#[trigger] as_[j]).year == year;
            assert(bs[j].year == year);
        } else {
            let k = choose|k: int|
                0 <= k <= as_.len() && bs == as_.insert(
                    k,
                    YearSummary { year: year, total: t, closed_at: None, note: None },
                );
            assert(bs[k].year == year);
        }
    }
    assert(c.summaries() =~= bs);
}

/// After contribution `added` was recorded, the fresh total of its year is
/// worth the earlier amounts of that year plus `added`.
proof fn lemma_added_total(a: Repository, b: Repository, added: Contribution)
    requires
        a.wf(),
        b.wf(),
        contribution_added(a, b, added),
    ensures
        fresh_total(b.contributions(), added.recorded_year) is Some,
        fresh_total(b.contributions(), added.recorded_year).unwrap().units() == sum_units(
            year_amounts(a.contributions(), added.recorded_year),
        ) + added.amount.units(),
{
    let y = added.recorded_year;
    let k = choose|k: int|
        0 <= k <= a.contributions().len() && b.contributions() == a.contributions().insert(k, added);
    crate::tables::lemma_year_amounts_insert(a.contributions(), k, added);
    assert(added.amount.wf()) by {
        assert(b.contributions()[k] == added);
    }
    lemma_year_amounts_wf(a.contributions(), y);
    let v = year_amounts(a.contributions(), y).push(added.amount);
    assert(all_wf(v)) by {
        assert forall|i: int| 0 <= i < v.len() implies (#[trigger] v[i]).wf() by {
            if i < v.len() - 1 {
                assert(v[i] == year_amounts(a.contributions(), y)[i]);
            }
        }
    }
    lemma_total_exact(v);
    assert(v.drop_last() == year_amounts(a.contributions(), y));
}

/// After an upsert for year `y`, there is a summary for `y`.
proof fn lemma_upserted_has_year(before: Seq<YearSummary>, after: Seq<YearSummary>, y: i32, t: Amount)
    requires
        upserted(before, after, y, t),
    ensures
        has_year(after, y),
{
    if has_year(before, y) {
        let j = choose|j: int| 0 <= j < before.len() && (#[trigger] before[j]).year == y;
        assert(after[j].year == y);
    } else {
        let k = choose|k: int|
            0 <= k <= before.len() && after == before.insert(
                k,
                YearSummary { year: y, total: t, closed_at: None, note: None },
            );
        assert(after[k].year == y);
    }
}

/// Recording a contribution adds exactly its amount to the total of its year.
pub proof fn law_create_adds_to_year_total(a: Repository, b: Repository, added: Contribution)
    requires
        a.wf(),
        b.wf(),
        contribution_added(a, b, added),
    ensures
        has_year(b.summaries(), added.recorded_year),
        forall|j: int|
            0 <= j < b.summaries().len() && (#[trigger] b.summaries()[j]).year == added.recorded_year
                ==> b.summaries()[j].total.units() == sum_units(
                year_amounts(a.contributions(), added.recorded_year),
            ) + added.amount.units(),
{
    lemma_added_total(a, b, added);
    lemma_upserted_has_year(
        a.summaries(),
        b.summaries(),
        added.recorded_year,
        total_of(year_amounts(a.contributions(), added.recorded_year).push(added.amount)).unwrap(),
    );
    assert forall|j: int|
        0 <= j < b.summaries().len() && (#[trigger] b.summaries()[j]).year == added.recorded_year
            implies b.summaries()[j].total.units() == sum_units(
            year_amounts(a.contributions(), added.recorded_year),
        ) + added.amount.units() by {
        assert(fresh_total(b.contributions(), b.summaries()[j].year) == Some(b.summaries()[j].total));
    }
}

/// Removing a contribution takes exactly its amount off the total of its year.
pub proof fn law_delete_subtracts_from_year_total(a: Repository, b: Repository, i: int)
    requires
        a.wf(),
        b.wf(),
        0 <= i < a.contributions().len(),
        contribution_removed(a, b, i),
    ensures
        has_year(b.summaries(), a.contributions()[i].recorded_year),
        forall|j: int|
            0 <= j < b.summaries().len() && (#[trigger] b.summaries()[j]).year
                == a.contributions()[i].recorded_year ==> b.summaries()[j].total.units()
                + a.contributions()[i].amount.units() == sum_units(
                year_amounts(a.contributions(), a.contributions()[i].recorded_year),
            ),
{
    let cs = a.contributions();
    let c = cs[i];
    let y = c.recorded_year;
    let rest = cs.remove(i);
    lemma_upserted_has_year(a.summaries(), b.summaries(), y, fresh_total(rest, y).unwrap());
    let pre = cs.take(i);
    let post = cs.skip(i + 1);
    assert(rest == pre + post);
    assert(cs == pre + seq![c] + post);
    lemma_year_amounts_concat(pre + seq![c], post, y);
    lemma_year_amounts_concat(pre, seq![c], y);
    lemma_year_amounts_concat(pre, post, y);
    lemma_year_amounts_single(c, y);
    let ya = year_amounts(pre, y);
    let yb = year_amounts(post, y);
    lemma_sum_units_concat(ya + seq![c.amount], yb);
    lemma_sum_units_concat(ya, seq![c.amount]);
    lemma_sum_units_concat(ya, yb);
    assert(seq![c.amount].drop_last() == Seq::<Amount>::empty());
    assert(sum_units(Seq::<Amount>::empty()) == 0);
    assert(seq![c.amount].last() == c.amount);
    assert(sum_units(seq![c.amount]) == c.amount.units());
    lemma_year_amounts_wf(rest, y);
    assert forall|j: int|
        0 <= j < b.summaries().len() && (#[trigger] b.summaries()[j]).year == y implies b.summaries()[j].total.units()
            + c.amount.units() == sum_units(year_amounts(cs, y)) by {
        assert(fresh_total(b.contributions(), b.summaries()[j].year) == Some(b.summaries()[j].total));
        lemma_total_exact(year_amounts(rest, y));
    }
}

/// Closing a year right after a contribution was recorded in it, with no
/// explicit recomputation between, counts that contribution in the closed total.
pub proof fn law_close_sees_fresh_contribution(
    a: Repository,
    b: Repository,
    c: Repository,
    added: Contribution,
    s: YearSummary,
)
    requires
        a.wf(),
        b.wf(),
        contribution_added(a, b, added),
        s.year == added.recorded_year,
        s.total == fresh_total(b.contributions(), s.year).unwrap(),
        year_closed(b, c, s),
    ensures
        s.total.units() == sum_units(year_amounts(a.contributions(), s.year)) + added.amount.units(),
{
    lemma_added_total(a, b, added);
}

/// Reopening a year clears its closing date and note and keeps its total.
pub proof fn law_reopen_keeps_total(b: Repository, c: Repository, closed: YearSummary, s: YearSummary)
    requires
        b.wf(),
        b.summaries().contains(closed),
        s.year == closed.year,
        year_reopened(b, c, s),
    ensures
        s.closed_at is None,
        s.note is None,
        s.total == closed.total,
        c.summaries().contains(s),
{
    let j = choose|j: int|
        0 <= j < b.summaries().len() && (#[trigger] b.summaries()[j]).year == s.year && s == (
        YearSummary {
            year: s.year,
            total: b.summaries()[j].total,
            closed_at: None,
            note: None,
        }) && c.summaries() == b.summaries().update(j, s);
    let i = choose|i: int| 0 <= i < b.summaries().len() && b.summaries()[i] == closed;
    if i != j {
        if i < j {
            assert(b.summaries()[i].year < b.summaries()[j].year);
        } else {
            assert(b.summaries()[j].year < b.summaries()[i].year);
        }
    }
    assert(c.summaries()[j] == s);
}

} // verus!
