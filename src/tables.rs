//! The three tables of the registry as sequences: members, contributions and
//! year summaries, the invariant that ties them together, and the operations on
//! them that the registry is built from.
use crate::amount::{
    aligned_sum, all_wf, lemma_aligned_concat, lemma_aligned_nonneg, lemma_max_scale_concat,
    lemma_total_middle, lemma_total_of_smaller, max_scale, pow10, sum_amounts, total_of, Amount,
};
use crate::calendar::date_year_of;
use crate::model::{
    clone_opt, Contribution, ContributionInput, ContributionWithMember, Member, MemberInput,
    MemberWithTotal, YearSummary,
};
use crate::text::{lemma_text_le_total, lemma_text_le_transitive, text_le, text_le_exec, trimmed};
use vstd::prelude::*;

verus! {

/// Some member has the identifier `id`.
pub open spec fn has_member(ms: Seq<Member>, id: i64) -> bool {
    exists|j: int| 0 <= j < ms.len() && (#[trigger] ms[j]).id == id
}

/// Some member other than `id` holds the card number `card`.
pub open spec fn card_held_by_other(ms: Seq<Member>, card: Seq<char>, id: int) -> bool {
    exists|j: int| 0 <= j < ms.len() && (#[trigger] ms[j]).card_number@ == card && ms[j].id != id
}

/// The members are in order of full name.
pub open spec fn members_sorted(ms: Seq<Member>) -> bool {
    forall|i: int, j: int|
        #![trigger ms[i], ms[j]]
        0 <= i < j < ms.len() ==> text_le(ms[i].full_name@, ms[j].full_name@)
}

/// Identifiers positive, below `next_id` and unique; card numbers unique; order of name.
pub open spec fn members_wf(ms: Seq<Member>, next_id: int) -> bool {
    &&& 1 <= next_id
    &&& forall|i: int| 0 <= i < ms.len() ==> 1 <= (#[trigger] ms[i]).id < next_id
    &&& forall|i: int, j: int|
        #![trigger ms[i], ms[j]]
        0 <= i < ms.len() && 0 <= j < ms.len() && i != j ==> ms[i].id != ms[j].id
            && ms[i].card_number@ != ms[j].card_number@
    &&& members_sorted(ms)
}

/// The contributions are in order of payment date.
pub open spec fn contributions_sorted(cs: Seq<Contribution>) -> bool {
    forall|i: int, j: int|
        #![trigger cs[i], cs[j]]
        0 <= i < j < cs.len() ==> text_le(cs[i].payment_date@, cs[j].payment_date@)
}

/// Identifiers positive, below `next_id` and unique; order of payment date; each
/// owned by an existing member, with an amount in range and the year of its date.
pub open spec fn contributions_wf(cs: Seq<Contribution>, ms: Seq<Member>, next_id: int) -> bool {
    &&& 1 <= next_id
    &&& forall|i: int| 0 <= i < cs.len() ==> 1 <= (#[trigger] cs[i]).id < next_id
    &&& forall|i: int, j: int|
        #![trigger cs[i], cs[j]]
        0 <= i < cs.len() && 0 <= j < cs.len() && i != j ==> cs[i].id != cs[j].id
    &&& contributions_sorted(cs)
    &&& forall|i: int| 0 <= i < cs.len() ==> has_member(ms, (#[trigger] cs[i]).member_id)
    &&& forall|i: int| 0 <= i < cs.len() ==> (#[trigger] cs[i]).amount.wf()
    &&& forall|i: int|
        0 <= i < cs.len() ==> date_year_of((#[trigger] cs[i]).payment_date@) == Some(
            cs[i].recorded_year,
        )
}

/// The amounts of the contributions recorded in year `y`, in store order.
pub open spec fn year_amounts(cs: Seq<Contribution>, y: i32) -> Seq<Amount>
    decreases cs.len(),
{
    if cs.len() == 0 {
        Seq::empty()
    } else {
        let before = year_amounts(cs.drop_last(), y);
        if cs.last().recorded_year == y {
            before.push(cs.last().amount)
        } else {
            before
        }
    }
}

/// The amounts of the contributions of member `id`, in store order.
pub open spec fn member_amounts(cs: Seq<Contribution>, id: i64) -> Seq<Amount>
    decreases cs.len(),
{
    if cs.len() == 0 {
        Seq::empty()
    } else {
        let before = member_amounts(cs.drop_last(), id);
        if cs.last().member_id == id {
            before.push(cs.last().amount)
        } else {
            before
        }
    }
}

/// The total of year `y` computed afresh from the contributions.
pub open spec fn fresh_total(cs: Seq<Contribution>, y: i32) -> Option<Amount> {
    total_of(year_amounts(cs, y))
}

/// Every year's total, computed afresh from the contributions, fits in a decimal.
pub open spec fn totals_fit(cs: Seq<Contribution>) -> bool {
    forall|y: i32| (#[trigger] fresh_total(cs, y)) is Some
}

/// Years in increasing order, one summary each, every total computed afresh.
pub open spec fn summaries_wf(ss: Seq<YearSummary>, cs: Seq<Contribution>) -> bool {
    &&& forall|i: int, j: int|
        #![trigger ss[i], ss[j]]
        0 <= i < j < ss.len() ==> ss[i].year < ss[j].year
    &&& forall|i: int|
        0 <= i < ss.len() ==> fresh_total(cs, (#[trigger] ss[i]).year) == Some(ss[i].total)
}

/// Some summary is for year `y`.
pub open spec fn has_year(ss: Seq<YearSummary>, y: i32) -> bool {
    exists|j: int| 0 <= j < ss.len() && (#[trigger] ss[j]).year == y
}

/// The record a member input gives, under an identifier and a creation time.
pub open spec fn member_from(input: MemberInput, id: i64, created_at: String) -> Member {
    Member {
        id,
        card_number: input.card_number,
        full_name: input.full_name,
        address: input.address,
        phone: input.phone,
        job: input.job,
        gender: input.gender,
        member_type: input.member_type,
        created_at,
    }
}

/// A member input breaks a rule: blank card number or blank full name.
pub open spec fn member_input_invalid(input: MemberInput) -> bool {
    trimmed(input.card_number@).len() == 0 || trimmed(input.full_name@).len() == 0
}

/// The members whose category is `t`, in store order.
pub open spec fn members_of_type(ms: Seq<Member>, t: Seq<char>) -> Seq<Member>
    decreases ms.len(),
{
    if ms.len() == 0 {
        Seq::empty()
    } else {
        let before = members_of_type(ms.drop_last(), t);
        if ms.last().member_type@ == t {
            before.push(ms.last())
        } else {
            before
        }
    }
}

/// Where a member named `name` goes: after every member whose name comes no later.
pub(crate) fn name_position(ms: &Vec<Member>, name: &str) -> (k: usize)
    ensures
        k <= ms@.len(),
        forall|i: int| 0 <= i < k ==> text_le((#[trigger] ms@[i]).full_name@, name@),
        k < ms@.len() ==> !text_le(ms@[k as int].full_name@, name@),
{
    let mut k: usize = 0;
    while k < ms.len()
        invariant
            k <= ms@.len(),
            forall|i: int| 0 <= i < k ==> text_le((#[trigger] ms@[i]).full_name@, name@),
        decreases ms@.len() - k,
    {
        if !text_le_exec(ms[k].full_name.as_str(), name) {
            return k;
        }
        k = k + 1;
    }
    k
}

/// Inserting a new member at its place by name keeps the member table well formed.
pub(crate) proof fn lemma_members_insert(ms: Seq<Member>, k: int, m: Member, next_id: int)
    requires
        members_wf(ms, next_id),
        0 <= k <= ms.len(),
        forall|i: int| 0 <= i < k ==> text_le((#[trigger] ms[i]).full_name@, m.full_name@),
        k < ms.len() ==> !text_le(ms[k].full_name@, m.full_name@),
        1 <= m.id < next_id,
        forall|i: int|
            0 <= i < ms.len() ==> (#[trigger] ms[i]).id != m.id && ms[i].card_number@
                != m.card_number@,
    ensures
        members_wf(ms.insert(k, m), next_id),
{
    let n = ms.insert(k, m);
    assert forall|i: int| 0 <= i < n.len() implies 1 <= (#[trigger] n[i]).id < next_id by {
        if i < k {
            assert(n[i] == ms[i]);
        } else if i > k {
            assert(n[i] == ms[i - 1]);
        }
    }
    assert forall|i: int, j: int|
        #![trigger n[i], n[j]]
        0 <= i < n.len() && 0 <= j < n.len() && i != j implies n[i].id != n[j].id
            && n[i].card_number@ != n[j].card_number@ by {
        let oi = if i < k { i } else { i - 1 };
        let oj = if j < k { j } else { j - 1 };
        if i != k && j != k {
            assert(n[i] == ms[oi] && n[j] == ms[oj]);
        } else if i == k {
            assert(n[j] == ms[oj]);
        } else {
            assert(n[i] == ms[oi]);
        }
    }
    if k < ms.len() {
        lemma_text_le_total(ms[k].full_name@, m.full_name@);
    }
    assert forall|i: int, j: int|
        #![trigger n[i], n[j]]
        0 <= i < j < n.len() implies text_le(n[i].full_name@, n[j].full_name@) by {
        if j < k {
            assert(n[i] == ms[i] && n[j] == ms[j]);
        } else if j == k {
            assert(n[i] == ms[i]);
        } else if i == k {
            assert(n[j] == ms[j - 1]);
            if j - 1 > k {
                lemma_text_le_transitive(m.full_name@, ms[k].full_name@, ms[j - 1].full_name@);
            }
        } else if i < k {
            assert(n[i] == ms[i] && n[j] == ms[j - 1]);
        } else {
            assert(n[i] == ms[i - 1] && n[j] == ms[j - 1]);
        }
    }
}

/// Removing a member keeps the member table well formed and every other member.
pub(crate) proof fn lemma_members_remove(ms: Seq<Member>, i: int, next_id: int)
    requires
        members_wf(ms, next_id),
        0 <= i < ms.len(),
    ensures
        members_wf(ms.remove(i), next_id),
        forall|j: int| 0 <= j < ms.remove(i).len() ==> (#[trigger] ms.remove(i)[j]).id != ms[i].id,
        forall|id: i64| id != ms[i].id && has_member(ms, id) ==> has_member(ms.remove(i), id),
{
    let n = ms.remove(i);
    assert forall|a: int| 0 <= a < n.len() implies 1 <= (#[trigger] n[a]).id < next_id && n[a].id
        != ms[i].id by {
        if a < i {
            assert(n[a] == ms[a]);
        } else {
            assert(n[a] == ms[a + 1]);
        }
    }
    assert forall|a: int, b: int|
        #![trigger n[a], n[b]]
        0 <= a < n.len() && 0 <= b < n.len() && a != b implies n[a].id != n[b].id
            && n[a].card_number@ != n[b].card_number@ by {
        let oa = if a < i { a } else { a + 1 };
        let ob = if b < i { b } else { b + 1 };
        assert(n[a] == ms[oa] && n[b] == ms[ob]);
    }
    assert forall|a: int, b: int|
        #![trigger n[a], n[b]]
        0 <= a < b < n.len() implies text_le(n[a].full_name@, n[b].full_name@) by {
        let oa = if a < i { a } else { a + 1 };
        let ob = if b < i { b } else { b + 1 };
        assert(n[a] == ms[oa] && n[b] == ms[ob]);
    }
    assert forall|id: i64| id != ms[i].id && has_member(ms, id) implies has_member(n, id) by {
        let j = choose|j: int| 0 <= j < ms.len() && (#[trigger] ms[j]).id == id;
        if j < i {
            assert(n[j] == ms[j]);
        } else {
            assert(n[j - 1] == ms[j]);
        }
    }
}

/// Inserting a member keeps every member that was there.
pub(crate) proof fn lemma_has_member_insert(ms: Seq<Member>, k: int, m: Member)
    requires
        0 <= k <= ms.len(),
    ensures
        forall|id: i64| has_member(ms, id) ==> has_member(ms.insert(k, m), id),
{
    let n = ms.insert(k, m);
    assert forall|id: i64| has_member(ms, id) implies has_member(n, id) by {
        let j = choose|j: int| 0 <= j < ms.len() && (#[trigger] ms[j]).id == id;
        if j < k {
            assert(n[j] == ms[j]);
        } else {
            assert(n[j + 1] == ms[j]);
        }
    }
}

/// `b` is `a` with only its category changed, to `t`.
pub open spec fn retyped(a: Member, b: Member, t: Seq<char>) -> bool {
    &&& b.member_type@ == t
    &&& b.id == a.id
    &&& b.card_number == a.card_number
    &&& b.full_name == a.full_name
    &&& b.address == a.address
    &&& b.phone == a.phone
    &&& b.job == a.job
    &&& b.gender == a.gender
    &&& b.created_at == a.created_at
}

/// How many of the members have an identifier listed in `ids`.
pub open spec fn count_listed(ms: Seq<Member>, ids: Seq<i64>) -> nat
    decreases ms.len(),
{
    if ms.len() == 0 {
        0
    } else {
        count_listed(ms.drop_last(), ids) + if ids.contains(ms.last().id) {
            1nat
        } else {
            0nat
        }
    }
}

/// The contributions that do not belong to member `id`, in store order.
pub open spec fn contributions_without(cs: Seq<Contribution>, id: i64) -> Seq<Contribution>
    decreases cs.len(),
{
    if cs.len() == 0 {
        Seq::empty()
    } else {
        let before = contributions_without(cs.drop_last(), id);
        if cs.last().member_id != id {
            before.push(cs.last())
        } else {
            before
        }
    }
}

/// Every year of the summaries has a total that fits.
pub open spec fn all_fresh(ss: Seq<YearSummary>, cs: Seq<Contribution>) -> bool {
    forall|j: int| 0 <= j < ss.len() ==> (#[trigger] fresh_total(cs, ss[j].year)) is Some
}

/// The summaries with every total computed afresh from the contributions.
pub open spec fn refreshed(ss: Seq<YearSummary>, cs: Seq<Contribution>) -> Seq<YearSummary> {
    Seq::new(
        ss.len(),
        |j: int|
            YearSummary {
                year: ss[j].year,
                total: fresh_total(cs, ss[j].year).unwrap(),
                closed_at: ss[j].closed_at,
                note: ss[j].note,
            },
    )
}

/// Every contribution's amount lies in range.
pub open spec fn amounts_wf(cs: Seq<Contribution>) -> bool {
    forall|i: int| 0 <= i < cs.len() ==> (#[trigger] cs[i]).amount.wf()
}

/// The amounts of year `y`, in store order.
pub(crate) fn collect_year_amounts(cs: &Vec<Contribution>, y: i32) -> (r: Vec<Amount>)
    requires
        amounts_wf(cs@),
    ensures
        r@ == year_amounts(cs@, y),
        all_wf(r@),
{
    let mut r: Vec<Amount> = Vec::new();
    let mut i: usize = 0;
    while i < cs.len()
        invariant
            i <= cs@.len(),
            amounts_wf(cs@),
            r@ == year_amounts(cs@.take(i as int), y),
            all_wf(r@),
        decreases cs@.len() - i,
    {
        assert(cs@.take(i + 1).drop_last() == cs@.take(i as int));
        if cs[i].recorded_year == y {
            r.push(cs[i].amount);
        }
        i = i + 1;
    }
    assert(cs@.take(cs@.len() as int) == cs@);
    r
}

/// The total of year `y` computed afresh from the contributions.
pub(crate) fn year_total(cs: &Vec<Contribution>, y: i32) -> (r: Option<Amount>)
    requires
        amounts_wf(cs@),
    ensures
        r == fresh_total(cs@, y),
        r matches Some(t) ==> t.wf(),
{
    let amounts = collect_year_amounts(cs, y);
    sum_amounts(&amounts)
}

/// Every summary with its total computed afresh; `None` when some total does not fit.
pub(crate) fn refresh_all(cs: &Vec<Contribution>, ss: &Vec<YearSummary>) -> (r: Option<Vec<YearSummary>>)
    requires
        amounts_wf(cs@),
    ensures
        r is Some <==> all_fresh(ss@, cs@),
        r matches Some(v) ==> v@ == refreshed(ss@, cs@),
{
    let mut v: Vec<YearSummary> = Vec::new();
    let mut j: usize = 0;
    while j < ss.len()
        invariant
            j <= ss@.len(),
            amounts_wf(cs@),
            v@ == refreshed(ss@, cs@).take(j as int),
            forall|k: int| 0 <= k < j ==> (#[trigger] fresh_total(cs@, ss@[k].year)) is Some,
        decreases ss@.len() - j,
    {
        let s = &ss[j];
        match year_total(cs, s.year) {
            Some(t) => {
                v.push(
                    YearSummary {
                        year: s.year,
                        total: t,
                        closed_at: clone_opt(&s.closed_at),
                        note: clone_opt(&s.note),
                    },
                );
                assert(refreshed(ss@, cs@).take(j + 1) == refreshed(ss@, cs@).take(j as int).push(
                    refreshed(ss@, cs@)[j as int],
                ));
            },
            None => {
                return None;
            },
        }
        j = j + 1;
    }
    assert(refreshed(ss@, cs@).take(ss@.len() as int) == refreshed(ss@, cs@));
    Some(v)
}

/// Summaries whose totals were all computed afresh are well formed.
pub(crate) proof fn lemma_refreshed_wf(ss: Seq<YearSummary>, cs: Seq<Contribution>)
    requires
        forall|i: int, j: int|
            #![trigger ss[i], ss[j]]
            0 <= i < j < ss.len() ==> ss[i].year < ss[j].year,
        all_fresh(ss, cs),
    ensures
        summaries_wf(refreshed(ss, cs), cs),
{
    let n = refreshed(ss, cs);
    assert forall|i: int, j: int|
        #![trigger n[i], n[j]]
        0 <= i < j < n.len() implies n[i].year < n[j].year by {
        assert(n[i].year == ss[i].year && n[j].year == ss[j].year);
    }
    assert forall|i: int| 0 <= i < n.len() implies fresh_total(cs, (#[trigger] n[i]).year) == Some(
        n[i].total,
    ) by {
        assert(fresh_total(cs, ss[i].year) is Some);
    }
}

/// Whether `id` is in the list.
pub(crate) fn listed(ids: &[i64], id: i64) -> (r: bool)
    ensures
        r == ids@.contains(id),
{
    let mut i: usize = 0;
    while i < ids.len()
        invariant
            i <= ids@.len(),
            forall|k: int| 0 <= k < i ==> ids@[k] != id,
        decreases ids@.len() - i,
    {
        if ids[i] == id {
            assert(ids@[i as int] == id);
            return true;
        }
        i = i + 1;
    }
    false
}

/// The summaries are in increasing order of year, one per year.
pub open spec fn years_sorted(ss: Seq<YearSummary>) -> bool {
    forall|i: int, j: int|
        #![trigger ss[i], ss[j]]
        0 <= i < j < ss.len() ==> ss[i].year < ss[j].year
}

/// `after` is `before` with the total of year `y` set to `t`: the summary of that
/// year keeps its closing date and note, and a new one is open and without note.
pub open spec fn upserted(before: Seq<YearSummary>, after: Seq<YearSummary>, y: i32, t: Amount) -> bool {
    &&& has_year(before, y) ==> {
        &&& after.len() == before.len()
        &&& forall|j: int|
            0 <= j < before.len() ==> if (#[trigger] before[j]).year == y {
                after[j] == YearSummary {
                    year: y,
                    total: t,
                    closed_at: before[j].closed_at,
                    note: before[j].note,
                }
            } else {
                after[j] == before[j]
            }
    }
    &&& !has_year(before, y) ==> exists|k: int|
        0 <= k <= before.len() && after == before.insert(
            k,
            YearSummary { year: y, total: t, closed_at: None, note: None },
        )
}

/// The contribution an input gives, under an identifier, once its amount and year are read.
pub open spec fn contribution_from(input: ContributionInput, id: i64, amount: Amount, year: i32) -> Contribution {
    Contribution {
        id,
        member_id: input.member_id,
        payment_date: input.payment_date,
        period: input.period,
        amount,
        recorded_year: year,
    }
}

/// `after` is `before` with `c` inserted at some place.
pub open spec fn inserted_somewhere(before: Seq<Contribution>, after: Seq<Contribution>, c: Contribution) -> bool {
    exists|k: int| 0 <= k <= before.len() && after == before.insert(k, c)
}

/// Some contribution has the identifier `id`.
pub open spec fn has_contribution(cs: Seq<Contribution>, id: i64) -> bool {
    exists|j: int| 0 <= j < cs.len() && (#[trigger] cs[j]).id == id
}

/// The amounts of a year in two runs of contributions are those of each run, in turn.
pub proof fn lemma_year_amounts_concat(a: Seq<Contribution>, b: Seq<Contribution>, y: i32)
    ensures
        year_amounts(a + b, y) == year_amounts(a, y) + year_amounts(b, y),
    decreases b.len(),
{
    if b.len() == 0 {
        assert(a + b == a);
        assert(year_amounts(a, y) + year_amounts(b, y) == year_amounts(a, y));
    } else {
        assert((a + b).drop_last() == a + b.drop_last());
        assert((a + b).last() == b.last());
        lemma_year_amounts_concat(a, b.drop_last(), y);
        if b.last().recorded_year == y {
            assert(year_amounts(a, y) + year_amounts(b.drop_last(), y).push(b.last().amount) == (
            year_amounts(a, y) + year_amounts(b.drop_last(), y)).push(b.last().amount));
        }
    }
}

/// The amounts of a year in a single contribution.
pub proof fn lemma_year_amounts_single(c: Contribution, y: i32)
    ensures
        year_amounts(seq![c], y) == if c.recorded_year == y {
            seq![c.amount]
        } else {
            Seq::<Amount>::empty()
        },
{
    assert(seq![c].drop_last() == Seq::<Contribution>::empty());
    assert(year_amounts(Seq::<Contribution>::empty(), y) == Seq::<Amount>::empty());
    assert(seq![c].last() == c);
    assert(Seq::<Amount>::empty().push(c.amount) == seq![c.amount]);
}

/// Inserting a contribution adds its amount to its own year and leaves every other year alone.
pub proof fn lemma_year_amounts_insert(cs: Seq<Contribution>, k: int, c: Contribution)
    requires
        0 <= k <= cs.len(),
    ensures
        fresh_total(cs.insert(k, c), c.recorded_year) == total_of(
            year_amounts(cs, c.recorded_year).push(c.amount),
        ),
        forall|y: i32| y != c.recorded_year ==> year_amounts(cs.insert(k, c), y) == year_amounts(cs, y),
{
    let a = cs.take(k);
    let b = cs.skip(k);
    assert(cs.insert(k, c) == a + seq![c] + b);
    assert(cs == a + b);
    assert forall|y: i32| true implies year_amounts(cs.insert(k, c), y) == year_amounts(a, y)
        + year_amounts(seq![c], y) + year_amounts(b, y) && year_amounts(cs, y) == year_amounts(a, y)
        + year_amounts(b, y) by {
        lemma_year_amounts_concat(a + seq![c], b, y);
        lemma_year_amounts_concat(a, seq![c], y);
        lemma_year_amounts_concat(a, b, y);
    }
    assert forall|y: i32| y != c.recorded_year implies year_amounts(cs.insert(k, c), y) == year_amounts(cs, y) by {
        lemma_year_amounts_single(c, y);
        assert(year_amounts(a, y) + Seq::<Amount>::empty() == year_amounts(a, y));
    }
    let y = c.recorded_year;
    lemma_year_amounts_single(c, y);
    lemma_total_middle(year_amounts(a, y), c.amount, year_amounts(b, y));
}

/// Removing a contribution leaves every other year alone.
pub(crate) proof fn lemma_year_amounts_remove(cs: Seq<Contribution>, i: int)
    requires
        0 <= i < cs.len(),
    ensures
        forall|y: i32| y != cs[i].recorded_year ==> year_amounts(cs.remove(i), y) == year_amounts(cs, y),
{
    let c = cs[i];
    let a = cs.take(i);
    let b = cs.skip(i + 1);
    assert(cs.remove(i) == a + b);
    assert(cs == a + seq![c] + b);
    assert forall|y: i32| y != c.recorded_year implies year_amounts(cs.remove(i), y) == year_amounts(cs, y) by {
        lemma_year_amounts_concat(a + seq![c], b, y);
        lemma_year_amounts_concat(a, seq![c], y);
        lemma_year_amounts_concat(a, b, y);
        lemma_year_amounts_single(c, y);
        assert(year_amounts(a, y) + Seq::<Amount>::empty() == year_amounts(a, y));
    }
}

/// The place of contribution `id`, if any.
pub(crate) fn find_contribution(cs: &Vec<Contribution>, id: i64) -> (r: Option<usize>)
    ensures
        r is Some <==> has_contribution(cs@, id),
        r matches Some(i) ==> i < cs@.len() && cs@[i as int].id == id,
{
    let mut i: usize = 0;
    while i < cs.len()
        invariant
            i <= cs@.len(),
            forall|k: int| 0 <= k < i ==> (#[trigger] cs@[k]).id != id,
        decreases cs@.len() - i,
    {
        if cs[i].id == id {
            return Some(i);
        }
        i = i + 1;
    }
    None
}

/// Where a contribution paid on `date` goes: after every one paid no later.
pub(crate) fn date_position(cs: &Vec<Contribution>, date: &str) -> (k: usize)
    ensures
        k <= cs@.len(),
        forall|i: int| 0 <= i < k ==> text_le((#[trigger] cs@[i]).payment_date@, date@),
        k < cs@.len() ==> !text_le(cs@[k as int].payment_date@, date@),
{
    let mut k: usize = 0;
    while k < cs.len()
        invariant
            k <= cs@.len(),
            forall|i: int| 0 <= i < k ==> text_le((#[trigger] cs@[i]).payment_date@, date@),
        decreases cs@.len() - k,
    {
        if !text_le_exec(cs[k].payment_date.as_str(), date) {
            return k;
        }
        k = k + 1;
    }
    k
}

/// Inserting a new contribution at its place by date keeps the table well formed.
pub(crate) proof fn lemma_contributions_insert(
    cs: Seq<Contribution>,
    ms: Seq<Member>,
    k: int,
    c: Contribution,
    next_id: int,
    new_next: int,
)
    requires
        contributions_wf(cs, ms, next_id),
        0 <= k <= cs.len(),
        forall|i: int| 0 <= i < k ==> text_le((#[trigger] cs[i]).payment_date@, c.payment_date@),
        k < cs.len() ==> !text_le(cs[k].payment_date@, c.payment_date@),
        1 <= c.id < new_next,
        next_id <= new_next,
        forall|i: int| 0 <= i < cs.len() ==> (#[trigger] cs[i]).id != c.id,
        has_member(ms, c.member_id),
        c.amount.wf(),
        date_year_of(c.payment_date@) == Some(c.recorded_year),
    ensures
        contributions_wf(cs.insert(k, c), ms, new_next),
{
    let n = cs.insert(k, c);
    assert forall|i: int| 0 <= i < n.len() implies 1 <= (#[trigger] n[i]).id < new_next
        && has_member(ms, n[i].member_id) && n[i].amount.wf() && date_year_of(n[i].payment_date@)
        == Some(n[i].recorded_year) by {
        if i < k {
            assert(n[i] == cs[i]);
        } else if i > k {
            assert(n[i] == cs[i - 1]);
        }
    }
    assert forall|i: int, j: int|
        #![trigger n[i], n[j]]
        0 <= i < n.len() && 0 <= j < n.len() && i != j implies n[i].id != n[j].id by {
        let oi = if i < k { i } else { i - 1 };
        let oj = if j < k { j } else { j - 1 };
        if i != k && j != k {
            assert(n[i] == cs[oi] && n[j] == cs[oj]);
        } else if i == k {
            assert(n[j] == cs[oj]);
        } else {
            assert(n[i] == cs[oi]);
        }
    }
    if k < cs.len() {
        lemma_text_le_total(cs[k].payment_date@, c.payment_date@);
    }
    assert forall|i: int, j: int|
        #![trigger n[i], n[j]]
        0 <= i < j < n.len() implies text_le(n[i].payment_date@, n[j].payment_date@) by {
        if j < k {
            assert(n[i] == cs[i] && n[j] == cs[j]);
        } else if j == k {
            assert(n[i] == cs[i]);
        } else if i == k {
            assert(n[j] == cs[j - 1]);
            if j - 1 > k {
                lemma_text_le_transitive(c.payment_date@, cs[k].payment_date@, cs[j - 1].payment_date@);
            }
        } else if i < k {
            assert(n[i] == cs[i] && n[j] == cs[j - 1]);
        } else {
            assert(n[i] == cs[i - 1] && n[j] == cs[j - 1]);
        }
    }
}

/// Removing a contribution keeps the table well formed.
pub(crate) proof fn lemma_contributions_remove(cs: Seq<Contribution>, ms: Seq<Member>, i: int, next_id: int)
    requires
        contributions_wf(cs, ms, next_id),
        0 <= i < cs.len(),
    ensures
        contributions_wf(cs.remove(i), ms, next_id),
{
    let n = cs.remove(i);
    assert forall|a: int| 0 <= a < n.len() implies 1 <= (#[trigger] n[a]).id < next_id
        && has_member(ms, n[a].member_id) && n[a].amount.wf() && date_year_of(n[a].payment_date@)
        == Some(n[a].recorded_year) by {
        if a < i {
            assert(n[a] == cs[a]);
        } else {
            assert(n[a] == cs[a + 1]);
        }
    }
    assert forall|a: int, b: int|
        #![trigger n[a], n[b]]
        0 <= a < n.len() && 0 <= b < n.len() && a != b implies n[a].id != n[b].id by {
        let oa = if a < i { a } else { a + 1 };
        let ob = if b < i { b } else { b + 1 };
        assert(n[a] == cs[oa] && n[b] == cs[ob]);
    }
    assert forall|a: int, b: int|
        #![trigger n[a], n[b]]
        0 <= a < b < n.len() implies text_le(n[a].payment_date@, n[b].payment_date@) by {
        let oa = if a < i { a } else { a + 1 };
        let ob = if b < i { b } else { b + 1 };
        assert(n[a] == cs[oa] && n[b] == cs[ob]);
    }
}

/// Sets the total of year `y` to `t`, adding a summary for the year if it has none.
pub(crate) fn upsert_total(ss: &mut Vec<YearSummary>, y: i32, t: Amount)
    requires
        years_sorted(old(ss)@),
    ensures
        years_sorted(final(ss)@),
        upserted(old(ss)@, final(ss)@, y, t),
        forall|j: int| 0 <= j < final(ss)@.len() ==> (#[trigger] final(ss)@[j]).year == y || exists|i: int|
            0 <= i < old(ss)@.len() && old(ss)@[i] == final(ss)@[j],
{
    let ghost before = ss@;
    let mut k: usize = 0;
    while k < ss.len() && ss[k].year < y
        invariant
            ss@ == before,
            k <= ss@.len(),
            forall|i: int| 0 <= i < k ==> (#[trigger] ss@[i]).year < y,
        decreases ss@.len() - k,
    {
        k = k + 1;
    }
    if k < ss.len() && ss[k].year == y {
        let s = YearSummary {
            year: y,
            total: t,
            closed_at: clone_opt(&ss[k].closed_at),
            note: clone_opt(&ss[k].note),
        };
        ss.set(k, s);
        proof {
            assert forall|j: int| 0 <= j < before.len() && (#[trigger] before[j]).year == y implies j == k by {
                if j < k {
                } else if j > k {
                    assert(before[k as int].year < before[j].year);
                }
            }
            assert(has_year(before, y)) by {
                assert(before[k as int].year == y);
            }
            assert forall|i: int, j: int|
                #![trigger ss@[i], ss@[j]]
                0 <= i < j < ss@.len() implies ss@[i].year < ss@[j].year by {
                assert(before[i].year < before[j].year);
            }
            assert forall|j: int| 0 <= j < ss@.len() implies (#[trigger] ss@[j]).year == y || exists|i: int|
                0 <= i < before.len() && before[i] == ss@[j] by {
                if j != k {
                    assert(before[j] == ss@[j]);
                }
            }
        }
    } else {
        let s = YearSummary { year: y, total: t, closed_at: None, note: None };
        ss.insert(k, s);
        proof {
            assert(!has_year(before, y)) by {
                if has_year(before, y) {
                    let j = choose|j: int| 0 <= j < before.len() && (#[trigger] before[j]).year == y;
                    if j < k {
                    } else if j > k {
                        assert(before[k as int].year < before[j].year);
                    }
                }
            }
            assert forall|i: int, j: int|
                #![trigger ss@[i], ss@[j]]
                0 <= i < j < ss@.len() implies ss@[i].year < ss@[j].year by {
                if j < k {
                    assert(ss@[i] == before[i] && ss@[j] == before[j]);
                } else if j == k {
                    assert(ss@[i] == before[i]);
                } else if i == k {
                    assert(ss@[j] == before[j - 1]);
                    if j - 1 > k {
                        assert(before[k as int].year < before[j - 1].year);
                    }
                } else if i < k {
                    assert(ss@[i] == before[i] && ss@[j] == before[j - 1]);
                } else {
                    assert(ss@[i] == before[i - 1] && ss@[j] == before[j - 1]);
                }
            }
            assert forall|j: int| 0 <= j < ss@.len() implies (#[trigger] ss@[j]).year == y || exists|i: int|
                0 <= i < before.len() && before[i] == ss@[j] by {
                if j < k {
                    assert(before[j] == ss@[j]);
                } else if j > k {
                    assert(before[j - 1] == ss@[j]);
                }
            }
        }
    }
}

/// After one year's total is set afresh, and no other year's contributions
/// changed, every total is fresh.
pub(crate) proof fn lemma_upsert_fresh(
    old_ss: Seq<YearSummary>,
    ns: Seq<YearSummary>,
    old_cs: Seq<Contribution>,
    ncs: Seq<Contribution>,
    year: i32,
    total: Amount,
)
    requires
        summaries_wf(old_ss, old_cs),
        years_sorted(ns),
        upserted(old_ss, ns, year, total),
        forall|j: int| 0 <= j < ns.len() ==> (#[trigger] ns[j]).year == year || exists|i: int|
            0 <= i < old_ss.len() && old_ss[i] == ns[j],
        fresh_total(ncs, year) == Some(total),
        forall|y: i32| y != year ==> year_amounts(ncs, y) == year_amounts(old_cs, y),
    ensures
        summaries_wf(ns, ncs),
{
    assert forall|j: int| 0 <= j < ns.len() implies fresh_total(ncs, (#[trigger] ns[j]).year)
        == Some(ns[j].total) by {
        if ns[j].year == year {
            if has_year(old_ss, year) {
                assert(old_ss[j].year == year);
            } else {
                let kk = choose|kk: int| 0 <= kk <= old_ss.len() && ns == old_ss.insert(
                    kk,
                    YearSummary { year: year, total: total, closed_at: None, note: None },
                );
                if j < kk {
                    assert(ns[j] == old_ss[j]);
                    assert(has_year(old_ss, year));
                } else if j > kk {
                    assert(ns[j] == old_ss[j - 1]);
                    assert(has_year(old_ss, year));
                }
            }
        } else {
            let i = choose|i: int| 0 <= i < old_ss.len() && old_ss[i] == ns[j];
            assert(fresh_total(old_cs, old_ss[i].year) == Some(old_ss[i].total));
        }
    }
}

/// `after` is `before` with `s` as the summary of its year: in place of the
/// year's summary if there was one, else added.
pub open spec fn put(before: Seq<YearSummary>, after: Seq<YearSummary>, s: YearSummary) -> bool {
    &&& has_year(before, s.year) ==> {
        &&& after.len() == before.len()
        &&& forall|j: int|
            0 <= j < before.len() ==> if (#[trigger] before[j]).year == s.year {
                after[j] == s
            } else {
                after[j] == before[j]
            }
    }
    &&& !has_year(before, s.year) ==> exists|k: int| 0 <= k <= before.len() && after == before.insert(k, s)
}

/// The summary a year gets when it is closed with `note` at `closed_at`.
pub open spec fn closed_summary(cs: Seq<Contribution>, year: i32, note: Option<String>, closed_at: String) -> YearSummary {
    YearSummary {
        year,
        total: fresh_total(cs, year).unwrap(),
        closed_at: Some(closed_at),
        note,
    }
}

/// The place of the summary of year `y`, if any.
pub(crate) fn find_year(ss: &Vec<YearSummary>, y: i32) -> (r: Option<usize>)
    ensures
        r is Some <==> has_year(ss@, y),
        r matches Some(j) ==> j < ss@.len() && ss@[j as int].year == y,
{
    let mut j: usize = 0;
    while j < ss.len()
        invariant
            j <= ss@.len(),
            forall|k: int| 0 <= k < j ==> (#[trigger] ss@[k]).year != y,
        decreases ss@.len() - j,
    {
        if ss[j].year == y {
            return Some(j);
        }
        j = j + 1;
    }
    None
}

/// Makes `s` the summary of its year.
pub(crate) fn put_summary(ss: &mut Vec<YearSummary>, s: YearSummary)
    requires
        years_sorted(old(ss)@),
    ensures
        years_sorted(final(ss)@),
        put(old(ss)@, final(ss)@, s),
        forall|j: int| 0 <= j < final(ss)@.len() ==> (#[trigger] final(ss)@[j]).year == s.year || exists|i: int|
            0 <= i < old(ss)@.len() && old(ss)@[i] == final(ss)@[j],
        forall|j: int| 0 <= j < final(ss)@.len() && (#[trigger] final(ss)@[j]).year == s.year ==> final(ss)@[j] == s,
{
    let ghost before = ss@;
    let mut k: usize = 0;
    while k < ss.len() && ss[k].year < s.year
        invariant
            ss@ == before,
            k <= ss@.len(),
            forall|i: int| 0 <= i < k ==> (#[trigger] ss@[i]).year < s.year,
        decreases ss@.len() - k,
    {
        k = k + 1;
    }
    let ghost y = s.year;
    if k < ss.len() && ss[k].year == s.year {
        ss.set(k, s);
        proof {
            assert forall|j: int| 0 <= j < before.len() && (#[trigger] before[j]).year == y implies j == k by {
                if j > k {
                    assert(before[k as int].year < before[j].year);
                }
            }
            assert(has_year(before, y)) by {
                assert(before[k as int].year == y);
            }
            assert forall|i: int, j: int|
                #![trigger ss@[i], ss@[j]]
                0 <= i < j < ss@.len() implies ss@[i].year < ss@[j].year by {
                assert(before[i].year < before[j].year);
            }
            assert forall|j: int| 0 <= j < ss@.len() implies (#[trigger] ss@[j]).year == y || exists|i: int|
                0 <= i < before.len() && before[i] == ss@[j] by {
                if j != k {
                    assert(before[j] == ss@[j]);
                }
            }
        }
    } else {
        ss.insert(k, s);
        proof {
            assert(!has_year(before, y)) by {
                if has_year(before, y) {
                    let j = choose|j: int| 0 <= j < before.len() && (#[trigger] before[j]).year == y;
                    if j > k {
                        assert(before[k as int].year < before[j].year);
                    }
                }
            }
            assert forall|i: int, j: int|
                #![trigger ss@[i], ss@[j]]
                0 <= i < j < ss@.len() implies ss@[i].year < ss@[j].year by {
                if j < k {
                    assert(ss@[i] == before[i] && ss@[j] == before[j]);
                } else if j == k {
                    assert(ss@[i] == before[i]);
                } else if i == k {
                    assert(ss@[j] == before[j - 1]);
                    if j - 1 > k {
                        assert(before[k as int].year < before[j - 1].year);
                    }
                } else if i < k {
                    assert(ss@[i] == before[i] && ss@[j] == before[j - 1]);
                } else {
                    assert(ss@[i] == before[i - 1] && ss@[j] == before[j - 1]);
                }
            }
            assert forall|j: int| 0 <= j < ss@.len() implies (#[trigger] ss@[j]).year == y || exists|i: int|
                0 <= i < before.len() && before[i] == ss@[j] by {
                if j < k {
                    assert(before[j] == ss@[j]);
                } else if j > k {
                    assert(before[j - 1] == ss@[j]);
                }
            }
            assert forall|j: int| 0 <= j < ss@.len() && (#[trigger] ss@[j]).year == y implies ss@[j] == s by {
                if j < k {
                    assert(before[j] == ss@[j]);
                    assert(has_year(before, y));
                } else if j > k {
                    assert(before[j - 1] == ss@[j]);
                    assert(has_year(before, y));
                }
            }
        }
    }
}

/// After one summary is replaced by one with a fresh total, every total is fresh.
pub(crate) proof fn lemma_put_fresh(old_ss: Seq<YearSummary>, ns: Seq<YearSummary>, cs: Seq<Contribution>, s: YearSummary)
    requires
        summaries_wf(old_ss, cs),
        years_sorted(ns),
        forall|j: int| 0 <= j < ns.len() ==> (#[trigger] ns[j]).year == s.year || exists|i: int|
            0 <= i < old_ss.len() && old_ss[i] == ns[j],
        forall|j: int| 0 <= j < ns.len() && (#[trigger] ns[j]).year == s.year ==> ns[j] == s,
        fresh_total(cs, s.year) == Some(s.total),
    ensures
        summaries_wf(ns, cs),
{
    assert forall|j: int| 0 <= j < ns.len() implies fresh_total(cs, (#[trigger] ns[j]).year) == Some(ns[j].total) by {
        if ns[j].year != s.year {
            let i = choose|i: int| 0 <= i < old_ss.len() && old_ss[i] == ns[j];
            assert(fresh_total(cs, old_ss[i].year) == Some(old_ss[i].total));
        }
    }
}

/// The contributions of member `id`, in order of payment date.
pub open spec fn contributions_of_member(cs: Seq<Contribution>, id: i64) -> Seq<Contribution>
    decreases cs.len(),
{
    if cs.len() == 0 {
        Seq::empty()
    } else {
        let before = contributions_of_member(cs.drop_last(), id);
        if cs.last().member_id == id {
            before.push(cs.last())
        } else {
            before
        }
    }
}

/// The contributions recorded in year `y`, in order of payment date.
pub open spec fn contributions_of_year(cs: Seq<Contribution>, y: i32) -> Seq<Contribution>
    decreases cs.len(),
{
    if cs.len() == 0 {
        Seq::empty()
    } else {
        let before = contributions_of_year(cs.drop_last(), y);
        if cs.last().recorded_year == y {
            before.push(cs.last())
        } else {
            before
        }
    }
}

/// A contribution joined with the member who made it.
pub open spec fn joined(c: Contribution, m: Member) -> ContributionWithMember {
    ContributionWithMember {
        id: c.id,
        member_id: c.member_id,
        member_name: m.full_name,
        payment_date: c.payment_date,
        period: c.period,
        amount: c.amount,
        recorded_year: c.recorded_year,
    }
}

/// `row` is `c` joined with its member among `ms`.
pub open spec fn joined_row(ms: Seq<Member>, c: Contribution, row: ContributionWithMember) -> bool {
    exists|j: int| 0 <= j < ms.len() && (#[trigger] ms[j]).id == c.member_id && row == joined(c, ms[j])
}

/// A member with the text of their total.
pub open spec fn with_total(m: Member, total: String) -> MemberWithTotal {
    MemberWithTotal {
        id: m.id,
        card_number: m.card_number,
        full_name: m.full_name,
        address: m.address,
        phone: m.phone,
        job: m.job,
        gender: m.gender,
        member_type: m.member_type,
        created_at: m.created_at,
        total_contributions: total,
    }
}

/// The contributions of member `id`, in store order.
pub(crate) fn select_by_member(cs: &Vec<Contribution>, id: i64) -> (r: Vec<Contribution>)
    ensures
        r@ == contributions_of_member(cs@, id),
{
    let mut r: Vec<Contribution> = Vec::new();
    let mut i: usize = 0;
    while i < cs.len()
        invariant
            i <= cs@.len(),
            r@ == contributions_of_member(cs@.take(i as int), id),
        decreases cs@.len() - i,
    {
        assert(cs@.take(i + 1).drop_last() == cs@.take(i as int));
        if cs[i].member_id == id {
            r.push(cs[i].cloned());
        }
        i = i + 1;
    }
    assert(cs@.take(cs@.len() as int) == cs@);
    r
}

/// The contributions of year `y`, in store order.
pub(crate) fn select_by_year(cs: &Vec<Contribution>, y: i32) -> (r: Vec<Contribution>)
    ensures
        r@ == contributions_of_year(cs@, y),
{
    let mut r: Vec<Contribution> = Vec::new();
    let mut i: usize = 0;
    while i < cs.len()
        invariant
            i <= cs@.len(),
            r@ == contributions_of_year(cs@.take(i as int), y),
        decreases cs@.len() - i,
    {
        assert(cs@.take(i + 1).drop_last() == cs@.take(i as int));
        if cs[i].recorded_year == y {
            r.push(cs[i].cloned());
        }
        i = i + 1;
    }
    assert(cs@.take(cs@.len() as int) == cs@);
    r
}

/// The contributions in reverse order.
pub(crate) fn reversed(v: Vec<Contribution>) -> (r: Vec<Contribution>)
    ensures
        r@ == v@.reverse(),
{
    let n = v.len();
    let mut r: Vec<Contribution> = Vec::new();
    let mut j: usize = 0;
    while j < n
        invariant
            n == v@.len(),
            j <= n,
            r@ == v@.reverse().take(j as int),
        decreases n - j,
    {
        r.push(v[n - 1 - j].cloned());
        assert(v@.reverse().take(j + 1) == v@.reverse().take(j as int).push(v@[n - 1 - j]));
        j = j + 1;
    }
    assert(v@.reverse().take(n as int) == v@.reverse());
    r
}

/// The amounts of member `id`, in store order.
pub(crate) fn collect_member_amounts(cs: &Vec<Contribution>, id: i64) -> (r: Vec<Amount>)
    requires
        amounts_wf(cs@),
    ensures
        r@ == member_amounts(cs@, id),
        all_wf(r@),
{
    let mut r: Vec<Amount> = Vec::new();
    let mut i: usize = 0;
    while i < cs.len()
        invariant
            i <= cs@.len(),
            amounts_wf(cs@),
            r@ == member_amounts(cs@.take(i as int), id),
            all_wf(r@),
        decreases cs@.len() - i,
    {
        assert(cs@.take(i + 1).drop_last() == cs@.take(i as int));
        if cs[i].member_id == id {
            r.push(cs[i].amount);
        }
        i = i + 1;
    }
    assert(cs@.take(cs@.len() as int) == cs@);
    r
}

/// The contributions of a year are all owned by existing members.
pub(crate) proof fn lemma_year_selection_members(cs: Seq<Contribution>, ms: Seq<Member>, y: i32)
    requires
        forall|i: int| 0 <= i < cs.len() ==> has_member(ms, (#[trigger] cs[i]).member_id),
    ensures
        forall|a: int|
            0 <= a < contributions_of_year(cs, y).len() ==> has_member(
                ms,
                (#[trigger] contributions_of_year(cs, y)[a]).member_id,
            ),
    decreases cs.len(),
{
    if cs.len() > 0 {
        let t = cs.drop_last();
        assert forall|i: int| 0 <= i < t.len() implies has_member(ms, (#[trigger] t[i]).member_id) by {
            assert(t[i] == cs[i]);
        }
        lemma_year_selection_members(t, ms, y);
        assert(cs.last() == cs[cs.len() - 1]);
        let sel = contributions_of_year(cs, y);
        let prev = contributions_of_year(t, y);
        assert forall|a: int| 0 <= a < sel.len() implies has_member(ms, (#[trigger] sel[a]).member_id) by {
            if a < prev.len() {
                assert(sel[a] == prev[a]);
            } else {
                assert(sel[a] == cs.last());
            }
        }
    }
}

/// Dropping the contributions of one member leaves every year with no more
/// decimal places and no larger aligned sum.
pub(crate) proof fn lemma_without_smaller(cs: Seq<Contribution>, id: i64, y: i32, sc: nat)
    ensures
        max_scale(year_amounts(contributions_without(cs, id), y)) <= max_scale(year_amounts(cs, y)),
        aligned_sum(year_amounts(contributions_without(cs, id), y), sc) <= aligned_sum(
            year_amounts(cs, y),
            sc,
        ),
    decreases cs.len(),
{
    if cs.len() > 0 {
        let p = cs.drop_last();
        let c = cs.last();
        lemma_without_smaller(p, id, y, sc);
        let w = contributions_without(cs, id);
        let wp = contributions_without(p, id);
        let ywp = year_amounts(wp, y);
        let yp = year_amounts(p, y);
        let mm: int = c.amount.mantissa as int;
        let q: int = pow10((sc - c.amount.scale) as nat) as int;
        let term = c.amount.mantissa * pow10((sc - c.amount.scale) as nat);
        assert(mm * q >= 0) by (nonlinear_arith)
            requires
                mm >= 0,
                q >= 0,
        ;
        assert(term == mm * q);
        if c.member_id != id {
            assert(w == wp.push(c));
            assert(w.drop_last() == wp && w.last() == c);
            if c.recorded_year == y {
                assert(year_amounts(w, y) == ywp.push(c.amount));
                assert(year_amounts(cs, y) == yp.push(c.amount));
                assert(ywp.push(c.amount).drop_last() == ywp);
                assert(yp.push(c.amount).drop_last() == yp);
                assert(aligned_sum(ywp.push(c.amount), sc) == aligned_sum(ywp, sc) + term);
                assert(aligned_sum(yp.push(c.amount), sc) == aligned_sum(yp, sc) + term);
            } else {
                assert(year_amounts(w, y) == ywp);
                assert(year_amounts(cs, y) == yp);
            }
        } else {
            assert(w == wp);
            if c.recorded_year == y {
                assert(year_amounts(cs, y) == yp.push(c.amount));
                assert(yp.push(c.amount).drop_last() == yp);
                assert(aligned_sum(yp.push(c.amount), sc) == aligned_sum(yp, sc) + term);
            } else {
                assert(year_amounts(cs, y) == yp);
            }
        }
    }
}

/// A year whose total fits keeps a total that fits once a member's contributions are dropped.
pub(crate) proof fn lemma_without_fresh(cs: Seq<Contribution>, id: i64, y: i32)
    requires
        fresh_total(cs, y) is Some,
    ensures
        fresh_total(contributions_without(cs, id), y) is Some,
{
    lemma_without_smaller(cs, id, y, max_scale(year_amounts(cs, y)));
    lemma_total_of_smaller(year_amounts(contributions_without(cs, id), y), year_amounts(cs, y));
}

/// A year whose total fits keeps a total that fits once a contribution is removed.
pub(crate) proof fn lemma_remove_fresh(cs: Seq<Contribution>, i: int, y: i32)
    requires
        0 <= i < cs.len(),
        fresh_total(cs, y) is Some,
    ensures
        fresh_total(cs.remove(i), y) is Some,
{
    let c = cs[i];
    let a = cs.take(i);
    let b = cs.skip(i + 1);
    assert(cs.remove(i) == a + b);
    assert(cs == a + seq![c] + b);
    lemma_year_amounts_concat(a + seq![c], b, y);
    lemma_year_amounts_concat(a, seq![c], y);
    lemma_year_amounts_concat(a, b, y);
    let ya = year_amounts(a, y);
    let yc = year_amounts(seq![c], y);
    let yb = year_amounts(b, y);
    let sc = max_scale(year_amounts(cs, y));
    lemma_max_scale_concat(ya, yc);
    lemma_max_scale_concat(ya + yc, yb);
    lemma_max_scale_concat(ya, yb);
    lemma_aligned_concat(ya, yc, sc);
    lemma_aligned_concat(ya + yc, yb, sc);
    lemma_aligned_concat(ya, yb, sc);
    lemma_aligned_nonneg(yc, sc);
    lemma_total_of_smaller(year_amounts(cs.remove(i), y), year_amounts(cs, y));
}

} // verus!
