//! The registry: members, their contributions and the per-year summaries, with
//! the rules that keep them consistent.
use crate::amount::{amount_of_text, sum_amounts, total_of, Amount};
use crate::calendar::{current_year, date_year_of, now_timestamp, payment_year, MAX_YEAR, MIN_YEAR};
use crate::model::{
    clone_opt, error_text, is_member_type, AppError, Contribution, ContributionInput,
    ContributionWithMember, Member, MemberInput, MemberWithTotal, YearSummary,
};
use crate::money::{
    ariary_note, ariary_note_text, closing_note, closing_note_text, whole_text, whole_units_text,
};
use crate::text::{is_blank, same_text, text_le, trim_text, trimmed};
use crate::tables::{
    all_fresh, card_held_by_other, lemma_remove_fresh, lemma_without_fresh, totals_fit, closed_summary, collect_member_amounts, collect_year_amounts,
    contribution_from, contributions_of_member, contributions_of_year, contributions_wf,
    contributions_without, count_listed, date_position, find_contribution, find_year,
    fresh_total, has_contribution, has_member, has_year, inserted_somewhere, joined, joined_row,
    lemma_contributions_insert, lemma_contributions_remove, lemma_has_member_insert,
    lemma_members_insert, lemma_members_remove, lemma_put_fresh, lemma_refreshed_wf,
    lemma_upsert_fresh, lemma_year_amounts_insert, lemma_year_amounts_remove,
    lemma_year_selection_members, listed, member_amounts, member_from, member_input_invalid,
    members_of_type, members_sorted, members_wf, name_position, put, put_summary, refresh_all,
    refreshed, retyped, reversed, select_by_member, select_by_year, summaries_wf, upsert_total,
    upserted, with_total, year_amounts, year_total,
};
use vstd::prelude::*;

verus! {

/// The registry. Members are kept in order of full name, contributions in order
/// of payment date, and summaries in order of year, one per year.
pub struct Repository {
    members: Vec<Member>,
    contributions: Vec<Contribution>,
    summaries: Vec<YearSummary>,
    next_member_id: i64,
    next_contribution_id: i64,
}

impl Repository {
    pub closed spec fn members(&self) -> Seq<Member> {
        self.members@
    }

    pub closed spec fn contributions(&self) -> Seq<Contribution> {
        self.contributions@
    }

    pub closed spec fn summaries(&self) -> Seq<YearSummary> {
        self.summaries@
    }

    pub closed spec fn next_member_id(&self) -> int {
        self.next_member_id as int
    }

    pub closed spec fn next_contribution_id(&self) -> int {
        self.next_contribution_id as int
    }

    /// The invariant of the registry: unique identifiers and card numbers, the
    /// three orders, every contribution owned by an existing member with a
    /// non-negative amount and the year of its date, and every year's total equal
    /// to the sum of that year's contributions, which fits in a decimal.
    pub open spec fn wf(&self) -> bool {
        &&& members_wf(self.members(), self.next_member_id())
        &&& contributions_wf(self.contributions(), self.members(), self.next_contribution_id())
        &&& summaries_wf(self.summaries(), self.contributions())
        &&& totals_fit(self.contributions())
    }

    /// An empty registry.
    pub fn new() -> (r: Repository)
        ensures
            r.wf(),
            r.members().len() == 0,
            r.contributions().len() == 0,
            r.summaries().len() == 0,
            r.next_member_id() == 1,
            r.next_contribution_id() == 1,
    {
        Repository {
            members: Vec::new(),
            contributions: Vec::new(),
            summaries: Vec::new(),
            next_member_id: 1,
            next_contribution_id: 1,
        }
    }

    // -----------------------------------------------------------------------
    // Members
    // -----------------------------------------------------------------------

    /// All members, in order of full name.
    pub fn get_members(&self) -> (r: Vec<Member>)
        requires
            self.wf(),
        ensures
            r@ == self.members(),
            members_sorted(r@),
    {
        let mut r: Vec<Member> = Vec::new();
        let mut i: usize = 0;
        while i < self.members.len()
            invariant
                i <= self.members@.len(),
                r@ == self.members@.take(i as int),
            decreases self.members@.len() - i,
        {
            r.push(self.members[i].cloned());
            assert(self.members@.take(i + 1) == self.members@.take(i as int).push(self.members@[i as int]));
            i = i + 1;
        }
        assert(self.members@.take(self.members@.len() as int) == self.members@);
        r
    }

    /// The members of one category, in order of full name.
    pub fn get_members_by_type(&self, member_type: &str) -> (r: Vec<Member>)
        requires
            self.wf(),
        ensures
            r@ == members_of_type(self.members(), member_type@),
            members_sorted(r@),
    {
        let mut r: Vec<Member> = Vec::new();
        let mut i: usize = 0;
        let ghost ms = self.members@;
        while i < self.members.len()
            invariant
                ms == self.members@,
                members_sorted(ms),
                i <= ms.len(),
                r@ == members_of_type(ms.take(i as int), member_type@),
                members_sorted(r@),
                forall|a: int, k: int|
                    0 <= a < r@.len() && i <= k < ms.len() ==> text_le(
                        #[trigger] r@[a].full_name@,
                        #[trigger] ms[k].full_name@,
                    ),
            decreases ms.len() - i,
        {
            assert(ms.take(i + 1).drop_last() == ms.take(i as int));
            if same_text(self.members[i].member_type.as_str(), member_type) {
                let m = self.members[i].cloned();
                r.push(m);
            }
            i = i + 1;
        }
        assert(ms.take(ms.len() as int) == ms);
        r
    }

    /// The member with identifier `id`.
    pub fn get_member(&self, id: i64) -> (r: Result<Member, AppError>)
        requires
            self.wf(),
        ensures
            r is Ok <==> has_member(self.members(), id),
            r matches Ok(m) ==> m.id == id && self.members().contains(m),
            r is Err ==> r matches Err(AppError::NotFound(_)),
    {
        match self.find_member(id) {
            Some(i) => Ok(self.members[i].cloned()),
            None => Err(AppError::NotFound(error_text("Membre introuvable."))),
        }
    }

    fn find_member(&self, id: i64) -> (r: Option<usize>)
        ensures
            r is Some <==> has_member(self.members@, id),
            r matches Some(i) ==> i < self.members@.len() && self.members@[i as int].id == id,
    {
        let mut i: usize = 0;
        while i < self.members.len()
            invariant
                i <= self.members@.len(),
                forall|k: int| 0 <= k < i ==> (#[trigger] self.members@[k]).id != id,
            decreases self.members@.len() - i,
        {
            if self.members[i].id == id {
                return Some(i);
            }
            i = i + 1;
        }
        None
    }

    /// Whether a member other than `id` holds the card number `card`.
    fn card_in_use(&self, card: &str, id: i64) -> (r: bool)
        ensures
            r == card_held_by_other(self.members@, card@, id as int),
    {
        let mut i: usize = 0;
        while i < self.members.len()
            invariant
                i <= self.members@.len(),
                forall|k: int|
                    0 <= k < i ==> !((#[trigger] self.members@[k]).card_number@ == card@
                        && self.members@[k].id != id),
            decreases self.members@.len() - i,
        {
            if self.members[i].id != id && same_text(self.members[i].card_number.as_str(), card) {
                return true;
            }
            i = i + 1;
        }
        false
    }

    /// Records a new member, created at `created_at`.
    pub fn create_member_at(&mut self, input: MemberInput, created_at: String) -> (r: Result<
        Member,
        AppError,
    >)
        requires
            old(self).wf(),
        ensures
            final(self).wf(),
            member_input_invalid(input) ==> r matches Err(AppError::Validation(_)),
            !member_input_invalid(input) && card_held_by_other(
                old(self).members(),
                input.card_number@,
                0,
            ) ==> r matches Err(AppError::Conflict(_)),
            !member_input_invalid(input) && !card_held_by_other(
                old(self).members(),
                input.card_number@,
                0,
            ) ==> (r is Err <==> old(self).next_member_id() == i64::MAX),
            r is Err && old(self).next_member_id() == i64::MAX && !member_input_invalid(input)
                && !card_held_by_other(old(self).members(), input.card_number@, 0) ==> r matches Err(
                AppError::Storage(_),
            ),
            r is Err ==> *final(self) == *old(self),
            r matches Ok(m) ==> {
                &&& m == member_from(input, old(self).next_member_id() as i64, created_at)
                &&& exists|k: int|
                    0 <= k <= old(self).members().len() && final(self).members() == old(
                        self,
                    ).members().insert(k, m)
                &&& final(self).contributions() == old(self).contributions()
                &&& final(self).summaries() == old(self).summaries()
                &&& final(self).next_member_id() == old(self).next_member_id() + 1
                &&& final(self).next_contribution_id() == old(self).next_contribution_id()
            },
    {
        if is_blank(input.card_number.as_str()) {
            return Err(AppError::Validation(error_text("Le numéro de carte est requis.")));
        }
        if is_blank(input.full_name.as_str()) {
            return Err(AppError::Validation(error_text("Le nom complet est requis.")));
        }
        if self.card_in_use(input.card_number.as_str(), 0) {
            return Err(AppError::Conflict(error_text("Ce numéro de carte existe déjà.")));
        }
        if self.next_member_id == i64::MAX {
            return Err(AppError::Storage(error_text("Plus aucun identifiant de membre disponible.")));
        }
        let id = self.next_member_id;
        let m = Member {
            id,
            card_number: input.card_number,
            full_name: input.full_name,
            address: input.address,
            phone: input.phone,
            job: input.job,
            gender: input.gender,
            member_type: input.member_type,
            created_at,
        };
        let k = name_position(&self.members, m.full_name.as_str());
        let ghost old_ms = self.members@;
        let copy = m.cloned();
        self.members.insert(k, copy);
        self.next_member_id = id + 1;
        proof {
            assert forall|j: int| 0 <= j < old_ms.len() implies (#[trigger] old_ms[j]).id != m.id
                && old_ms[j].card_number@ != m.card_number@ by {
                assert(old_ms[j].id != 0);
            }
            lemma_members_insert(old_ms, k as int, m, id + 1);
            lemma_has_member_insert(old_ms, k as int, m);
            assert(forall|i: int| 0 <= i < self.contributions@.len() ==> has_member(self.members@, (#[trigger] self.contributions@[i]).member_id));
        }
        Ok(m)
    }
}

impl Repository {
    /// Records a new member, created now.
    pub fn create_member(&mut self, input: MemberInput) -> (r: Result<Member, AppError>)
        requires
            old(self).wf(),
        ensures
            final(self).wf(),
            member_input_invalid(input) ==> r matches Err(AppError::Validation(_)),
            !member_input_invalid(input) && card_held_by_other(
                old(self).members(),
                input.card_number@,
                0,
            ) ==> r matches Err(AppError::Conflict(_)),
            !member_input_invalid(input) && !card_held_by_other(
                old(self).members(),
                input.card_number@,
                0,
            ) ==> (r is Err <==> old(self).next_member_id() == i64::MAX),
            r is Err && old(self).next_member_id() == i64::MAX && !member_input_invalid(input)
                && !card_held_by_other(old(self).members(), input.card_number@, 0) ==> r matches Err(
                AppError::Storage(_),
            ),
            r is Err ==> *final(self) == *old(self),
            r matches Ok(m) ==> {
                &&& m.id == old(self).next_member_id()
                &&& m == member_from(input, m.id, m.created_at)
                &&& m.created_at@.len() >= 19
                &&& exists|k: int|
                    0 <= k <= old(self).members().len() && final(self).members() == old(
                        self,
                    ).members().insert(k, m)
                &&& final(self).contributions() == old(self).contributions()
                &&& final(self).summaries() == old(self).summaries()
                &&& final(self).next_member_id() == old(self).next_member_id() + 1
                &&& final(self).next_contribution_id() == old(self).next_contribution_id()
            },
    {
        let now = now_timestamp();
        self.create_member_at(input, now)
    }

    /// Replaces every field of member `id` but its identifier and creation time.
    pub fn update_member(&mut self, id: i64, input: MemberInput) -> (r: Result<Member, AppError>)
        requires
            old(self).wf(),
        ensures
            final(self).wf(),
            member_input_invalid(input) ==> r matches Err(AppError::Validation(_)),
            !member_input_invalid(input) && !has_member(old(self).members(), id) ==> r matches Err(
                AppError::NotFound(_),
            ),
            !member_input_invalid(input) && has_member(old(self).members(), id) ==> (r is Err
                <==> card_held_by_other(old(self).members(), input.card_number@, id as int)),
            !member_input_invalid(input) && has_member(old(self).members(), id) && r is Err
                ==> r matches Err(AppError::Conflict(_)),
            r is Err ==> *final(self) == *old(self),
            r matches Ok(m) ==> {
                &&& exists|i: int, k: int|
                    0 <= i < old(self).members().len() && old(self).members()[i].id == id
                        && m == member_from(input, id, old(self).members()[i].created_at)
                        && 0 <= k < old(self).members().len() && final(self).members() == old(
                        self,
                    ).members().remove(i).insert(k, m)
                &&& final(self).contributions() == old(self).contributions()
                &&& final(self).summaries() == old(self).summaries()
                &&& final(self).next_member_id() == old(self).next_member_id()
                &&& final(self).next_contribution_id() == old(self).next_contribution_id()
            },
    {
        if is_blank(input.card_number.as_str()) {
            return Err(AppError::Validation(error_text("Le numéro de carte est requis.")));
        }
        if is_blank(input.full_name.as_str()) {
            return Err(AppError::Validation(error_text("Le nom complet est requis.")));
        }
        let i = match self.find_member(id) {
            Some(i) => i,
            None => {
                return Err(AppError::NotFound(error_text("Membre introuvable.")));
            },
        };
        if self.card_in_use(input.card_number.as_str(), id) {
            return Err(AppError::Conflict(error_text("Ce numéro de carte existe déjà.")));
        }
        let ghost old_ms = self.members@;
        let created_at = self.members[i].created_at.clone();
        let m = Member {
            id,
            card_number: input.card_number,
            full_name: input.full_name,
            address: input.address,
            phone: input.phone,
            job: input.job,
            gender: input.gender,
            member_type: input.member_type,
            created_at,
        };
        let _ = self.members.remove(i);
        let ghost rest = self.members@;
        proof {
            lemma_members_remove(old_ms, i as int, self.next_member_id as int);
            assert forall|j: int| 0 <= j < rest.len() implies (#[trigger] rest[j]).id != m.id
                && rest[j].card_number@ != m.card_number@ by {
                let oj = if j < i { j } else { j + 1 };
                assert(rest[j] == old_ms[oj]);
            }
        }
        let k = name_position(&self.members, m.full_name.as_str());
        let copy = m.cloned();
        self.members.insert(k, copy);
        proof {
            lemma_members_insert(rest, k as int, m, self.next_member_id as int);
            lemma_has_member_insert(rest, k as int, m);
            assert forall|c: int| 0 <= c < self.contributions@.len() implies has_member(
                self.members@,
                (#[trigger] self.contributions@[c]).member_id,
            ) by {
                let cid = self.contributions@[c].member_id;
                if cid == id {
                    assert(self.members@[k as int] == m);
                } else {
                    assert(has_member(rest, cid));
                }
            }
        }
        Ok(m)
    }

    /// Removes member `id` with all of their contributions, and brings every
    /// year's total up to date. Removing a member that does not exist changes nothing.
    pub fn delete_member(&mut self, id: i64) -> (r: Result<(), AppError>)
        requires
            old(self).wf(),
        ensures
            final(self).wf(),
            r is Ok,
            member_deleted(*old(self), *final(self), id),
    {
        let ghost cs = self.contributions@;
        let ghost ms = self.members@;
        let mut kept: Vec<Contribution> = Vec::new();
        let ghost mut idx: Seq<int> = Seq::empty();
        let mut i: usize = 0;
        while i < self.contributions.len()
            invariant
                cs == self.contributions@,
                ms == self.members@,
                self.wf(),
                i <= cs.len(),
                kept@ == contributions_without(cs.take(i as int), id),
                idx.len() == kept@.len(),
                forall|a: int|
                    0 <= a < idx.len() ==> 0 <= #[trigger] idx[a] < i && kept@[a] == cs[idx[a]]
                        && cs[idx[a]].member_id != id,
                forall|a: int, b: int|
                    #![trigger idx[a], idx[b]]
                    0 <= a < b < idx.len() ==> idx[a] < idx[b],
            decreases cs.len() - i,
        {
            assert(cs.take(i + 1).drop_last() == cs.take(i as int));
            if self.contributions[i].member_id != id {
                kept.push(self.contributions[i].cloned());
                proof {
                    idx = idx.push(i as int);
                }
            }
            i = i + 1;
        }
        assert(cs.take(cs.len() as int) == cs);
        let ghost kc = kept@;
        proof {
            assert forall|a: int| 0 <= a < kc.len() implies (#[trigger] kc[a]).amount.wf() by {
                assert(kc[a] == cs[idx[a]]);
            }
        }
        proof {
            assert forall|y: i32| (#[trigger] fresh_total(kc, y)) is Some by {
                assert(fresh_total(cs, y) is Some);
                lemma_without_fresh(cs, id, y);
            }
            assert(all_fresh(self.summaries@, kc));
        }
        let refreshed_summaries = match refresh_all(&kept, &self.summaries) {
            Some(v) => v,
            None => {
                return Err(AppError::Storage(error_text("Un total annuel dépasse la capacité.")));
            },
        };
        let ghost old_ss = self.summaries@;
        match self.find_member(id) {
            Some(mi) => {
                proof {
                    lemma_members_remove(ms, mi as int, self.next_member_id as int);
                }
                let _ = self.members.remove(mi);
            },
            None => {},
        }
        self.contributions = kept;
        self.summaries = refreshed_summaries;
        proof {
            let nm = self.members@;
            assert(!has_member(nm, id));
            assert forall|a: int| 0 <= a < kc.len() implies has_member(nm, (#[trigger] kc[a]).member_id) by {
                assert(kc[a] == cs[idx[a]]);
                assert(has_member(ms, cs[idx[a]].member_id));
            }
            assert forall|a: int| 0 <= a < kc.len() implies 1 <= (#[trigger] kc[a]).id < self.next_contribution_id
                && date_year_of(kc[a].payment_date@) == Some(kc[a].recorded_year) by {
                assert(kc[a] == cs[idx[a]]);
            }
            assert forall|a: int, b: int|
                #![trigger kc[a], kc[b]]
                0 <= a < kc.len() && 0 <= b < kc.len() && a != b implies kc[a].id != kc[b].id by {
                assert(kc[a] == cs[idx[a]] && kc[b] == cs[idx[b]]);
                assert(idx[a] != idx[b]) by {
                    if a < b {
                        assert(idx[a] < idx[b]);
                    } else {
                        assert(idx[b] < idx[a]);
                    }
                }
            }
            assert forall|a: int, b: int|
                #![trigger kc[a], kc[b]]
                0 <= a < b < kc.len() implies text_le(kc[a].payment_date@, kc[b].payment_date@) by {
                assert(kc[a] == cs[idx[a]] && kc[b] == cs[idx[b]]);
                assert(idx[a] < idx[b]);
            }
            lemma_refreshed_wf(old_ss, kc);
            assert forall|y: i32| (#[trigger] fresh_total(kc, y)) is Some by {
                assert(fresh_total(cs, y) is Some);
                lemma_without_fresh(cs, id, y);
            }
        }
        Ok(())
    }

    /// Moves the listed members to category `new_type` and says how many members
    /// were listed. An empty list changes nothing and is no error.
    pub fn transfer_members(&mut self, ids: &[i64], new_type: &str) -> (r: Result<usize, AppError>)
        requires
            old(self).wf(),
        ensures
            final(self).wf(),
            ids@.len() == 0 ==> r matches Ok(0usize),
            ids@.len() > 0 && !is_member_type(new_type@) ==> r matches Err(
                AppError::Validation(_),
            ),
            ids@.len() > 0 && is_member_type(new_type@) ==> r == Ok::<usize, AppError>(
                count_listed(old(self).members(), ids@) as usize,
            ),
            r is Err || ids@.len() == 0 ==> *final(self) == *old(self),
            r is Ok && ids@.len() > 0 ==> {
                &&& final(self).members().len() == old(self).members().len()
                &&& forall|i: int|
                    0 <= i < old(self).members().len() ==> if ids@.contains(
                        #[trigger] old(self).members()[i].id,
                    ) {
                        retyped(old(self).members()[i], final(self).members()[i], new_type@)
                    } else {
                        final(self).members()[i] == old(self).members()[i]
                    }
                &&& final(self).contributions() == old(self).contributions()
                &&& final(self).summaries() == old(self).summaries()
                &&& final(self).next_member_id() == old(self).next_member_id()
                &&& final(self).next_contribution_id() == old(self).next_contribution_id()
            },
    {
        if ids.len() == 0 {
            return Ok(0);
        }
        proof {
            reveal_strlit("Communiant");
            reveal_strlit("Cathekomen");
        }
        if !same_text(new_type, "Communiant") && !same_text(new_type, "Cathekomen") {
            return Err(AppError::Validation(error_text("Type de membre invalide.")));
        }
        let ghost ms = self.members@;
        let mut count: usize = 0;
        let mut i: usize = 0;
        while i < self.members.len()
            invariant
                ms.len() == self.members@.len(),
                ms == old(self).members@,
                members_wf(ms, self.next_member_id as int),
                self.contributions == old(self).contributions,
                self.summaries == old(self).summaries,
                self.next_member_id == old(self).next_member_id,
                self.next_contribution_id == old(self).next_contribution_id,
                old(self).wf(),
                i <= ms.len(),
                count == count_listed(ms.take(i as int), ids@),
                count <= i,
                forall|k: int|
                    0 <= k < i ==> if ids@.contains(#[trigger] ms[k].id) {
                        retyped(ms[k], self.members@[k], new_type@)
                    } else {
                        self.members@[k] == ms[k]
                    },
                forall|k: int| i <= k < ms.len() ==> self.members@[k] == #[trigger] ms[k],
            decreases ms.len() - i,
        {
            assert(ms.take(i + 1).drop_last() == ms.take(i as int));
            assert(self.members@[i as int] == ms[i as int]);
            if listed(ids, self.members[i].id) {
                let old_m = self.members[i].cloned();
                let m = Member {
                    id: old_m.id,
                    card_number: old_m.card_number,
                    full_name: old_m.full_name,
                    address: old_m.address,
                    phone: old_m.phone,
                    job: old_m.job,
                    gender: old_m.gender,
                    member_type: error_text(new_type),
                    created_at: old_m.created_at,
                };
                self.members.set(i, m);
                count = count + 1;
            }
            i = i + 1;
        }
        assert(ms.take(ms.len() as int) == ms);
        proof {
            let nm = self.members@;
            assert forall|k: int| 0 <= k < nm.len() implies (#[trigger] nm[k]).id == ms[k].id
                && nm[k].card_number == ms[k].card_number && nm[k].full_name == ms[k].full_name by {
                assert(ids@.contains(ms[k].id) || !ids@.contains(ms[k].id));
            }
            assert forall|a: int, b: int|
                #![trigger nm[a], nm[b]]
                0 <= a < nm.len() && 0 <= b < nm.len() && a != b implies nm[a].id != nm[b].id
                    && nm[a].card_number@ != nm[b].card_number@ by {
                assert(nm[a].id == ms[a].id && nm[b].id == ms[b].id);
                assert(nm[a].card_number == ms[a].card_number && nm[b].card_number == ms[b].card_number);
            }
            assert forall|a: int, b: int|
                #![trigger nm[a], nm[b]]
                0 <= a < b < nm.len() implies text_le(nm[a].full_name@, nm[b].full_name@) by {
                assert(nm[a].full_name == ms[a].full_name && nm[b].full_name == ms[b].full_name);
            }
            assert forall|x: i64| has_member(ms, x) implies has_member(nm, x) by {
                let j = choose|j: int| 0 <= j < ms.len() && (#[trigger] ms[j]).id == x;
                assert(nm[j].id == ms[j].id);
            }
            assert forall|c: int| 0 <= c < self.contributions@.len() implies has_member(
                nm,
                (#[trigger] self.contributions@[c]).member_id,
            ) by {
                assert(has_member(ms, self.contributions@[c].member_id));
            }
        }
        Ok(count)
    }
}

impl Repository {
    /// Records a contribution and brings the total of its year up to date, all at once:
    /// on any failure nothing changes.
    pub fn create_contribution(&mut self, input: ContributionInput) -> (r: Result<Contribution, AppError>)
        requires
            old(self).wf(),
        ensures
            final(self).wf(),
            r is Err ==> *final(self) == *old(self),
            amount_of_text(trimmed(input.amount@)) is None ==> r matches Err(AppError::Validation(_)),
            amount_of_text(trimmed(input.amount@)) is Some && date_year_of(input.payment_date@) is None
                ==> r matches Err(AppError::Validation(_)),
            amount_of_text(trimmed(input.amount@)) is Some && date_year_of(input.payment_date@) is Some
                && !has_member(old(self).members(), input.member_id) ==> r matches Err(
                AppError::Conflict(_),
            ),
            amount_of_text(trimmed(input.amount@)) is Some && date_year_of(input.payment_date@) is Some
                && has_member(old(self).members(), input.member_id) ==> (r is Err <==> (old(
                self,
            ).next_contribution_id() == i64::MAX || total_of(
                year_amounts(old(self).contributions(), date_year_of(input.payment_date@).unwrap()).push(
                    amount_of_text(trimmed(input.amount@)).unwrap(),
                ),
            ) is None)),
            amount_of_text(trimmed(input.amount@)) is Some && date_year_of(input.payment_date@) is Some
                && has_member(old(self).members(), input.member_id) && r is Err ==> r matches Err(
                AppError::Storage(_),
            ),
            r matches Ok(c) ==> c == contribution_from(
                input,
                old(self).next_contribution_id() as i64,
                amount_of_text(trimmed(input.amount@)).unwrap(),
                date_year_of(input.payment_date@).unwrap(),
            ),
            r matches Ok(c) ==> contribution_added(*old(self), *final(self), c),
    {
        let amount = match Amount::from_text(trim_text(input.amount.as_str())) {
            Some(a) => a,
            None => {
                return Err(AppError::Validation(error_text("Montant invalide ou négatif.")));
            },
        };
        let year = match payment_year(input.payment_date.as_str()) {
            Some(y) => y,
            None => {
                return Err(AppError::Validation(error_text("Date de paiement invalide : format attendu YYYY-MM-DD.")));
            },
        };
        if self.find_member(input.member_id).is_none() {
            return Err(AppError::Conflict(error_text("Le membre de cette cotisation n'existe pas.")));
        }
        if self.next_contribution_id == i64::MAX {
            return Err(AppError::Storage(error_text("Plus aucun identifiant de cotisation disponible.")));
        }
        let mut amounts = collect_year_amounts(&self.contributions, year);
        amounts.push(amount);
        let total = match sum_amounts(&amounts) {
            Some(t) => t,
            None => {
                return Err(AppError::Storage(error_text("Le total annuel dépasse la capacité.")));
            },
        };
        let id = self.next_contribution_id;
        let c = Contribution {
            id,
            member_id: input.member_id,
            payment_date: input.payment_date,
            period: input.period,
            amount,
            recorded_year: year,
        };
        let ghost old_cs = self.contributions@;
        let ghost old_ss = self.summaries@;
        let k = date_position(&self.contributions, c.payment_date.as_str());
        let copy = c.cloned();
        self.contributions.insert(k, copy);
        self.next_contribution_id = id + 1;
        upsert_total(&mut self.summaries, year, total);
        proof {
            assert forall|a: int| 0 <= a < old_cs.len() implies (#[trigger] old_cs[a]).id != c.id by {}
            lemma_contributions_insert(old_cs, self.members@, k as int, c, id as int, id + 1);
            lemma_year_amounts_insert(old_cs, k as int, c);
            lemma_upsert_fresh(old_ss, self.summaries@, old_cs, self.contributions@, year, total);
            assert forall|y: i32| (#[trigger] fresh_total(self.contributions@, y)) is Some by {
                if y != year {
                    assert(fresh_total(old_cs, y) is Some);
                }
            }
            let ncs = self.contributions@;
            assert(ncs == old_cs.insert(k as int, c));
            assert(self.contributions() == old(self).contributions().insert(k as int, c));
            assert(inserted_somewhere(old(self).contributions(), self.contributions(), c));
            assert(c == contribution_from(input, id, amount, year));
        }
        Ok(c)
    }

    /// Removes contribution `id` and brings the total of its year up to date, all at
    /// once: on any failure nothing changes.
    pub fn delete_contribution(&mut self, id: i64) -> (r: Result<(), AppError>)
        requires
            old(self).wf(),
        ensures
            final(self).wf(),
            r is Err ==> *final(self) == *old(self),
            !has_contribution(old(self).contributions(), id) ==> r matches Err(AppError::NotFound(_)),
            has_contribution(old(self).contributions(), id) ==> r is Ok,
            r is Ok ==> exists|i: int|
                0 <= i < old(self).contributions().len() && (#[trigger] old(self).contributions()[i]).id
                    == id && contribution_removed(*old(self), *final(self), i),
    {
        let i = match find_contribution(&self.contributions, id) {
            Some(i) => i,
            None => {
                return Err(AppError::NotFound(error_text("Cotisation introuvable.")));
            },
        };
        let ghost old_cs = self.contributions@;
        let ghost old_ss = self.summaries@;
        assert(old_cs[i as int].id == id);
        assert(has_contribution(old_cs, id));
        let year = self.contributions[i].recorded_year;
        let mut rest: Vec<Contribution> = Vec::new();
        let mut j: usize = 0;
        while j < self.contributions.len()
            invariant
                old_cs == self.contributions@,
                j <= old_cs.len(),
                i < old_cs.len(),
                j <= i ==> rest@ == old_cs.take(j as int),
                j > i ==> rest@ == old_cs.take(j as int).remove(i as int),
            decreases old_cs.len() - j,
        {
            let c = self.contributions[j].cloned();
            if j != i {
                rest.push(c);
            }
            proof {
                if j < i {
                    assert(old_cs.take(j + 1) == old_cs.take(j as int).push(old_cs[j as int]));
                } else if j == i {
                    assert(old_cs.take(j + 1).remove(i as int) == old_cs.take(j as int));
                } else {
                    assert(old_cs.take(j + 1).remove(i as int) == old_cs.take(j as int).remove(
                        i as int,
                    ).push(old_cs[j as int]));
                }
            }
            j = j + 1;
        }
        assert(old_cs.take(old_cs.len() as int) == old_cs);
        proof {
            lemma_contributions_remove(old_cs, self.members@, i as int, self.next_contribution_id as int);
            lemma_year_amounts_remove(old_cs, i as int);
            assert forall|y: i32| (#[trigger] fresh_total(rest@, y)) is Some by {
                assert(fresh_total(old_cs, y) is Some);
                lemma_remove_fresh(old_cs, i as int, y);
            }
        }
        let total = match year_total(&rest, year) {
            Some(t) => t,
            None => {
                return Err(AppError::Storage(error_text("Le total annuel dépasse la capacité.")));
            },
        };
        self.contributions = rest;
        upsert_total(&mut self.summaries, year, total);
        proof {
            lemma_upsert_fresh(old_ss, self.summaries@, old_cs, self.contributions@, year, total);
            assert forall|y: i32| (#[trigger] fresh_total(self.contributions@, y)) is Some by {
                if y != year {
                    assert(fresh_total(old_cs, y) is Some);
                }
            }
            assert(old_cs[i as int].id == id);
        }
        Ok(())
    }
}

/// The state after the total of `year` was computed afresh: only that year's
/// summary changed, to the fresh total.
pub open spec fn recomputed(before: Repository, after: Repository, year: i32) -> bool {
    &&& fresh_total(before.contributions(), year) is Some
    &&& upserted(
        before.summaries(),
        after.summaries(),
        year,
        fresh_total(before.contributions(), year).unwrap(),
    )
    &&& after.members() == before.members()
    &&& after.contributions() == before.contributions()
    &&& after.next_member_id() == before.next_member_id()
    &&& after.next_contribution_id() == before.next_contribution_id()
}

/// The state after member `id` was deleted: the member is gone, with all of their
/// contributions, and every year's total is computed afresh.
pub open spec fn member_deleted(before: Repository, after: Repository, id: i64) -> bool {
    &&& !has_member(after.members(), id)
    &&& has_member(before.members(), id) ==> exists|i: int|
        0 <= i < before.members().len() && (#[trigger] before.members()[i]).id == id
            && after.members() == before.members().remove(i)
    &&& !has_member(before.members(), id) ==> after.members() == before.members()
    &&& after.contributions() == contributions_without(before.contributions(), id)
    &&& after.summaries() == refreshed(before.summaries(), after.contributions())
    &&& after.next_member_id() == before.next_member_id()
    &&& after.next_contribution_id() == before.next_contribution_id()
}

/// The state after contribution `c` was recorded: `c` stands among the others
/// and the total of its year counts it.
pub open spec fn contribution_added(before: Repository, after: Repository, c: Contribution) -> bool {
    &&& inserted_somewhere(before.contributions(), after.contributions(), c)
    &&& upserted(
        before.summaries(),
        after.summaries(),
        c.recorded_year,
        total_of(year_amounts(before.contributions(), c.recorded_year).push(c.amount)).unwrap(),
    )
    &&& after.members() == before.members()
    &&& after.next_member_id() == before.next_member_id()
    &&& after.next_contribution_id() == before.next_contribution_id() + 1
}

/// The state after contribution `c`, kept elsewhere, was taken back: it stands
/// among the others and the total of its year counts it.
pub open spec fn contribution_restored(before: Repository, after: Repository, c: Contribution) -> bool {
    &&& inserted_somewhere(before.contributions(), after.contributions(), c)
    &&& upserted(
        before.summaries(),
        after.summaries(),
        c.recorded_year,
        total_of(year_amounts(before.contributions(), c.recorded_year).push(c.amount)).unwrap(),
    )
    &&& after.members() == before.members()
    &&& after.next_member_id() == before.next_member_id()
}

/// The state after the contribution at place `i` was removed: the total of its
/// year is computed afresh from the others.
pub open spec fn contribution_removed(before: Repository, after: Repository, i: int) -> bool {
    let rest = before.contributions().remove(i);
    let year = before.contributions()[i].recorded_year;
    &&& after.contributions() == rest
    &&& upserted(before.summaries(), after.summaries(), year, fresh_total(rest, year).unwrap())
    &&& after.members() == before.members()
    &&& after.next_member_id() == before.next_member_id()
    &&& after.next_contribution_id() == before.next_contribution_id()
}

/// The state after a year was closed into summary `s`.
pub open spec fn year_closed(before: Repository, after: Repository, s: YearSummary) -> bool {
    &&& put(before.summaries(), after.summaries(), s)
    &&& after.members() == before.members()
    &&& after.contributions() == before.contributions()
    &&& after.next_member_id() == before.next_member_id()
    &&& after.next_contribution_id() == before.next_contribution_id()
}

/// The state after the year of `s` was reopened into `s`: closing date and note
/// cleared, total kept.
pub open spec fn year_reopened(before: Repository, after: Repository, s: YearSummary) -> bool {
    &&& exists|j: int|
        0 <= j < before.summaries().len() && (#[trigger] before.summaries()[j]).year == s.year && s
            == (YearSummary {
            year: s.year,
            total: before.summaries()[j].total,
            closed_at: None,
            note: None,
        }) && after.summaries() == before.summaries().update(j, s)
    &&& after.members() == before.members()
    &&& after.contributions() == before.contributions()
    &&& after.next_member_id() == before.next_member_id()
    &&& after.next_contribution_id() == before.next_contribution_id()
}

impl Repository {
    /// Writes a total for a closing note: whole units grouped by three with
    /// spaces, then " Ariary".
    pub fn format_ariary_note(total: &Amount) -> (r: String)
        requires
            total.wf(),
        ensures
            r@ == ariary_note_text(*total),
    {
        ariary_note(total)
    }

    /// All year summaries, the latest year first.
    pub fn get_year_summaries(&self) -> (r: Vec<YearSummary>)
        requires
            self.wf(),
        ensures
            r@ == self.summaries().reverse(),
    {
        let n = self.summaries.len();
        let mut r: Vec<YearSummary> = Vec::new();
        let mut j: usize = 0;
        while j < n
            invariant
                n == self.summaries@.len(),
                j <= n,
                r@ == self.summaries@.reverse().take(j as int),
            decreases n - j,
        {
            r.push(self.summaries[n - 1 - j].cloned());
            assert(self.summaries@.reverse().take(j + 1) == self.summaries@.reverse().take(j as int).push(
                self.summaries@[n - 1 - j],
            ));
            j = j + 1;
        }
        assert(self.summaries@.reverse().take(n as int) == self.summaries@.reverse());
        r
    }

    /// The summary of `year`, if the year has one.
    pub fn get_year_summary(&self, year: i32) -> (r: Option<YearSummary>)
        requires
            self.wf(),
        ensures
            r is Some <==> has_year(self.summaries(), year),
            r matches Some(s) ==> s.year == year && self.summaries().contains(s),
    {
        match find_year(&self.summaries, year) {
            Some(j) => {
                let s = self.summaries[j].cloned();
                assert(self.summaries@[j as int] == s);
                Some(s)
            },
            None => None,
        }
    }

    /// Computes the total of `year` afresh from its contributions and stores it,
    /// adding an open summary for the year if it has none.
    pub fn refresh_year_total(&mut self, year: i32) -> (r: Result<(), AppError>)
        requires
            old(self).wf(),
        ensures
            final(self).wf(),
            r is Ok,
            r is Err <==> fresh_total(old(self).contributions(), year) is None,
            r is Err ==> (r matches Err(AppError::Storage(_))) && *final(self) == *old(self),
            r is Ok ==> recomputed(*old(self), *final(self), year),
    {
        let total = match year_total(&self.contributions, year) {
            Some(t) => t,
            None => {
                return Err(AppError::Storage(error_text("Le total annuel dépasse la capacité.")));
            },
        };
        let ghost old_ss = self.summaries@;
        upsert_total(&mut self.summaries, year, total);
        proof {
            lemma_upsert_fresh(old_ss, self.summaries@, self.contributions@, self.contributions@, year, total);
        }
        Ok(())
    }

    /// Closes `year` at `closed_at` with `note`, its total computed afresh in the
    /// same step, and returns the closed summary.
    pub fn close_year_at(&mut self, year: i32, note: Option<String>, closed_at: String) -> (r: Result<YearSummary, AppError>)
        requires
            old(self).wf(),
        ensures
            final(self).wf(),
            r is Ok,
            r is Err <==> fresh_total(old(self).contributions(), year) is None,
            r is Err ==> (r matches Err(AppError::Storage(_))) && *final(self) == *old(self),
            r matches Ok(s) ==> s == closed_summary(old(self).contributions(), year, note, closed_at)
                && year_closed(*old(self), *final(self), s),
    {
        self.restore_year_state(year, Some(closed_at), note)
    }

    /// Gives `year` the closing date and note `closed_at` and `note` (an open year
    /// when `closed_at` is `None`), its total computed afresh in the same step.
    pub fn restore_year_state(&mut self, year: i32, closed_at: Option<String>, note: Option<String>) -> (r: Result<YearSummary, AppError>)
        requires
            old(self).wf(),
        ensures
            final(self).wf(),
            r is Ok,
            r is Err <==> fresh_total(old(self).contributions(), year) is None,
            r is Err ==> (r matches Err(AppError::Storage(_))) && *final(self) == *old(self),
            r matches Ok(s) ==> s == (YearSummary {
                year,
                total: fresh_total(old(self).contributions(), year).unwrap(),
                closed_at,
                note,
            }) && year_closed(*old(self), *final(self), s),
    {
        let total = match year_total(&self.contributions, year) {
            Some(t) => t,
            None => {
                return Err(AppError::Storage(error_text("Le total annuel dépasse la capacité.")));
            },
        };
        let s = YearSummary { year, total, closed_at, note };
        let ghost old_ss = self.summaries@;
        put_summary(&mut self.summaries, s.cloned());
        proof {
            lemma_put_fresh(old_ss, self.summaries@, self.contributions@, s);
        }
        Ok(s)
    }

    /// Closes `year` now with `note`; see `close_year_at`.
    pub fn close_year(&mut self, year: i32, note: Option<String>) -> (r: Result<YearSummary, AppError>)
        requires
            old(self).wf(),
        ensures
            final(self).wf(),
            r is Ok,
            r is Err <==> fresh_total(old(self).contributions(), year) is None,
            r is Err ==> (r matches Err(AppError::Storage(_))) && *final(self) == *old(self),
            r matches Ok(s) ==> s.closed_at is Some && s.closed_at.unwrap()@.len() >= 19 && s == closed_summary(
                old(self).contributions(),
                year,
                note,
                s.closed_at.unwrap(),
            ) && year_closed(*old(self), *final(self), s),
    {
        let now = now_timestamp();
        self.close_year_at(year, note, now)
    }

    /// Reopens `year`: its closing date and note are cleared, its total kept.
    pub fn reopen_year(&mut self, year: i32) -> (r: Result<YearSummary, AppError>)
        requires
            old(self).wf(),
        ensures
            final(self).wf(),
            r is Err <==> !has_year(old(self).summaries(), year),
            r is Err ==> (r matches Err(AppError::NotFound(_))) && *final(self) == *old(self),
            r matches Ok(s) ==> s.year == year && year_reopened(*old(self), *final(self), s),
    {
        let j = match find_year(&self.summaries, year) {
            Some(j) => j,
            None => {
                return Err(AppError::NotFound(error_text("Résumé annuel introuvable.")));
            },
        };
        let s = YearSummary { year, total: self.summaries[j].total, closed_at: None, note: None };
        let ghost old_ss = self.summaries@;
        self.summaries.set(j, s.cloned());
        proof {
            let ns = self.summaries@;
            assert forall|a: int, b: int|
                #![trigger ns[a], ns[b]]
                0 <= a < b < ns.len() implies ns[a].year < ns[b].year by {
                assert(old_ss[a].year < old_ss[b].year);
            }
            assert forall|a: int| 0 <= a < ns.len() implies fresh_total(self.contributions@, (#[trigger] ns[a]).year)
                == Some(ns[a].total) by {
                assert(fresh_total(self.contributions@, old_ss[a].year) == Some(old_ss[a].total));
            }
            assert(ns == old_ss.update(j as int, s));
        }
        Ok(s)
    }

    /// Closes `year` unless it is already closed: its total is computed afresh and
    /// the note names the year and the total. `None` when the year was already closed.
    pub fn check_and_close_year_at(&mut self, year: i32, closed_at: String) -> (r: Result<Option<YearSummary>, AppError>)
        requires
            old(self).wf(),
        ensures
            final(self).wf(),
            r is Ok,
            (r matches Ok(None)) <==> exists|j: int|
                0 <= j < old(self).summaries().len() && (#[trigger] old(self).summaries()[j]).year == year
                    && old(self).summaries()[j].closed_at is Some,
            r matches Ok(None) ==> *final(self) == *old(self),
            r is Err ==> (r matches Err(AppError::Storage(_))) && *final(self) == *old(self)
                && fresh_total(old(self).contributions(), year) is None,
            r matches Ok(Some(s)) ==> {
                &&& fresh_total(old(self).contributions(), year) is Some
                &&& s.note is Some
                &&& s.note.unwrap()@ == closing_note_text(year, fresh_total(old(self).contributions(), year).unwrap())
                &&& s == closed_summary(old(self).contributions(), year, s.note, closed_at)
                &&& year_closed(*old(self), *final(self), s)
            },
            fresh_total(old(self).contributions(), year) is Some ==> r is Ok,
    {
        match find_year(&self.summaries, year) {
            Some(j) => {
                if self.summaries[j].closed_at.is_some() {
                    return Ok(None);
                }
                proof {
                    assert forall|k: int| 0 <= k < self.summaries@.len() && (#[trigger] self.summaries@[k]).year == year
                        implies self.summaries@[k].closed_at is None by {
                        if k != j {
                            if k < j {
                                assert(self.summaries@[k].year < self.summaries@[j as int].year);
                            } else {
                                assert(self.summaries@[j as int].year < self.summaries@[k].year);
                            }
                        }
                    }
                }
            },
            None => {},
        }
        let total = match year_total(&self.contributions, year) {
            Some(t) => t,
            None => {
                return Err(AppError::Storage(error_text("Le total annuel dépasse la capacité.")));
            },
        };
        let note = closing_note(year, &total);
        match self.close_year_at(year, Some(note), closed_at) {
            Ok(s) => Ok(Some(s)),
            Err(e) => Err(e),
        }
    }

    /// Closes the previous calendar year unless it is already closed; see
    /// `check_and_close_year_at`. `None` when there was nothing to do.
    pub fn check_and_close_previous_year(&mut self) -> (r: Result<Option<YearSummary>, AppError>)
        requires
            old(self).wf(),
        ensures
            final(self).wf(),
            r is Ok,
            r matches Ok(None) ==> *final(self) == *old(self),
            r matches Ok(None) ==> exists|j: int|
                0 <= j < old(self).summaries().len()
                    && (#[trigger] old(self).summaries()[j]).closed_at is Some,
            (forall|j: int|
                0 <= j < old(self).summaries().len() ==> (#[trigger] old(self).summaries()[j]).closed_at
                    is None) ==> r matches Ok(Some(_)),
            r matches Ok(Some(s)) ==> {
                &&& s.closed_at is Some
                &&& s.closed_at.unwrap()@.len() >= 19
                &&& MIN_YEAR - 1 <= s.year <= MAX_YEAR - 1
                &&& s.note is Some
                &&& s == closed_summary(old(self).contributions(), s.year, s.note, s.closed_at.unwrap())
                &&& s.note.unwrap()@ == closing_note_text(s.year, s.total)
                &&& !(exists|j: int|
                    0 <= j < old(self).summaries().len() && (#[trigger] old(self).summaries()[j]).year
                        == s.year && old(self).summaries()[j].closed_at is Some)
                &&& year_closed(*old(self), *final(self), s)
            },
    {
        let year = current_year();
        let now = now_timestamp();
        self.check_and_close_year_at(year - 1, now)
    }
}

impl Repository {
    /// All contributions, in order of payment date.
    pub fn get_all_contributions(&self) -> (r: Vec<Contribution>)
        requires
            self.wf(),
        ensures
            r@ == self.contributions(),
    {
        let mut r: Vec<Contribution> = Vec::new();
        let mut i: usize = 0;
        while i < self.contributions.len()
            invariant
                i <= self.contributions@.len(),
                r@ == self.contributions@.take(i as int),
            decreases self.contributions@.len() - i,
        {
            r.push(self.contributions[i].cloned());
            assert(self.contributions@.take(i + 1) == self.contributions@.take(i as int).push(
                self.contributions@[i as int],
            ));
            i = i + 1;
        }
        assert(self.contributions@.take(self.contributions@.len() as int) == self.contributions@);
        r
    }

    /// The contributions of one member, the latest payment first.
    pub fn get_contributions(&self, member_id: i64) -> (r: Vec<Contribution>)
        requires
            self.wf(),
        ensures
            r@ == contributions_of_member(self.contributions(), member_id).reverse(),
    {
        reversed(select_by_member(&self.contributions, member_id))
    }

    /// The contributions of one year, the latest payment first.
    pub fn get_contributions_by_year(&self, year: i32) -> (r: Vec<Contribution>)
        requires
            self.wf(),
        ensures
            r@ == contributions_of_year(self.contributions(), year).reverse(),
    {
        reversed(select_by_year(&self.contributions, year))
    }

    /// The contributions of one year with their members' names, the earliest payment first.
    pub fn get_contributions_by_year_with_member(&self, year: i32) -> (r: Vec<ContributionWithMember>)
        requires
            self.wf(),
        ensures
            r@.len() == contributions_of_year(self.contributions(), year).len(),
            forall|k: int|
                0 <= k < r@.len() ==> joined_row(
                    self.members(),
                    contributions_of_year(self.contributions(), year)[k],
                    #[trigger] r@[k],
                ),
    {
        let sel = select_by_year(&self.contributions, year);
        proof {
            lemma_year_selection_members(self.contributions@, self.members@, year);
        }
        let mut r: Vec<ContributionWithMember> = Vec::new();
        let mut k: usize = 0;
        while k < sel.len()
            invariant
                self.wf(),
                sel@ == contributions_of_year(self.contributions@, year),
                forall|a: int| 0 <= a < sel@.len() ==> has_member(self.members@, (#[trigger] sel@[a]).member_id),
                k <= sel@.len(),
                r@.len() == k,
                forall|a: int| 0 <= a < k ==> joined_row(self.members@, sel@[a], #[trigger] r@[a]),
            decreases sel@.len() - k,
        {
            let c = &sel[k];
            assert(has_member(self.members@, sel@[k as int].member_id));
            let j = match self.find_member(c.member_id) {
                Some(j) => j,
                None => {
                    return r;
                },
            };
            let row = ContributionWithMember {
                id: c.id,
                member_id: c.member_id,
                member_name: self.members[j].full_name.clone(),
                payment_date: c.payment_date.clone(),
                period: c.period.clone(),
                amount: c.amount,
                recorded_year: c.recorded_year,
            };
            r.push(row);
            proof {
                assert(r@[k as int] == joined(sel@[k as int], self.members@[j as int]));
                assert(joined_row(self.members@, sel@[k as int], r@[k as int]));
            }
            k = k + 1;
        }
        r
    }

    /// The members of one category with the sum of all their contributions, in
    /// order of full name; fails when some member's sum does not fit in a decimal.
    pub fn get_members_by_type_with_total(&self, member_type: &str) -> (r: Result<Vec<MemberWithTotal>, AppError>)
        requires
            self.wf(),
        ensures
            r is Err <==> exists|k: int|
                0 <= k < members_of_type(self.members(), member_type@).len() && total_of(
                    member_amounts(
                        self.contributions(),
                        (#[trigger] members_of_type(self.members(), member_type@)[k]).id,
                    ),
                ) is None,
            r is Err ==> r matches Err(AppError::Storage(_)),
            r matches Ok(v) ==> {
                &&& v@.len() == members_of_type(self.members(), member_type@).len()
                &&& forall|k: int|
                    0 <= k < v@.len() ==> {
                        let m = members_of_type(self.members(), member_type@)[k];
                        &&& (#[trigger] v@[k]) == with_total(m, v@[k].total_contributions)
                        &&& v@[k].total_contributions@ == whole_text(
                            total_of(member_amounts(self.contributions(), m.id)).unwrap(),
                        )
                    }
            },
    {
        let sel = self.get_members_by_type(member_type);
        let mut v: Vec<MemberWithTotal> = Vec::new();
        let mut k: usize = 0;
        while k < sel.len()
            invariant
                self.wf(),
                sel@ == members_of_type(self.members@, member_type@),
                k <= sel@.len(),
                v@.len() == k,
                forall|a: int| 0 <= a < k ==> (#[trigger] total_of(member_amounts(self.contributions@, sel@[a].id))) is Some,
                forall|a: int|
                    0 <= a < k ==> {
                        &&& (#[trigger] v@[a]) == with_total(sel@[a], v@[a].total_contributions)
                        &&& v@[a].total_contributions@ == whole_text(
                            total_of(member_amounts(self.contributions@, sel@[a].id)).unwrap(),
                        )
                    },
            decreases sel@.len() - k,
        {
            let m = &sel[k];
            let amounts = collect_member_amounts(&self.contributions, m.id);
            let total = match sum_amounts(&amounts) {
                Some(t) => t,
                None => {
                    return Err(AppError::Storage(error_text("Un total de cotisations dépasse la capacité.")));
                },
            };
            let text = whole_units_text(&total);
            let row = MemberWithTotal {
                id: m.id,
                card_number: m.card_number.clone(),
                full_name: m.full_name.clone(),
                address: clone_opt(&m.address),
                phone: clone_opt(&m.phone),
                job: clone_opt(&m.job),
                gender: m.gender.clone(),
                member_type: m.member_type.clone(),
                created_at: m.created_at.clone(),
                total_contributions: text,
            };
            v.push(row);
            k = k + 1;
        }
        Ok(v)
    }
}

impl Repository {
    /// Takes back a member kept elsewhere, under its own identifier and creation
    /// time. Fails on an identifier out of range or already used, or a card number
    /// already held.
    pub fn restore_member(&mut self, m: Member) -> (r: Result<(), AppError>)
        requires
            old(self).wf(),
        ensures
            final(self).wf(),
            r is Err ==> *final(self) == *old(self),
            !(1 <= m.id < i64::MAX) ==> r matches Err(AppError::Validation(_)),
            1 <= m.id < i64::MAX ==> (r is Ok <==> !has_member(old(self).members(), m.id)
                && !card_held_by_other(old(self).members(), m.card_number@, 0)),
            1 <= m.id < i64::MAX && r is Err ==> r matches Err(AppError::Conflict(_)),
            r is Ok ==> {
                &&& exists|k: int|
                    0 <= k <= old(self).members().len() && final(self).members() == old(
                        self,
                    ).members().insert(k, m)
                &&& final(self).next_member_id() == if m.id + 1 > old(self).next_member_id() {
                    m.id + 1
                } else {
                    old(self).next_member_id()
                }
                &&& final(self).contributions() == old(self).contributions()
                &&& final(self).summaries() == old(self).summaries()
                &&& final(self).next_contribution_id() == old(self).next_contribution_id()
            },
    {
        if m.id < 1 || m.id == i64::MAX {
            return Err(AppError::Validation(error_text("Identifiant de membre hors limites.")));
        }
        if self.find_member(m.id).is_some() {
            return Err(AppError::Conflict(error_text("Identifiant de membre déjà utilisé.")));
        }
        if self.card_in_use(m.card_number.as_str(), 0) {
            return Err(AppError::Conflict(error_text("Ce numéro de carte existe déjà.")));
        }
        let next = if m.id + 1 > self.next_member_id {
            m.id + 1
        } else {
            self.next_member_id
        };
        let ghost old_ms = self.members@;
        proof {
            assert forall|j: int| 0 <= j < old_ms.len() implies (#[trigger] old_ms[j]).id != m.id
                && old_ms[j].card_number@ != m.card_number@ by {
                assert(old_ms[j].id != 0);
            }
            assert(members_wf(old_ms, next as int));
        }
        let k = name_position(&self.members, m.full_name.as_str());
        proof {
            lemma_members_insert(old_ms, k as int, m, next as int);
            lemma_has_member_insert(old_ms, k as int, m);
        }
        self.members.insert(k, m);
        self.next_member_id = next;
        proof {
            assert(forall|i: int| 0 <= i < self.contributions@.len() ==> has_member(self.members@, (#[trigger] self.contributions@[i]).member_id));
        }
        Ok(())
    }

    /// Takes back a contribution kept elsewhere, under its own identifier, and
    /// brings the total of its year up to date. Fails, changing nothing, on an
    /// identifier out of range or already used, a member that does not exist, an
    /// amount out of range, a recorded year that is not the year of the payment
    /// date, or a year total that does not fit.
    pub fn restore_contribution(&mut self, c: Contribution) -> (r: Result<(), AppError>)
        requires
            old(self).wf(),
        ensures
            final(self).wf(),
            r is Err ==> *final(self) == *old(self),
            r is Ok <==> {
                &&& 1 <= c.id < i64::MAX
                &&& !has_contribution(old(self).contributions(), c.id)
                &&& has_member(old(self).members(), c.member_id)
                &&& c.amount.wf()
                &&& date_year_of(c.payment_date@) == Some(c.recorded_year)
                &&& total_of(year_amounts(old(self).contributions(), c.recorded_year).push(c.amount)) is Some
            },
            r is Ok ==> {
                &&& contribution_restored(*old(self), *final(self), c)
                &&& final(self).next_contribution_id() == if c.id + 1 > old(self).next_contribution_id() {
                    c.id + 1
                } else {
                    old(self).next_contribution_id()
                }
            },
    {
        if c.id < 1 || c.id == i64::MAX {
            return Err(AppError::Validation(error_text("Identifiant de cotisation hors limites.")));
        }
        if find_contribution(&self.contributions, c.id).is_some() {
            return Err(AppError::Conflict(error_text("Identifiant de cotisation déjà utilisé.")));
        }
        if self.find_member(c.member_id).is_none() {
            return Err(AppError::Conflict(error_text("Le membre de cette cotisation n'existe pas.")));
        }
        if !c.amount.is_valid() {
            return Err(AppError::Validation(error_text("Montant hors limites.")));
        }
        match payment_year(c.payment_date.as_str()) {
            Some(y) => {
                if y != c.recorded_year {
                    return Err(AppError::Validation(error_text("Année enregistrée incohérente.")));
                }
            },
            None => {
                return Err(AppError::Validation(error_text("Date de paiement invalide.")));
            },
        }
        let mut amounts = collect_year_amounts(&self.contributions, c.recorded_year);
        amounts.push(c.amount);
        let total = match sum_amounts(&amounts) {
            Some(t) => t,
            None => {
                return Err(AppError::Storage(error_text("Le total annuel dépasse la capacité.")));
            },
        };
        let next = if c.id + 1 > self.next_contribution_id {
            c.id + 1
        } else {
            self.next_contribution_id
        };
        let year = c.recorded_year;
        let ghost old_cs = self.contributions@;
        let ghost old_ss = self.summaries@;
        let k = date_position(&self.contributions, c.payment_date.as_str());
        proof {
            assert forall|a: int| 0 <= a < old_cs.len() implies (#[trigger] old_cs[a]).id != c.id by {}
            lemma_contributions_insert(old_cs, self.members@, k as int, c, self.next_contribution_id as int, next as int);
            lemma_year_amounts_insert(old_cs, k as int, c);
        }
        let ghost cc = c;
        self.contributions.insert(k, c);
        self.next_contribution_id = next;
        upsert_total(&mut self.summaries, year, total);
        proof {
            lemma_upsert_fresh(old_ss, self.summaries@, old_cs, self.contributions@, year, total);
            assert forall|y: i32| (#[trigger] fresh_total(self.contributions@, y)) is Some by {
                if y != year {
                    assert(fresh_total(old_cs, y) is Some);
                }
            }
            assert(self.contributions() == old(self).contributions().insert(k as int, cc));
            assert(inserted_somewhere(old(self).contributions(), self.contributions(), cc));
        }
        Ok(())
    }
}

} // verus!
