use eglise::{
    format_ariary, Amount, AppError, Contribution, ContributionInput, Member, MemberInput,
    Repository, TypeMembre,
};

fn member(card: &str, name: &str, mtype: &str) -> MemberInput {
    MemberInput {
        card_number: card.into(),
        full_name: name.into(),
        address: Some("Lot II A".into()),
        phone: None,
        job: None,
        gender: "F".into(),
        member_type: mtype.into(),
    }
}

fn contribution(member_id: i64, date: &str, amount: &str) -> ContributionInput {
    ContributionInput {
        member_id,
        payment_date: date.into(),
        period: "P".into(),
        amount: amount.into(),
    }
}

fn amount(s: &str) -> Amount {
    Amount::from_text(s).unwrap()
}

#[test]
fn create_member_sets_identity_and_timestamp() {
    let mut repo = Repository::new();
    let m = repo.create_member(member("C001", "Jean Dupont", "Communiant")).unwrap();
    assert!(m.id > 0);
    assert_eq!(m.card_number, "C001");
    assert_eq!(m.created_at.len(), 19);
    assert_eq!(&m.created_at[4..5], "-");
    assert_eq!(&m.created_at[10..11], "T");
    assert_eq!(repo.get_member(m.id).unwrap().created_at, m.created_at);
}

#[test]
fn create_member_at_keeps_given_timestamp() {
    let mut repo = Repository::new();
    let m = repo
        .create_member_at(member("C9", "Zoe", "Cathekomen"), "2024-01-02T03:04:05".into())
        .unwrap();
    assert_eq!(m.created_at, "2024-01-02T03:04:05");
    assert_eq!(m.address.as_deref(), Some("Lot II A"));
}

#[test]
fn members_listed_by_name() {
    let mut repo = Repository::new();
    repo.create_member(member("C1", "Marc", "Communiant")).unwrap();
    repo.create_member(member("C2", "Alice", "Cathekomen")).unwrap();
    repo.create_member(member("C3", "Zoe", "Communiant")).unwrap();
    repo.create_member(member("C4", "Bruno", "Communiant")).unwrap();
    let names: Vec<String> = repo.get_members().into_iter().map(|m| m.full_name).collect();
    assert_eq!(names, vec!["Alice", "Bruno", "Marc", "Zoe"]);
    let names: Vec<String> =
        repo.get_members_by_type("Communiant").into_iter().map(|m| m.full_name).collect();
    assert_eq!(names, vec!["Bruno", "Marc", "Zoe"]);
}

#[test]
fn duplicate_card_leaves_store_unchanged() {
    let mut repo = Repository::new();
    let first = repo.create_member(member("C001", "Jean", "Communiant")).unwrap();
    let err = repo.create_member(member("C001", "Pierre", "Communiant")).unwrap_err();
    assert!(matches!(err, AppError::Conflict(_)));
    let all = repo.get_members();
    assert_eq!(all.len(), 1);
    assert_eq!(all[0].id, first.id);
    assert_eq!(all[0].full_name, "Jean");
}

#[test]
fn update_member_errors() {
    let mut repo = Repository::new();
    let a = repo.create_member(member("C1", "Alice", "Communiant")).unwrap();
    repo.create_member(member("C2", "Bob", "Communiant")).unwrap();
    let err = repo.update_member(999, member("C3", "Nobody", "Communiant")).unwrap_err();
    assert!(matches!(err, AppError::NotFound(_)));
    let err = repo.update_member(a.id, member("C2", "Alice", "Communiant")).unwrap_err();
    assert!(matches!(err, AppError::Conflict(_)));
    let err = repo.update_member(a.id, member("C1", " ", "Communiant")).unwrap_err();
    assert!(matches!(err, AppError::Validation(_)));
    let same = repo.update_member(a.id, member("C1", "Alicia", "Cathekomen")).unwrap();
    assert_eq!(same.id, a.id);
    assert_eq!(same.created_at, a.created_at);
    assert_eq!(same.member_type, "Cathekomen");
}

#[test]
fn get_member_not_found() {
    let repo = Repository::new();
    assert!(matches!(repo.get_member(7), Err(AppError::NotFound(_))));
}

#[test]
fn transfer_rejects_unknown_category() {
    let mut repo = Repository::new();
    let a = repo.create_member(member("C1", "Alice", "Cathekomen")).unwrap();
    let err = repo.transfer_members(&[a.id], "Membre").unwrap_err();
    assert!(matches!(err, AppError::Validation(_)));
    assert_eq!(repo.get_members_by_type("Cathekomen").len(), 1);
    assert_eq!(repo.transfer_members(&[], "Membre").unwrap(), 0);
}

#[test]
fn transfer_counts_listed_members_only() {
    let mut repo = Repository::new();
    let a = repo.create_member(member("C1", "Alice", "Cathekomen")).unwrap();
    let b = repo.create_member(member("C2", "Bob", "Cathekomen")).unwrap();
    let n = repo.transfer_members(&[a.id, a.id, 555], "Communiant").unwrap();
    assert_eq!(n, 1);
    assert_eq!(repo.get_member(a.id).unwrap().member_type, "Communiant");
    assert_eq!(repo.get_member(b.id).unwrap().member_type, "Cathekomen");
}

#[test]
fn contribution_records_year_and_total() {
    let mut repo = Repository::new();
    let m = repo.create_member(member("C1", "Alice", "Communiant")).unwrap();
    let c = repo.create_contribution(contribution(m.id, "2024-03-15", "12000")).unwrap();
    assert_eq!(c.recorded_year, 2024);
    assert!(c.amount.same_value(&amount("12000")));
    assert!(repo.get_year_summary(2024).unwrap().total.same_value(&amount("12000")));
}

#[test]
fn deleting_first_of_two_leaves_second_in_total() {
    let mut repo = Repository::new();
    let m = repo.create_member(member("C1", "Alice", "Communiant")).unwrap();
    let c1 = repo.create_contribution(contribution(m.id, "2024-02-01", "10000")).unwrap();
    repo.create_contribution(contribution(m.id, "2024-03-01", "5000")).unwrap();
    repo.delete_contribution(c1.id).unwrap();
    assert!(repo.get_year_summary(2024).unwrap().total.same_value(&amount("5000")));
}

#[test]
fn year_total_is_exact_decimal_sum() {
    let mut repo = Repository::new();
    let m = repo.create_member(member("C1", "Alice", "Communiant")).unwrap();
    repo.create_contribution(contribution(m.id, "2024-01-01", "0.1")).unwrap();
    repo.create_contribution(contribution(m.id, "2024-01-02", "0.2")).unwrap();
    let c = repo.create_contribution(contribution(m.id, "2024-01-03", "1000.25")).unwrap();
    repo.create_contribution(contribution(m.id, "2025-01-03", "7")).unwrap();
    let t = repo.get_year_summary(2024).unwrap().total;
    assert!(t.same_value(&amount("1000.55")));
    assert_eq!(t.to_text(), "1000.55");
    repo.delete_contribution(c.id).unwrap();
    assert!(repo.get_year_summary(2024).unwrap().total.same_value(&amount("0.3")));
    assert!(repo.get_year_summary(2025).unwrap().total.same_value(&amount("7")));
}

#[test]
fn amount_text_keeps_decimal_places() {
    assert_eq!(amount("5000.50").to_text(), "5000.50");
    assert_eq!(amount(" 12 ".trim()).to_text(), "12");
    assert!(amount("15000").same_value(&amount("15000.000")));
    assert!(!amount("15000").same_value(&amount("15000.001")));
    assert!(Amount::from_text("-3").is_none());
    assert!(Amount::from_text("x1").is_none());
}

#[test]
fn contribution_amount_is_trimmed() {
    let mut repo = Repository::new();
    let m = repo.create_member(member("C1", "Alice", "Communiant")).unwrap();
    let c = repo.create_contribution(contribution(m.id, "2024-03-15", "  250 ")).unwrap();
    assert_eq!(c.amount.to_text(), "250");
}

#[test]
fn delete_member_cascades_and_refreshes_totals() {
    let mut repo = Repository::new();
    let a = repo.create_member(member("C1", "Alice", "Communiant")).unwrap();
    let b = repo.create_member(member("C2", "Bob", "Communiant")).unwrap();
    repo.create_contribution(contribution(a.id, "2024-01-01", "100")).unwrap();
    repo.create_contribution(contribution(b.id, "2024-01-02", "40")).unwrap();
    repo.delete_member(a.id).unwrap();
    let left = repo.get_contributions_by_year(2024);
    assert_eq!(left.len(), 1);
    assert_eq!(left[0].member_id, b.id);
    assert!(repo.get_year_summary(2024).unwrap().total.same_value(&amount("40")));
    repo.delete_member(12345).unwrap();
    assert_eq!(repo.get_members().len(), 1);
}

#[test]
fn failed_contribution_changes_nothing() {
    let mut repo = Repository::new();
    let m = repo.create_member(member("C1", "Alice", "Communiant")).unwrap();
    let err = repo.create_contribution(contribution(m.id + 10, "2020-05-05", "10")).unwrap_err();
    assert!(matches!(err, AppError::Conflict(_)));
    let err = repo.create_contribution(contribution(m.id, "2020-02-30", "10")).unwrap_err();
    assert!(matches!(err, AppError::Validation(_)));
    assert!(repo.get_year_summary(2020).is_none());
    assert!(repo.get_contributions(m.id).is_empty());
    assert!(repo.get_year_summaries().is_empty());
}

#[test]
fn delete_missing_contribution_is_not_found() {
    let mut repo = Repository::new();
    assert!(matches!(repo.delete_contribution(3), Err(AppError::NotFound(_))));
}

#[test]
fn contributions_listed_latest_first_and_archive_earliest_first() {
    let mut repo = Repository::new();
    let m = repo.create_member(member("C1", "Alice", "Communiant")).unwrap();
    repo.create_contribution(contribution(m.id, "2024-05-01", "1")).unwrap();
    repo.create_contribution(contribution(m.id, "2024-01-01", "2")).unwrap();
    repo.create_contribution(contribution(m.id, "2024-09-01", "3")).unwrap();
    let dates: Vec<String> =
        repo.get_contributions(m.id).into_iter().map(|c| c.payment_date).collect();
    assert_eq!(dates, vec!["2024-09-01", "2024-05-01", "2024-01-01"]);
    let dates: Vec<String> = repo
        .get_contributions_by_year_with_member(2024)
        .into_iter()
        .map(|c| c.payment_date)
        .collect();
    assert_eq!(dates, vec!["2024-01-01", "2024-05-01", "2024-09-01"]);
}

#[test]
fn recompute_twice_gives_same_total() {
    let mut repo = Repository::new();
    let m = repo.create_member(member("C1", "Alice", "Communiant")).unwrap();
    repo.create_contribution(contribution(m.id, "2023-01-01", "12.5")).unwrap();
    repo.refresh_year_total(2023).unwrap();
    let first = repo.get_year_summary(2023).unwrap().total;
    repo.refresh_year_total(2023).unwrap();
    let second = repo.get_year_summary(2023).unwrap().total;
    assert_eq!(first, second);
    repo.refresh_year_total(1999).unwrap();
    assert!(repo.get_year_summary(1999).unwrap().total.same_value(&Amount::zero()));
}

#[test]
fn close_then_reopen_keeps_total() {
    let mut repo = Repository::new();
    let m = repo.create_member(member("C1", "Alice", "Communiant")).unwrap();
    repo.create_contribution(contribution(m.id, "2022-06-01", "50000")).unwrap();
    let closed = repo.close_year(2022, Some("note".into())).unwrap();
    assert!(closed.closed_at.is_some());
    assert_eq!(closed.note.as_deref(), Some("note"));
    assert!(closed.total.same_value(&amount("50000")));
    let reopened = repo.reopen_year(2022).unwrap();
    assert!(reopened.closed_at.is_none());
    assert!(reopened.note.is_none());
    assert!(reopened.total.same_value(&amount("50000")));
}

#[test]
fn close_sees_contribution_just_added() {
    let mut repo = Repository::new();
    let m = repo.create_member(member("C1", "Alice", "Communiant")).unwrap();
    repo.create_contribution(contribution(m.id, "2022-06-01", "100")).unwrap();
    repo.create_contribution(contribution(m.id, "2022-07-01", "23")).unwrap();
    let closed = repo.close_year_at(2022, None, "2023-01-01T00:00:00".into()).unwrap();
    assert!(closed.total.same_value(&amount("123")));
    assert_eq!(closed.closed_at.as_deref(), Some("2023-01-01T00:00:00"));
}

#[test]
fn reopen_unknown_year_is_not_found() {
    let mut repo = Repository::new();
    assert!(matches!(repo.reopen_year(1990), Err(AppError::NotFound(_))));
}

#[test]
fn automatic_close_writes_note_once() {
    let mut repo = Repository::new();
    let m = repo.create_member(member("C1", "Alice", "Communiant")).unwrap();
    repo.create_contribution(contribution(m.id, "2022-06-01", "1234567.89")).unwrap();
    let s = repo.check_and_close_year_at(2022, "2023-01-01T08:00:00".into()).unwrap().unwrap();
    assert_eq!(s.note.as_deref(), Some("CONTRIBUTIONS de l'année 2022 / TOTAL : 1 234 567 Ariary"));
    assert_eq!(s.closed_at.as_deref(), Some("2023-01-01T08:00:00"));
    assert!(repo.check_and_close_year_at(2022, "2023-01-02T08:00:00".into()).unwrap().is_none());
    let empty = repo.check_and_close_year_at(2019, "2023-01-01T08:00:00".into()).unwrap().unwrap();
    assert_eq!(empty.note.as_deref(), Some("CONTRIBUTIONS de l'année 2019 / TOTAL : 0 Ariary"));
}

#[test]
fn previous_year_closes_once() {
    let mut repo = Repository::new();
    let first = repo.check_and_close_previous_year().unwrap();
    assert!(first.is_some());
    assert!(first.unwrap().closed_at.is_some());
    assert!(repo.check_and_close_previous_year().unwrap().is_none());
}

#[test]
fn member_totals_truncate_fractions() {
    let mut repo = Repository::new();
    let a = repo.create_member(member("C1", "Alice", "Communiant")).unwrap();
    repo.create_member(member("C2", "Bob", "Cathekomen")).unwrap();
    repo.create_contribution(contribution(a.id, "2024-01-15", "10000")).unwrap();
    repo.create_contribution(contribution(a.id, "2025-06-01", "5000.99")).unwrap();
    let list = repo.get_members_by_type_with_total("Communiant").unwrap();
    assert_eq!(list.len(), 1);
    assert_eq!(list[0].total_contributions, "15000");
}

#[test]
fn ariary_display_groups_with_narrow_spaces() {
    assert_eq!(format_ariary("1234567"), "1\u{202f}234\u{202f}567\u{202f}Ar");
    assert_eq!(format_ariary("15000.50"), "15\u{202f}000\u{202f}Ar");
    assert_eq!(format_ariary("abc"), "0\u{202f}Ar");
    assert_eq!(format_ariary("999"), "999\u{202f}Ar");
    assert_eq!(format_ariary("-150"), "-\u{202f}150\u{202f}Ar");
    assert_eq!(format_ariary("-1500.7"), "-1\u{202f}500\u{202f}Ar");
    assert_eq!(format_ariary("1_000"), "1\u{202f}000\u{202f}Ar");
}

#[test]
fn note_amount_grouping() {
    assert_eq!(Repository::format_ariary_note(&amount("1000")), "1 000 Ariary");
    assert_eq!(Repository::format_ariary_note(&amount("999.99")), "999 Ariary");
    assert_eq!(Repository::format_ariary_note(&amount("12345678")), "12 345 678 Ariary");
}

#[test]
fn member_type_names() {
    assert_eq!(TypeMembre::Communiant.as_str(), "Communiant");
    assert_eq!(TypeMembre::Cathekomen.as_str(), "Cathekomen");
}

#[test]
fn error_messages_are_readable() {
    let mut repo = Repository::new();
    let err = repo.create_member(member("", "X", "Communiant")).unwrap_err();
    assert!(!err.message().is_empty());
}

#[test]
fn restore_takes_back_stored_rows() {
    let mut repo = Repository::new();
    let m = Member {
        id: 7,
        card_number: "C7".into(),
        full_name: "Hery".into(),
        address: None,
        phone: None,
        job: None,
        gender: "M".into(),
        member_type: "Communiant".into(),
        created_at: "2020-01-01T00:00:00".into(),
    };
    repo.restore_member(m.clone()).unwrap();
    assert!(matches!(repo.restore_member(m.clone()), Err(AppError::Conflict(_))));
    let c = Contribution {
        id: 40,
        member_id: 7,
        payment_date: "2021-04-04".into(),
        period: "2021".into(),
        amount: amount("300.5"),
        recorded_year: 2021,
    };
    repo.restore_contribution(c.clone()).unwrap();
    assert!(matches!(repo.restore_contribution(c.clone()), Err(AppError::Conflict(_))));
    let wrong_year = Contribution { id: 41, recorded_year: 2020, ..c.clone() };
    assert!(matches!(repo.restore_contribution(wrong_year), Err(AppError::Validation(_))));
    let orphan = Contribution { id: 42, member_id: 8, ..c.clone() };
    assert!(matches!(repo.restore_contribution(orphan), Err(AppError::Conflict(_))));
    assert!(repo.get_year_summary(2021).unwrap().total.same_value(&amount("300.5")));
    let s = repo
        .restore_year_state(2021, Some("2022-01-01T00:00:00".into()), Some("fermé".into()))
        .unwrap();
    assert_eq!(s.note.as_deref(), Some("fermé"));
    let next = repo.create_member(member("C8", "Lova", "Communiant")).unwrap();
    assert_eq!(next.id, 8);
    let nc = repo.create_contribution(contribution(next.id, "2021-05-05", "1")).unwrap();
    assert_eq!(nc.id, 41);
    assert_eq!(repo.get_all_contributions().len(), 2);
    assert!(repo.get_year_summary(2021).unwrap().total.same_value(&amount("301.5")));
}

#[test]
fn deletes_always_succeed_on_existing_rows() {
    let mut repo = Repository::new();
    let m = repo.create_member(member("C1", "Alice", "Communiant")).unwrap();
    let c = repo.create_contribution(contribution(m.id, "2024-01-01", "79228162514264337593543950335")).unwrap();
    repo.delete_contribution(c.id).unwrap();
    assert!(repo.get_year_summary(2024).unwrap().total.same_value(&Amount::zero()));
    let err = repo.create_contribution(contribution(m.id, "2024-01-01", "79228162514264337593543950335")).unwrap();
    let over = repo.create_contribution(contribution(m.id, "2024-02-01", "1")).unwrap_err();
    assert!(matches!(over, AppError::Storage(_)));
    assert_eq!(repo.get_contributions_by_year(2024).len(), 1);
    assert_eq!(err.recorded_year, 2024);
    repo.delete_member(m.id).unwrap();
    assert!(repo.get_year_summary(2024).unwrap().total.same_value(&Amount::zero()));
}
