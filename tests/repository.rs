use eglise::{Amount, AppError, ContributionInput, MemberInput, Repository};

fn make_repo() -> Repository {
    Repository::new()
}

fn member_input(card: &str, name: &str, mtype: &str) -> MemberInput {
    MemberInput {
        card_number: card.into(),
        full_name: name.into(),
        address: None,
        phone: None,
        job: None,
        gender: "M".into(),
        member_type: mtype.into(),
    }
}

fn contribution_input(member_id: i64, date: &str, period: &str, amount: &str) -> ContributionInput {
    ContributionInput {
        member_id,
        payment_date: date.into(),
        period: period.into(),
        amount: amount.into(),
    }
}

fn amount(s: &str) -> Amount {
    Amount::from_text(s).unwrap()
}

// ── Members ───────────────────────────────────────────────────────────────────

#[test]
fn test_create_member_ok() {
    let mut repo = make_repo();
    let m = repo.create_member(member_input("C001", "Jean Dupont", "Communiant")).unwrap();
    assert_eq!(m.card_number, "C001");
    assert_eq!(m.full_name, "Jean Dupont");
    assert_eq!(m.member_type, "Communiant");
    assert!(m.id > 0);
}

#[test]
fn test_create_member_carte_vide() {
    let mut repo = make_repo();
    let err = repo.create_member(member_input("", "Jean", "Communiant")).unwrap_err();
    assert!(matches!(err, AppError::Validation(_)));
}

#[test]
fn test_create_member_nom_vide() {
    let mut repo = make_repo();
    let err = repo.create_member(member_input("C001", "  ", "Communiant")).unwrap_err();
    assert!(matches!(err, AppError::Validation(_)));
}

#[test]
fn test_create_member_carte_duplicate() {
    let mut repo = make_repo();
    repo.create_member(member_input("C001", "Jean", "Communiant")).unwrap();
    let err = repo.create_member(member_input("C001", "Pierre", "Communiant")).unwrap_err();
    assert!(matches!(err, AppError::Conflict(_)));
}

#[test]
fn test_get_members_vide() {
    let repo = make_repo();
    let list = repo.get_members();
    assert!(list.is_empty());
}

#[test]
fn test_get_members() {
    let mut repo = make_repo();
    repo.create_member(member_input("C001", "Alice", "Communiant")).unwrap();
    repo.create_member(member_input("C002", "Bob", "Cathekomen")).unwrap();
    let list = repo.get_members();
    assert_eq!(list.len(), 2);
}

#[test]
fn test_get_members_by_type() {
    let mut repo = make_repo();
    repo.create_member(member_input("C001", "Alice", "Communiant")).unwrap();
    repo.create_member(member_input("C002", "Bob", "Cathekomen")).unwrap();
    repo.create_member(member_input("C003", "Carol", "Communiant")).unwrap();

    let comm = repo.get_members_by_type("Communiant");
    assert_eq!(comm.len(), 2);

    let cath = repo.get_members_by_type("Cathekomen");
    assert_eq!(cath.len(), 1);
}

#[test]
fn test_update_member() {
    let mut repo = make_repo();
    let m = repo.create_member(member_input("C001", "Alice", "Communiant")).unwrap();
    let updated = repo
        .update_member(m.id, member_input("C001-U", "Alice Martin", "Communiant"))
        .unwrap();
    assert_eq!(updated.card_number, "C001-U");
    assert_eq!(updated.full_name, "Alice Martin");
}

#[test]
fn test_delete_member_cascade() {
    let mut repo = make_repo();
    let m = repo.create_member(member_input("C001", "Alice", "Communiant")).unwrap();
    repo.create_contribution(contribution_input(m.id, "2024-03-01", "2024", "5000")).unwrap();
    repo.delete_member(m.id).unwrap();
    let list = repo.get_members();
    assert!(list.is_empty());
    let contribs = repo.get_contributions(m.id);
    assert!(contribs.is_empty());
}

#[test]
fn test_transfer_members() {
    let mut repo = make_repo();
    let m1 = repo.create_member(member_input("C001", "Alice", "Cathekomen")).unwrap();
    let m2 = repo.create_member(member_input("C002", "Bob", "Cathekomen")).unwrap();
    let n = repo.transfer_members(&[m1.id, m2.id], "Communiant").unwrap();
    assert_eq!(n, 2);
    let comm = repo.get_members_by_type("Communiant");
    assert_eq!(comm.len(), 2);
    let cath = repo.get_members_by_type("Cathekomen");
    assert!(cath.is_empty());
}

#[test]
fn test_transfer_ids_vides() {
    let mut repo = make_repo();
    let n = repo.transfer_members(&[], "Communiant").unwrap();
    assert_eq!(n, 0);
}

// ── Totals per member ─────────────────────────────────────────────────────────

#[test]
fn test_total_contributions_zero() {
    let mut repo = make_repo();
    repo.create_member(member_input("C001", "Alice", "Communiant")).unwrap();
    let list = repo.get_members_by_type_with_total("Communiant").unwrap();
    assert_eq!(list.len(), 1);
    assert_eq!(list[0].total_contributions, "0");
}

#[test]
fn test_total_contributions_somme() {
    let mut repo = make_repo();
    let m = repo.create_member(member_input("C001", "Alice", "Communiant")).unwrap();
    repo.create_contribution(contribution_input(m.id, "2024-01-15", "2024", "10000")).unwrap();
    repo.create_contribution(contribution_input(m.id, "2024-06-01", "2024", "5000.50")).unwrap();
    let list = repo.get_members_by_type_with_total("Communiant").unwrap();
    let total: f64 = list[0].total_contributions.parse().unwrap();
    assert!((total - 15000.0).abs() < 2.0);
}

// ── Contributions ─────────────────────────────────────────────────────────────

#[test]
fn test_create_contribution_ok() {
    let mut repo = make_repo();
    let m = repo.create_member(member_input("C001", "Alice", "Communiant")).unwrap();
    let c = repo
        .create_contribution(contribution_input(m.id, "2024-03-15", "2024", "12000"))
        .unwrap();
    assert_eq!(c.member_id, m.id);
    assert_eq!(c.period, "2024");
    assert_eq!(c.recorded_year, 2024);
    assert_eq!(c.amount.to_text(), "12000");
}

#[test]
fn test_create_contribution_montant_invalide() {
    let mut repo = make_repo();
    let m = repo.create_member(member_input("C001", "Alice", "Communiant")).unwrap();
    let err = repo
        .create_contribution(contribution_input(m.id, "2024-03-15", "2024", "abc"))
        .unwrap_err();
    assert!(matches!(err, AppError::Validation(_)));
}

#[test]
fn test_create_contribution_montant_negatif() {
    let mut repo = make_repo();
    let m = repo.create_member(member_input("C001", "Alice", "Communiant")).unwrap();
    let err = repo
        .create_contribution(contribution_input(m.id, "2024-03-15", "2024", "-500"))
        .unwrap_err();
    assert!(matches!(err, AppError::Validation(_)));
}

#[test]
fn test_create_contribution_date_invalide() {
    let mut repo = make_repo();
    let m = repo.create_member(member_input("C001", "Alice", "Communiant")).unwrap();
    let err = repo
        .create_contribution(contribution_input(m.id, "15-03-2024", "2024", "1000"))
        .unwrap_err();
    assert!(matches!(err, AppError::Validation(_)));
}

#[test]
fn test_delete_contribution_recalcule_total() {
    let mut repo = make_repo();
    let m = repo.create_member(member_input("C001", "Alice", "Communiant")).unwrap();
    let c1 = repo
        .create_contribution(contribution_input(m.id, "2024-01-01", "2024", "10000"))
        .unwrap();
    repo.create_contribution(contribution_input(m.id, "2024-06-01", "2024", "5000")).unwrap();

    let s = repo.get_year_summary(2024).unwrap();
    assert_eq!(s.total, amount("15000"));

    repo.delete_contribution(c1.id).unwrap();
    let s2 = repo.get_year_summary(2024).unwrap();
    assert_eq!(s2.total, amount("5000"));
}

#[test]
fn test_get_contributions_by_year_with_member() {
    let mut repo = make_repo();
    let m = repo.create_member(member_input("C001", "Alice Rakoto", "Communiant")).unwrap();
    repo.create_contribution(contribution_input(m.id, "2024-04-10", "2024", "8000")).unwrap();
    let list = repo.get_contributions_by_year_with_member(2024);
    assert_eq!(list.len(), 1);
    assert_eq!(list[0].member_name, "Alice Rakoto");
    assert_eq!(list[0].recorded_year, 2024);
}

// ── Year summaries ────────────────────────────────────────────────────────────

#[test]
fn test_year_summary_auto_cree() {
    let mut repo = make_repo();
    let m = repo.create_member(member_input("C001", "Alice", "Communiant")).unwrap();
    repo.create_contribution(contribution_input(m.id, "2023-05-01", "2023", "20000")).unwrap();
    let s = repo.get_year_summary(2023).unwrap();
    assert_eq!(s.year, 2023);
    assert_eq!(s.total, amount("20000"));
    assert!(s.closed_at.is_none());
}

#[test]
fn test_close_and_reopen_year() {
    let mut repo = make_repo();
    let m = repo.create_member(member_input("C001", "Alice", "Communiant")).unwrap();
    repo.create_contribution(contribution_input(m.id, "2022-01-01", "2022", "50000")).unwrap();

    let closed = repo.close_year(2022, Some("Test note".into())).unwrap();
    assert!(closed.closed_at.is_some());
    assert_eq!(closed.note.as_deref(), Some("Test note"));

    let reopened = repo.reopen_year(2022).unwrap();
    assert!(reopened.closed_at.is_none());
    assert!(reopened.note.is_none());
}

#[test]
fn test_close_year_sans_contributions() {
    let mut repo = make_repo();
    let m = repo.create_member(member_input("C001", "Alice", "Communiant")).unwrap();
    repo.create_contribution(contribution_input(m.id, "2021-01-01", "2021", "0")).unwrap();
    let closed = repo.close_year(2021, None).unwrap();
    assert!(closed.closed_at.is_some());
}

#[test]
fn test_get_year_summaries_ordre_desc() {
    let mut repo = make_repo();
    let m = repo.create_member(member_input("C001", "Alice", "Communiant")).unwrap();
    repo.create_contribution(contribution_input(m.id, "2021-01-01", "2021", "1000")).unwrap();
    repo.create_contribution(contribution_input(m.id, "2023-01-01", "2023", "2000")).unwrap();
    repo.create_contribution(contribution_input(m.id, "2022-01-01", "2022", "3000")).unwrap();
    let list = repo.get_year_summaries();
    assert_eq!(list.len(), 3);
    assert_eq!(list[0].year, 2023);
    assert_eq!(list[1].year, 2022);
    assert_eq!(list[2].year, 2021);
}

#[test]
fn test_format_ariary_note() {
    let d = amount("1234567");
    assert_eq!(Repository::format_ariary_note(&d), "1 234 567 Ariary");
    let z = Amount::zero();
    assert_eq!(Repository::format_ariary_note(&z), "0 Ariary");
}
