//! The records kept by the registry and the errors its operations report.
use crate::amount::Amount;
use vstd::prelude::*;
use vstd::string::StringExecFns;

verus! {

/// A member of the parish.
#[derive(Debug, Clone)]
pub struct Member {
    pub id: i64,
    pub card_number: String,
    pub full_name: String,
    pub address: Option<String>,
    pub phone: Option<String>,
    pub job: Option<String>,
    /// "M" or "F".
    pub gender: String,
    /// "Communiant" or "Cathekomen".
    pub member_type: String,
    pub created_at: String,
}

/// What a caller gives to create or replace a member.
#[derive(Debug, Clone)]
pub struct MemberInput {
    pub card_number: String,
    pub full_name: String,
    pub address: Option<String>,
    pub phone: Option<String>,
    pub job: Option<String>,
    pub gender: String,
    pub member_type: String,
}

/// A member with the sum of all their contributions, written as a whole number.
#[derive(Debug, Clone)]
pub struct MemberWithTotal {
    pub id: i64,
    pub card_number: String,
    pub full_name: String,
    pub address: Option<String>,
    pub phone: Option<String>,
    pub job: Option<String>,
    pub gender: String,
    pub member_type: String,
    pub created_at: String,
    pub total_contributions: String,
}

/// A payment made by a member.
#[derive(Debug, Clone)]
pub struct Contribution {
    pub id: i64,
    pub member_id: i64,
    /// "YYYY-MM-DD".
    pub payment_date: String,
    pub period: String,
    pub amount: Amount,
    /// The calendar year of `payment_date`.
    pub recorded_year: i32,
}

/// What a caller gives to record a contribution; the amount is a decimal text.
#[derive(Debug, Clone)]
pub struct ContributionInput {
    pub member_id: i64,
    pub payment_date: String,
    pub period: String,
    pub amount: String,
}

/// A contribution with the full name of the member who made it.
#[derive(Debug, Clone)]
pub struct ContributionWithMember {
    pub id: i64,
    pub member_id: i64,
    pub member_name: String,
    pub payment_date: String,
    pub period: String,
    pub amount: Amount,
    pub recorded_year: i32,
}

/// The financial record of one calendar year.
#[derive(Debug, Clone)]
pub struct YearSummary {
    pub year: i32,
    pub total: Amount,
    /// When the year was closed; `None` while it is open.
    pub closed_at: Option<String>,
    pub note: Option<String>,
}

/// Why an operation of the registry failed.
#[derive(Debug)]
pub enum AppError {
    /// The input breaks a rule: empty required field, bad amount or date, unknown category.
    Validation(String),
    /// The member, contribution or year referred to does not exist.
    NotFound(String),
    /// A uniqueness or reference constraint of the store would be broken.
    Conflict(String),
    /// The store cannot hold the result (an identifier or a total out of range).
    Storage(String),
}

impl AppError {
    /// The message carried by the error, for display.
    pub fn message(&self) -> (r: String)
        ensures
            r@ == match self {
                AppError::Validation(s) => s@,
                AppError::NotFound(s) => s@,
                AppError::Conflict(s) => s@,
                AppError::Storage(s) => s@,
            },
    {
        match self {
            AppError::Validation(s) => s.clone(),
            AppError::NotFound(s) => s.clone(),
            AppError::Conflict(s) => s.clone(),
            AppError::Storage(s) => s.clone(),
        }
    }
}

/// The two categories of members.
#[derive(Clone, Copy, Debug, PartialEq, Eq, Structural)]
pub enum TypeMembre {
    Communiant,
    Cathekomen,
}

impl TypeMembre {
    /// The stored name of the category.
    pub fn as_str(self) -> (r: &'static str)
        ensures
            r@ == category_name(self),
    {
        match self {
            TypeMembre::Communiant => "Communiant",
            TypeMembre::Cathekomen => "Cathekomen",
        }
    }
}

pub open spec fn category_name(t: TypeMembre) -> Seq<char> {
    match t {
        TypeMembre::Communiant => "Communiant"@,
        TypeMembre::Cathekomen => "Cathekomen"@,
    }
}

/// Whether a text names one of the two member categories.
pub open spec fn is_member_type(s: Seq<char>) -> bool {
    s == "Communiant"@ || s == "Cathekomen"@
}

pub fn clone_opt(o: &Option<String>) -> (r: Option<String>)
    ensures
        r == *o,
{
    match o {
        Some(s) => Some(s.clone()),
        None => None,
    }
}

pub(crate) fn error_text(s: &str) -> (r: String)
    ensures
        r@ == s@,
{
    String::from_str(s)
}

impl Member {
    /// A copy of the record.
    pub fn cloned(&self) -> (r: Member)
        ensures
            r == *self,
    {
        Member {
            id: self.id,
            card_number: self.card_number.clone(),
            full_name: self.full_name.clone(),
            address: clone_opt(&self.address),
            phone: clone_opt(&self.phone),
            job: clone_opt(&self.job),
            gender: self.gender.clone(),
            member_type: self.member_type.clone(),
            created_at: self.created_at.clone(),
        }
    }
}

impl Contribution {
    /// A copy of the record.
    pub fn cloned(&self) -> (r: Contribution)
        ensures
            r == *self,
    {
        Contribution {
            id: self.id,
            member_id: self.member_id,
            payment_date: self.payment_date.clone(),
            period: self.period.clone(),
            amount: self.amount,
            recorded_year: self.recorded_year,
        }
    }
}

impl YearSummary {
    /// A copy of the record.
    pub fn cloned(&self) -> (r: YearSummary)
        ensures
            r == *self,
    {
        YearSummary {
            year: self.year,
            total: self.total,
            closed_at: clone_opt(&self.closed_at),
            note: clone_opt(&self.note),
        }
    }
}

} // verus!
