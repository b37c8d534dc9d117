//! Membership and contribution registry of a parish office: members, their
//! contributions, and per-year totals that can be closed and reopened.
pub mod amount;
pub mod calendar;
pub mod laws;
pub mod model;
pub mod money;
pub mod repo;
pub mod tables;
pub mod text;

pub use amount::Amount;
pub use model::{
    AppError, Contribution, ContributionInput, ContributionWithMember, Member, MemberInput,
    MemberWithTotal, TypeMembre, YearSummary,
};
pub use money::format_ariary;
pub use repo::Repository;
