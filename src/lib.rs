//! Name-color picker: a color model, the button-driven selection session,
//! and the reconciliation of a member's personal color role.
pub mod color;
pub mod session;
pub mod roles;
