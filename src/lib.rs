//! Player colour allocation for board game sessions, with the small rules
//! around login confirmation codes.
pub mod color;
pub mod allocate;
pub mod login;
