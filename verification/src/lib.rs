//! A recipe-ingredient scaling calculator core.
//!
//! An ordered list of ingredient rows (name, amount text, unit) supports
//! structural edits; one row can be selected as the scaling reference, and a
//! target amount entered for it yields a ratio that derives every other row's
//! scaled display amount. Amounts are exact fixed-point decimals, so the
//! ratio and every derived value are computed and proved exactly.

pub mod codec;
pub mod session;
pub mod text;
