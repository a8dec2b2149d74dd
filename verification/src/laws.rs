//! What holds of every parse.
//!
//! - [`whole`] has laws of a whole parse, and [`recovery`] those of what fails; the other modules
//!   lead up to them.
//! - [`accounts`] goes through the productions and shows what becomes of each token: what
//!   [`ledger`] and [`lawful`] ask for.
//! - [`language`] says which trees are programs. Their texts are read without an error
//!   ([`complete`], by way of [`reading`]), and nothing else is ([`exact`]).
//! - [`mistakes`] says of any text which [`parts`] it has, mistakes and all; and [`outcome`] that
//!   the parser finds them.
//! - [`context`] shows that what came before does not matter: parsers that are [`alike`] end
//!   alike.
//! - [`precedence`] says how operators group.
pub mod accounts;
pub mod alike;
pub mod complete;
pub mod context;
pub mod exact;
pub mod language;
pub mod lawful;
pub mod ledger;
pub mod mistakes;
pub mod outcome;
pub mod parts;
pub mod precedence;
pub mod reading;
pub mod recovery;
pub mod whole;
