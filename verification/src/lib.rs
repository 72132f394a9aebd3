//! Layout engine for a Venn-diagram style research catalogue.
//!
//! A document holds circular research *fields*, small circular *project*
//! nodes that belong to zero or more fields, and directed *relations*
//! between projects.  The engine places every project inside the fields it
//! belongs to and outside all others, spreads projects apart, keeps them
//! clear of relation arrows, and re-settles the whole layout after any
//! change to the document.
//!
//! All coordinates are integer drawing units.  Validity tests compare
//! squared distances, so the region constraints are exact; the iterative
//! parts (spiral search, force relaxation) use a fixed-point scale of one
//! thousandth of a unit.

pub mod balance;
pub mod edit;
pub mod geom;
pub mod laws;
pub mod models;
pub mod naming;
pub mod place;
pub mod region;
pub mod relax;
pub mod users;
pub mod validate;
