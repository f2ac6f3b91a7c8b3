//! Magma signature and coverage engine over the Equational Theories Project
//! law set.
//!
//! The central object is a *signature*: for a magma `M`, the bit vector over
//! the order-4 laws recording which ones `M` satisfies. Every separation
//! question is then a bit test, and coverage over a corpus of magmas is
//! bitset algebra over packed words.

pub mod corpus;
pub mod coverage;
pub mod dag;
pub mod etpdata;
pub mod ext;
pub mod ext_laws;
pub mod finite;
pub mod gauss;
pub mod generic;
pub mod graph;
pub mod law;
pub mod linear;
pub mod mat_tables;
pub mod modp;
pub mod nc;
pub mod nt;
pub mod problems;
pub mod quadratic;
pub mod rings;
pub mod sig;
pub mod transinv;
pub mod twist;
pub mod zmod_tables;

pub use dag::{Dag, EvalPlan};
pub use finite::{Engine, FiniteMagma};
pub use law::{parse_laws, Law, Term};
pub use sig::Signature;

use vstd::prelude::*;

verus! {

/// The ETP order-≤4 law count.
pub const N_LAWS_ORDER4: usize = 4694;

} // verus!
