//! Versioned inference state for the sage type checker: the version tree
//! that scopes inference transactions, the interned type store, the
//! versioned union-find over types, and structural unification.

pub mod anti_unify;
pub mod body;
pub mod boundary;
pub mod bound;
pub mod copier;
pub mod cst;
pub mod db;
pub mod diagnostic;
pub mod diagnostics;
pub mod egraph;
pub mod generic_param;
pub mod goal;
pub mod item;
pub mod merge;
pub mod method;
pub mod obligations;
pub mod resolve;
pub mod runtime;
pub mod skeleton;
pub mod solve;
pub mod trait_env;
pub mod ty;
pub mod unify;
pub mod version;
