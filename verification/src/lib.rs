//! The query-execution core of a SQL engine, with its behaviour stated and proved.
#![allow(unused_imports)]
use vstd::prelude::*;

pub mod array_text;
pub mod bind;
pub mod catalog;
pub mod error;
pub mod exec;
pub mod expr;
pub mod info_schema;
pub mod le;
pub mod memory;
pub mod names;
pub mod numbers;
pub mod operators;
pub mod order;
pub mod recursive;
pub mod rng;
pub mod row;
pub mod scan;
pub mod script;
pub mod sequence;
pub mod series;
pub mod session;
pub mod setops;
pub mod shape;
pub mod sort;
pub mod spill;
pub mod spill_setop;
pub mod spill_sort;
pub mod stats;
pub mod text;
pub mod types;
pub mod value;
pub mod vector;
pub mod window;

verus! {

} // verus!
