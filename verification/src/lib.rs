use vstd::prelude::*;

pub mod chinese;
pub mod collections;
pub mod corpus;
pub mod index;
pub mod ordered;
pub mod query;
pub mod search;
pub mod teller;
pub mod text;
pub mod web;

verus! {

} // verus!
