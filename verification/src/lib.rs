use vstd::prelude::*;

pub mod body;
pub mod list;
pub mod mail;
pub mod order;
pub mod pages;
pub mod sample;
pub mod site;
pub mod text;

verus! {

} // verus!
