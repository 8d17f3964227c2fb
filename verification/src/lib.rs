use vstd::prelude::*;

pub mod chars;
mod errors;
pub mod paths;
pub mod gitrepo;
pub mod ingest;
pub mod nar;
pub mod narinfo;
pub mod refnames;
pub mod store;

pub use errors::StoreError;

verus! {

} // verus!
