//! A compact, verified index of a file hierarchy and the logic that lays it
//! out, browses it and carries it between processes.
pub mod cancel;
pub mod clock;
pub mod everything;
pub mod finish;
pub mod folder_index;
pub mod finished;
pub mod ingest;
pub mod layout;
pub mod model;
pub mod navigation;
pub mod numbers;
pub mod order;
pub mod palette;
pub mod request;
pub mod shell;
pub mod synthetic;
pub mod totals;
pub mod transfer;
pub mod tree;
pub mod utf8_text;
pub mod validate;

use vstd::prelude::*;

verus! {

} // verus!
