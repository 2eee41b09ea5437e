use vstd::prelude::*;

pub mod db;
pub mod fetch;
pub mod images;
pub mod opml;
pub mod reader;
pub mod search;
pub mod text;

verus! {

} // verus!
