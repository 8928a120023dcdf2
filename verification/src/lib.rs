//! Verified core of a plain-text workspace: path arithmetic, identifier
//! generation, fuzzy search scoring, task ordering and task predicates.
use vstd::prelude::*;

pub mod accounting;
pub mod agenda;
pub mod bibliography;
pub mod cache;
pub mod citations;
pub mod completion;
pub mod csl;
pub mod cursor;
pub mod diagnostics;
pub mod event_pages;
pub mod events;
pub mod filters;
pub mod graph;
pub mod ids;
pub mod index;
pub mod keyed;
pub mod moves;
pub mod order;
pub mod paths;
pub mod predicate;
pub mod query;
pub mod references;
pub mod refs;
pub mod rename;
pub mod root;
pub mod search;
pub mod shorthand;
pub mod shortlist;
pub mod task_checks;
pub mod task_page;
pub mod task_sort;
pub mod task_tree;
pub mod text;
pub mod time;
pub mod workflow;

verus! {

} // verus!
