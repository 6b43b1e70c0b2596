//! A library for a site that lists protests: how regions are grouped for
//! the search form, how search requests become database queries, how form
//! input is read, how the session cookies are read and written, and how the
//! interface texts are looked up per language.
pub mod text;
pub mod regions;
pub mod model;
pub mod queries;
pub mod session;
pub mod localizer;
pub mod replies;

use vstd::prelude::*;

verus! {

} // verus!
