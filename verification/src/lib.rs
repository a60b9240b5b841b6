use vstd::prelude::*;

pub mod text;
pub mod cellref;
pub mod sheet;
pub mod convert;
pub mod search;
pub mod license;
pub mod dates;
pub mod visibility;
pub mod alerts;
pub mod matching;
pub mod scan;
pub mod column_search;
pub mod row_search;
pub mod ui_state;
pub mod convert_plan;
pub mod table_input;
pub mod search_window;
pub mod config;

verus! {
} // verus!
