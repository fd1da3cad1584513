//! Multiple-choice exam questions read from a published spreadsheet.
pub mod lib_impp;
pub mod picking;
pub mod quiz;
pub mod sheet_cells;
mod pattern;
mod random;
pub mod text;
