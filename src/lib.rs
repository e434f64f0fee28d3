//! Filtering of gridded data by dimension and enumeration of the coordinate
//! tuples that survive, ready to be materialised as table rows.
//!
//! A data source's coordinate vectors reach the library as order keys (see
//! [`filters`]); filters turn them into [`filters::FilterResult`]s; a
//! [`extract::DimensionIndexManager`] folds the results into per-dimension
//! candidate sets or an explicit list of tuples; and
//! [`extract::extract_data_to_dataframe`] lists the surviving tuples with the
//! coordinate to show for each dimension of each row.

pub mod cli;
pub mod combinations;
pub mod error;
pub mod extract;
pub mod filters;
pub mod info;
pub mod laws;
pub mod names;
pub mod storage;
pub mod text;
