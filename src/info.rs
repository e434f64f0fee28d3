//! Descriptions of a gridded data file's dimensions and variables.
use vstd::prelude::*;
use std::collections::HashMap;

verus! {

/// One dimension of a data file.
#[derive(Debug, Clone)]
pub struct NetCdfDimensionInfo {
    pub name: String,
    pub length: usize,
    pub is_unlimited: bool,
}

/// One variable of a data file.
#[derive(Debug, Clone)]
pub struct NetCdfVariableInfo {
    pub name: String,
    pub data_type: String,
    pub dimensions: Vec<String>,
    pub attributes: HashMap<String, String>,
    pub shape: Vec<usize>,
}

/// A summary of a data file.
#[derive(Debug, Clone)]
pub struct NetCdfInfo {
    pub path: String,
    pub dimensions: Vec<NetCdfDimensionInfo>,
    pub variables: Vec<NetCdfVariableInfo>,
    pub global_attributes: HashMap<String, String>,
    pub file_size: Option<u64>,
    pub total_variables: usize,
    pub total_dimensions: usize,
}

} // verus!
