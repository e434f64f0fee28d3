use nc2parquet::info::{NetCdfDimensionInfo, NetCdfVariableInfo};

#[test]
fn test_dimension_info_structure() {
    let dim = NetCdfDimensionInfo {
        name: "time".to_string(),
        length: 10,
        is_unlimited: true,
    };

    assert_eq!(dim.name, "time");
    assert_eq!(dim.length, 10);
    assert!(dim.is_unlimited);
}

#[test]
fn test_variable_info_structure() {
    let mut attributes = std::collections::HashMap::new();
    attributes.insert("units".to_string(), "celsius".to_string());

    let var = NetCdfVariableInfo {
        name: "temperature".to_string(),
        data_type: "Float(F32)".to_string(),
        dimensions: vec!["time".to_string(), "lat".to_string()],
        attributes,
        shape: vec![10, 20],
    };

    assert_eq!(var.name, "temperature");
    assert_eq!(var.data_type, "Float(F32)");
    assert_eq!(var.dimensions.len(), 2);
    assert_eq!(var.shape, vec![10, 20]);
    assert!(var.attributes.contains_key("units"));
}
