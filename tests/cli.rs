use nc2parquet::cli::{
    formula_arg, parse_formula, parse_rename_column, parse_unit_conversion, rename_column_arg,
    unit_conversion_arg, ConfigFormat, OutputFormat, ProgressConfig, TemplateType,
    ValidationConfig,
};
use nc2parquet::storage::StorageFactory;

#[test]
fn rename_column_trims_both_names() {
    let arg = parse_rename_column(" temp : temperature ").unwrap();
    assert_eq!(arg.old_name, "temp");
    assert_eq!(arg.new_name, "temperature");
}

#[test]
fn rename_column_rejects_wrong_shapes() {
    assert!(parse_rename_column("temp").is_err());
    assert!(parse_rename_column("a:b:c").is_err());
    assert!(parse_rename_column("temp: ").is_err());
    assert!(parse_rename_column(":x").is_err());
}

#[test]
fn unit_conversion_parses_three_parts() {
    let arg = parse_unit_conversion("temperature:kelvin:celsius").unwrap();
    assert_eq!(arg.column, "temperature");
    assert_eq!(arg.from_unit, "kelvin");
    assert_eq!(arg.to_unit, "celsius");
    assert!(parse_unit_conversion("temperature:kelvin").is_err());
    assert!(parse_unit_conversion("temperature: :celsius").is_err());
}

#[test]
fn formula_keeps_colons_in_source_part_and_drops_blank_sources() {
    let arg = parse_formula("speed:sqrt(u*u+v*v):u, v,,").unwrap();
    assert_eq!(arg.target_column, "speed");
    assert_eq!(arg.formula, "sqrt(u*u+v*v)");
    assert_eq!(arg.source_columns, vec!["u".to_string(), "v".to_string()]);
    let arg = parse_formula("t:a+b:x:y").unwrap();
    assert_eq!(arg.source_columns, vec!["x:y".to_string()]);
}

#[test]
fn formula_rejects_missing_parts() {
    assert!(parse_formula("speed:u+v").is_err());
    assert!(parse_formula("speed:u+v: , ").is_err());
    assert!(parse_formula(" :u+v:u").is_err());
}

#[test]
fn storage_path_detection() {
    assert!(StorageFactory::is_s3_path("s3://my-bucket/file.nc"));
    assert!(!StorageFactory::is_s3_path("/local/path/file.nc"));
    assert!(!StorageFactory::is_s3_path("relative/path/file.nc"));
    assert!(!StorageFactory::is_s3_path("s3:/"));

    assert!(StorageFactory::is_local_path("/local/path/file.nc"));
    assert!(StorageFactory::is_local_path("relative/path/file.nc"));
    assert!(!StorageFactory::is_local_path("s3://my-bucket/file.nc"));
}

#[test]
fn option_defaults() {
    let progress = ProgressConfig::default();
    assert!(progress.enabled);
    assert_eq!(progress.interval, Some(1));
    assert!(progress.style.is_some());
    let validation = ValidationConfig::default();
    assert!(!validation.strict);
    assert!(validation.check_s3_paths);
    assert!(!validation.check_file_access);
    assert_ne!(OutputFormat::Json, OutputFormat::Yaml);
    assert_ne!(TemplateType::Basic, TemplateType::Ocean);
    assert_ne!(ConfigFormat::Json, ConfigFormat::Yaml);
}

#[test]
fn trimmed_parts_become_arguments() {
    let arg = rename_column_arg("a".to_string(), "b".to_string()).unwrap();
    assert_eq!((arg.old_name.as_str(), arg.new_name.as_str()), ("a", "b"));
    assert!(rename_column_arg(String::new(), "b".to_string()).is_err());

    let arg = unit_conversion_arg("t".to_string(), "K".to_string(), "C".to_string()).unwrap();
    assert_eq!(arg.to_unit, "C");
    assert!(unit_conversion_arg("t".to_string(), String::new(), "C".to_string()).is_err());

    let pieces = vec!["".to_string(), "x".to_string(), "".to_string(), "y".to_string()];
    let arg = formula_arg("z".to_string(), "x+y".to_string(), &pieces).unwrap();
    assert_eq!(arg.source_columns, vec!["x".to_string(), "y".to_string()]);
    assert!(formula_arg("z".to_string(), "x".to_string(), &vec![String::new()]).is_err());
}
