use timetrack::config::{vars_from_config, Config, OutputConfig};

#[test]
fn config_variables() {
    let cfg = Config {
        employee_name: "Ada".to_string(),
        employee_number: "42".to_string(),
        cost_center: "CC".to_string(),
        performance_type: "PT".to_string(),
        accounting_cycle: "2024-05".to_string(),
        default_attendance: "Office".to_string(),
        output: OutputConfig {
            upload_destination: String::new(),
            file_name_format: "{year}".to_string(),
            keys: vec!["Year".to_string()],
            values: vec!["{year}".to_string()],
            delimeter: ";".to_string(),
        },
        attendance_types: vec![("o".to_string(), "Office".to_string())],
    };
    let vars = vars_from_config(&cfg);
    let pairs: Vec<(&str, &str)> = vars.iter().map(|(k, v)| (k.as_str(), v.as_str())).collect();
    assert_eq!(
        pairs,
        vec![
            ("employee_name", "Ada"),
            ("employee_number", "42"),
            ("cost_center", "CC"),
            ("performance_type", "PT"),
            ("accounting_cycle", "2024-05"),
        ]
    );
}
