//! Employee and report settings, as the configuration file gives them.
use vstd::prelude::*;

verus! {

/// The settings of the person whose time is tracked, and of the report.
#[derive(Clone, Debug)]
pub struct Config {
    pub employee_name: String,
    pub employee_number: String,
    pub cost_center: String,
    pub performance_type: String,
    pub accounting_cycle: String,
    pub default_attendance: String,
    pub output: OutputConfig,
    /// Attendance types, each under its short name.
    pub attendance_types: Vec<(String, String)>,
}

/// How the report file is named and laid out: `values` are templates, one for
/// each column named in `keys`.
#[derive(Clone, Debug)]
pub struct OutputConfig {
    pub upload_destination: String,
    pub file_name_format: String,
    pub keys: Vec<String>,
    pub values: Vec<String>,
    pub delimeter: String,
}

/// The template variables that the configuration supplies, by name.
pub fn vars_from_config(cfg: &Config) -> (r: Vec<(String, String)>)
    ensures
        r@.len() == 5,
        r@[0].0@ == "employee_name"@ && r@[0].1@ == cfg.employee_name@,
        r@[1].0@ == "employee_number"@ && r@[1].1@ == cfg.employee_number@,
        r@[2].0@ == "cost_center"@ && r@[2].1@ == cfg.cost_center@,
        r@[3].0@ == "performance_type"@ && r@[3].1@ == cfg.performance_type@,
        r@[4].0@ == "accounting_cycle"@ && r@[4].1@ == cfg.accounting_cycle@,
{
    let mut vars: Vec<(String, String)> = Vec::new();
    vars.push((String::from_str("employee_name"), cfg.employee_name.clone()));
    vars.push((String::from_str("employee_number"), cfg.employee_number.clone()));
    vars.push((String::from_str("cost_center"), cfg.cost_center.clone()));
    vars.push((String::from_str("performance_type"), cfg.performance_type.clone()));
    vars.push((String::from_str("accounting_cycle"), cfg.accounting_cycle.clone()));
    vars
}

} // verus!
