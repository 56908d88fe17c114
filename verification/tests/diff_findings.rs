use soroban_upgrade_safeguard::contract::ContractSpec;
use soroban_upgrade_safeguard::diff::compare;
use soroban_upgrade_safeguard::finding::{DiffReport, Finding, Severity};
use soroban_upgrade_safeguard::model::{
    EnumCase, EnumDef, FunctionDef, FunctionInput, SpecEntry, StructDef, StructField, TypeDef,
};

fn function(name: &str, inputs: Vec<(&str, TypeDef)>, outputs: Vec<TypeDef>) -> SpecEntry {
    SpecEntry::Function(FunctionDef {
        name: name.to_string(),
        inputs: inputs
            .into_iter()
            .map(|(n, t)| FunctionInput { name: n.to_string(), type_: t })
            .collect(),
        outputs,
    })
}

fn structure(name: &str, fields: Vec<(&str, TypeDef)>) -> SpecEntry {
    SpecEntry::Struct(StructDef {
        name: name.to_string(),
        fields: fields
            .into_iter()
            .map(|(n, t)| StructField { name: n.to_string(), type_: t })
            .collect(),
    })
}

fn enumeration(name: &str, cases: Vec<(&str, u32)>) -> SpecEntry {
    SpecEntry::Enum(EnumDef {
        name: name.to_string(),
        cases: cases
            .into_iter()
            .map(|(n, v)| EnumCase { name: n.to_string(), value: v })
            .collect(),
    })
}

fn spec(entries: Vec<SpecEntry>) -> ContractSpec {
    ContractSpec::from_entries(entries)
}

fn only(report: &DiffReport) -> &Finding {
    assert_eq!(report.findings.len(), 1, "expected exactly one finding");
    &report.findings[0]
}

fn check(f: &Finding, severity: Severity, category: &str, message: &str, affected: Option<&str>) {
    assert_eq!(f.severity, severity);
    assert_eq!(f.category, category);
    assert_eq!(f.message, message);
    assert_eq!(f.affected_type.as_deref(), affected);
}

#[test]
fn identical_interfaces_report_nothing() {
    let make = || {
        spec(vec![
            function("transfer", vec![("to", TypeDef::Address), ("amount", TypeDef::I128)], vec![]),
            structure("Data", vec![("a", TypeDef::U32), ("b", TypeDef::Udt("Inner".to_string()))]),
            structure("Inner", vec![("x", TypeDef::Bytes)]),
            enumeration("Color", vec![("Red", 0), ("Blue", 1)]),
        ])
    };
    let report = compare(&make(), &make());
    assert!(report.findings.is_empty());
    assert_eq!(report.critical_count(), 0);
}

#[test]
fn additive_upgrade_reports_only_additions() {
    let old = spec(vec![
        function("transfer", vec![("to", TypeDef::Address)], vec![]),
        structure("Data", vec![("a", TypeDef::U32)]),
    ]);
    let new = spec(vec![
        function("transfer", vec![("to", TypeDef::Address)], vec![]),
        function("mint", vec![("amount", TypeDef::I128)], vec![]),
        structure("Data", vec![("a", TypeDef::U32)]),
        structure("Extra", vec![("b", TypeDef::Udt("Data".to_string()))]),
        enumeration("Mode", vec![("On", 1)]),
    ]);
    let report = compare(&old, &new);
    assert_eq!(report.findings.len(), 3);
    check(&report.findings[0], Severity::Info, "Function Added", "New function 'mint' added.", None);
    check(&report.findings[1], Severity::Info, "Struct Added", "New struct 'Extra' added.", Some("Extra"));
    check(&report.findings[2], Severity::Info, "Enum Added", "New enum 'Mode' added.", Some("Mode"));
    assert_eq!(report.critical_count(), 0);
    assert_eq!(report.warning_count(), 0);
    assert_eq!(report.info_count(), 3);
}

#[test]
fn function_removed_and_added() {
    let old = spec(vec![function("old_fn", vec![], vec![])]);
    let new = spec(vec![function("new_fn", vec![], vec![])]);
    let report = compare(&old, &new);
    assert_eq!(report.findings.len(), 2);
    check(
        &report.findings[0],
        Severity::Critical,
        "Function Removed",
        "Function 'old_fn' was removed. Existing callers will break.",
        None,
    );
    check(&report.findings[1], Severity::Info, "Function Added", "New function 'new_fn' added.", None);
}

#[test]
fn parameter_count_change_stops_the_comparison() {
    let old = spec(vec![function("f", vec![("a", TypeDef::U32)], vec![TypeDef::U32])]);
    let new = spec(vec![function("f", vec![("a", TypeDef::U32), ("b", TypeDef::U32)], vec![TypeDef::U64])]);
    let report = compare(&old, &new);
    check(
        only(&report),
        Severity::Critical,
        "Function Signature Changed",
        "Function 'f': parameter count changed from 1 to 2.",
        None,
    );
}

#[test]
fn parameter_renamed_and_retyped() {
    let old = spec(vec![function("f", vec![("a", TypeDef::U32)], vec![])]);
    let new = spec(vec![function("f", vec![("b", TypeDef::OptionOf(Box::new(TypeDef::U32)))], vec![])]);
    let report = compare(&old, &new);
    assert_eq!(report.findings.len(), 2);
    check(
        &report.findings[0],
        Severity::Warning,
        "Parameter Renamed",
        "Function 'f': parameter 0 renamed from 'a' to 'b'.",
        None,
    );
    check(
        &report.findings[1],
        Severity::Critical,
        "Parameter Type Changed",
        "Function 'f': parameter 0 ('a') type changed from `u32` to `Option<u32>`.",
        None,
    );
}

#[test]
fn return_type_count_and_type_changes() {
    let old = spec(vec![function("f", vec![], vec![TypeDef::Bool])]);
    let new = spec(vec![function("f", vec![], vec![])]);
    check(
        only(&compare(&old, &new)),
        Severity::Critical,
        "Return Type Changed",
        "Function 'f': return type count changed from 1 to 0.",
        None,
    );
    let new = spec(vec![function("f", vec![], vec![TypeDef::Str])]);
    check(
        only(&compare(&old, &new)),
        Severity::Critical,
        "Return Type Changed",
        "Function 'f': return type 0 changed from `bool` to `String`.",
        None,
    );
}

#[test]
fn struct_removed_and_added() {
    let old = spec(vec![structure("Gone", vec![])]);
    let new = spec(vec![structure("Fresh", vec![])]);
    let report = compare(&old, &new);
    assert_eq!(report.findings.len(), 2);
    check(
        &report.findings[0],
        Severity::Critical,
        "Struct Removed",
        "Struct 'Gone' was removed. Storage or systems relying on this type will break.",
        Some("Gone"),
    );
    check(&report.findings[1], Severity::Info, "Struct Added", "New struct 'Fresh' added.", Some("Fresh"));
}

#[test]
fn event_struct_removed_uses_event_wording() {
    let old = spec(vec![structure("TransferEvent", vec![])]);
    let new = spec(vec![]);
    check(
        only(&compare(&old, &new)),
        Severity::Critical,
        "Event Definition Removed",
        "Event struct 'TransferEvent' was removed. Storage or systems relying on this type will break.",
        Some("TransferEvent"),
    );
}

#[test]
fn struct_field_removed() {
    let old = spec(vec![structure("S", vec![("a", TypeDef::U32), ("b", TypeDef::U32)])]);
    let new = spec(vec![structure("S", vec![("a", TypeDef::U32)])]);
    check(
        only(&compare(&old, &new)),
        Severity::Critical,
        "Struct Field Removed",
        "Struct 'S': field 'b' was removed. Backwards compatibility is broken.",
        Some("S"),
    );
}

#[test]
fn struct_field_reordered() {
    let old = spec(vec![structure("S", vec![("a", TypeDef::U32), ("b", TypeDef::U32)])]);
    let new = spec(vec![structure("S", vec![("b", TypeDef::U32), ("a", TypeDef::U32)])]);
    let report = compare(&old, &new);
    assert_eq!(report.findings.len(), 2);
    check(
        &report.findings[0],
        Severity::Critical,
        "Struct Field Reordered",
        "Struct 'S': field at position 0 changed from 'a' to 'b'. Positional serialization breaks layout compatibility.",
        Some("S"),
    );
    check(
        &report.findings[1],
        Severity::Critical,
        "Struct Field Reordered",
        "Struct 'S': field at position 1 changed from 'b' to 'a'. Positional serialization breaks layout compatibility.",
        Some("S"),
    );
}

#[test]
fn event_schema_field_type_changed() {
    let old = spec(vec![structure("MintEvent", vec![("amount", TypeDef::I128)])]);
    let new = spec(vec![structure("MintEvent", vec![("amount", TypeDef::U128)])]);
    check(
        only(&compare(&old, &new)),
        Severity::Critical,
        "Event Schema Type Changed",
        "Event schema 'MintEvent': field 'amount' (position 0) type changed from `i128` to `u128`.",
        Some("MintEvent"),
    );
}

#[test]
fn struct_field_appended_is_a_warning() {
    let old = spec(vec![structure("S", vec![("a", TypeDef::U32)])]);
    let new = spec(vec![structure("S", vec![("a", TypeDef::U32), ("b", TypeDef::Bool)])]);
    let report = compare(&old, &new);
    check(
        only(&report),
        Severity::Warning,
        "Struct Field Added",
        "Struct 'S': new field 'b' appended. Existing storage entries won't have this field \u{2014} ensure migration handles defaults.",
        Some("S"),
    );
    assert_eq!(report.critical_count(), 0);
    assert_eq!(report.warning_count(), 1);
}

#[test]
fn enum_removed_and_added() {
    let old = spec(vec![enumeration("Old", vec![])]);
    let new = spec(vec![enumeration("New", vec![])]);
    let report = compare(&old, &new);
    assert_eq!(report.findings.len(), 2);
    check(
        &report.findings[0],
        Severity::Critical,
        "Enum Removed",
        "Enum 'Old' was removed. Data using this type will be invalid.",
        Some("Old"),
    );
    check(&report.findings[1], Severity::Info, "Enum Added", "New enum 'New' added.", Some("New"));
}

#[test]
fn enum_case_removed_changed_and_added() {
    let old = spec(vec![enumeration("E", vec![("A", 0), ("B", 1)])]);
    let new = spec(vec![enumeration("E", vec![("A", 5), ("C", 2), ("D", 3)])]);
    let report = compare(&old, &new);
    assert_eq!(report.findings.len(), 4);
    check(
        &report.findings[0],
        Severity::Critical,
        "Enum Case Value Changed",
        "Enum 'E': case 'A' value changed from 0 to 5. This breaks data serialization.",
        Some("E"),
    );
    check(
        &report.findings[1],
        Severity::Critical,
        "Enum Case Removed",
        "Enum 'E': case 'B' (value: 1) was removed. On-chain data or events relying on this value will be invalid.",
        Some("E"),
    );
    check(&report.findings[2], Severity::Info, "Enum Case Added", "Enum 'E': new case 'C' (value 2) added.", Some("E"));
    check(&report.findings[3], Severity::Info, "Enum Case Added", "Enum 'E': new case 'D' (value 3) added.", Some("E"));
    assert_eq!(report.critical_count(), 2);
    assert_eq!(report.info_count(), 2);
}

#[test]
fn new_enum_cases_are_reported_whatever_the_case_counts() {
    let old = spec(vec![enumeration("E", vec![("A", 0), ("B", 1)])]);
    let new = spec(vec![enumeration("E", vec![("A", 0), ("C", 1)])]);
    let report = compare(&old, &new);
    assert_eq!(report.findings.len(), 2);
    check(
        &report.findings[0],
        Severity::Critical,
        "Enum Case Removed",
        "Enum 'E': case 'B' (value: 1) was removed. On-chain data or events relying on this value will be invalid.",
        Some("E"),
    );
    check(&report.findings[1], Severity::Info, "Enum Case Added", "Enum 'E': new case 'C' (value 1) added.", Some("E"));
}

#[test]
fn event_enum_case_value_changed_wording() {
    let old = spec(vec![enumeration("EventKind", vec![("Mint", 1)])]);
    let new = spec(vec![enumeration("EventKind", vec![("Mint", 2)])]);
    check(
        only(&compare(&old, &new)),
        Severity::Critical,
        "Event Enum Case Value Changed",
        "Event enum 'EventKind': case 'Mint' value changed from 1 to 2. This breaks data serialization.",
        Some("EventKind"),
    );
}

#[test]
fn severity_counts_add_up() {
    let old = spec(vec![
        function("f", vec![("a", TypeDef::U32)], vec![]),
        structure("S", vec![("a", TypeDef::U32)]),
    ]);
    let new = spec(vec![
        function("f", vec![("b", TypeDef::U32)], vec![]),
        function("g", vec![], vec![]),
        structure("S", vec![("a", TypeDef::U64), ("extra", TypeDef::U32)]),
    ]);
    let report = compare(&old, &new);
    assert_eq!(report.critical_count(), 1);
    assert_eq!(report.warning_count(), 2);
    assert_eq!(report.info_count(), 1);
    assert_eq!(
        report.critical_count() + report.warning_count() + report.info_count(),
        report.findings.len()
    );
}

#[test]
fn appended_fields_and_new_cases_are_a_safe_upgrade() {
    let old = spec(vec![
        structure("Data", vec![("a", TypeDef::U32)]),
        enumeration("Mode", vec![("On", 1)]),
        structure("Holder", vec![("d", TypeDef::Udt("Data".to_string()))]),
    ]);
    let new = spec(vec![
        structure("Data", vec![("a", TypeDef::U32), ("b", TypeDef::Bool)]),
        enumeration("Mode", vec![("Off", 0), ("On", 1)]),
        structure("Holder", vec![("d", TypeDef::Udt("Data".to_string()))]),
    ]);
    let report = compare(&old, &new);
    assert_eq!(report.findings.len(), 2);
    check(
        &report.findings[0],
        Severity::Warning,
        "Struct Field Added",
        "Struct 'Data': new field 'b' appended. Existing storage entries won't have this field \u{2014} ensure migration handles defaults.",
        Some("Data"),
    );
    check(&report.findings[1], Severity::Info, "Enum Case Added", "Enum 'Mode': new case 'Off' (value 0) added.", Some("Mode"));
    assert_eq!(report.critical_count(), 0);
}

fn category_severity(category: &str) -> Severity {
    match category {
        "Parameter Renamed" | "Struct Field Added" => Severity::Warning,
        "Function Added" | "Struct Added" | "Enum Added" | "Enum Case Added" | "Event Enum Case Added" => Severity::Info,
        _ => Severity::Critical,
    }
}

fn is_function_category(category: &str) -> bool {
    matches!(
        category,
        "Function Removed"
            | "Function Signature Changed"
            | "Parameter Renamed"
            | "Parameter Type Changed"
            | "Return Type Changed"
            | "Function Added"
    )
}

fn mixed_pair() -> (ContractSpec, ContractSpec) {
    let old = spec(vec![
        function("f", vec![("a", TypeDef::U32)], vec![TypeDef::U32]),
        function("gone", vec![], vec![]),
        structure("Inner", vec![("x", TypeDef::U32)]),
        structure("Outer", vec![("i", TypeDef::Udt("Inner".to_string()))]),
        structure("TransferEvent", vec![("to", TypeDef::Address)]),
        enumeration("Kind", vec![("A", 0), ("B", 1)]),
        enumeration("Old", vec![("X", 0)]),
    ]);
    let new = spec(vec![
        function("f", vec![("b", TypeDef::U64)], vec![TypeDef::U64]),
        function("fresh", vec![], vec![]),
        structure("Inner", vec![("y", TypeDef::U64), ("z", TypeDef::U32)]),
        structure("Outer", vec![("i", TypeDef::Udt("Inner".to_string()))]),
        structure("Added", vec![]),
        enumeration("Kind", vec![("A", 5), ("C", 1)]),
        enumeration("New", vec![("Y", 0)]),
    ]);
    (old, new)
}

#[test]
fn every_finding_carries_the_severity_of_its_category() {
    let (old, new) = mixed_pair();
    for (a, b) in [(&old, &new), (&new, &old)] {
        let report = compare(a, b);
        assert!(report.findings.len() > 10);
        for f in &report.findings {
            assert_eq!(f.severity, category_severity(&f.category), "category {}", f.category);
            assert_eq!(f.affected_type.is_none(), is_function_category(&f.category), "category {}", f.category);
        }
    }
}

#[test]
fn named_types_exist_in_one_of_the_interfaces() {
    let (old, new) = mixed_pair();
    let report = compare(&old, &new);
    let known = |n: &str| {
        old.get_struct(&n.to_string()).is_some()
            || new.get_struct(&n.to_string()).is_some()
            || old.get_enum(&n.to_string()).is_some()
            || new.get_enum(&n.to_string()).is_some()
            || old.get_union(&n.to_string()).is_some()
    };
    assert!(report.findings.iter().any(|f| f.category == "Cascading Layout Break"));
    for f in &report.findings {
        if let Some(n) = &f.affected_type {
            assert!(known(n), "unknown type {}", n);
        }
    }
}

#[test]
fn removals_one_way_are_additions_the_other_way() {
    let (old, new) = mixed_pair();
    let forward = compare(&old, &new);
    let backward = compare(&new, &old);
    let pick = |r: &DiffReport, cats: &[&str]| -> Vec<Option<String>> {
        r.findings
            .iter()
            .filter(|f| cats.contains(&f.category.as_str()))
            .map(|f| f.affected_type.clone().or_else(|| f.message.split('\'').nth(1).map(|s| s.to_string())))
            .collect()
    };
    assert_eq!(pick(&forward, &["Function Removed"]), vec![Some("gone".to_string())]);
    assert_eq!(pick(&backward, &["Function Added"]), vec![Some("gone".to_string())]);
    assert_eq!(pick(&forward, &["Struct Removed", "Event Definition Removed"]), vec![Some("TransferEvent".to_string())]);
    assert_eq!(pick(&backward, &["Struct Added"]), vec![Some("TransferEvent".to_string())]);
    assert_eq!(pick(&forward, &["Enum Removed", "Event Enum Removed"]), vec![Some("Old".to_string())]);
    assert_eq!(pick(&backward, &["Enum Added"]), vec![Some("Old".to_string())]);
    assert_eq!(pick(&backward, &["Function Removed"]), vec![Some("fresh".to_string())]);
    assert_eq!(pick(&forward, &["Function Added"]), vec![Some("fresh".to_string())]);
}
