use soroban_upgrade_safeguard::contract::ContractSpec;
use soroban_upgrade_safeguard::diff::{compare, detect_cascading_layout_breaks};
use soroban_upgrade_safeguard::finding::{DiffReport, Finding, Severity};
use soroban_upgrade_safeguard::model::{SpecEntry, StructDef, StructField, TypeDef, UnionCase, UnionDef};

/// Builds a minimal interface with the given structs.
fn spec_with_structs(structs: Vec<(&str, Vec<(&str, TypeDef)>)>) -> ContractSpec {
    let mut spec = ContractSpec::new();
    for (name, fields) in structs {
        let fields: Vec<StructField> = fields
            .into_iter()
            .map(|(fname, ftype)| StructField { name: fname.to_string(), type_: ftype })
            .collect();
        spec.insert(SpecEntry::Struct(StructDef { name: name.to_string(), fields }));
    }
    spec
}

/// A reference to a user-defined type.
fn udt(name: &str) -> TypeDef {
    TypeDef::Udt(name.to_string())
}

#[test]
fn cascade_detects_break_via_type_name() {
    let old = spec_with_structs(vec![
        ("Inner", vec![("value", TypeDef::U32)]),
        ("Outer", vec![("inner", udt("Inner"))]),
    ]);
    let new = spec_with_structs(vec![
        ("Inner", vec![("value", TypeDef::U64)]),
        ("Outer", vec![("inner", udt("Inner"))]),
    ]);

    let report = compare(&old, &new);

    let inner_critical = report.findings.iter().any(|f| {
        f.severity == Severity::Critical
            && f.affected_type.as_deref() == Some("Inner")
            && f.category != "Cascading Layout Break"
    });
    assert!(inner_critical, "Expected a direct critical finding for Inner");

    let outer_cascade = report.findings.iter().any(|f| {
        f.severity == Severity::Critical
            && f.affected_type.as_deref() == Some("Outer")
            && f.category == "Cascading Layout Break"
    });
    assert!(outer_cascade, "Expected a cascading break for Outer");
}

#[test]
fn cascade_is_message_independent() {
    let old = spec_with_structs(vec![
        ("Child", vec![("x", TypeDef::U32)]),
        ("Parent", vec![("child", udt("Child"))]),
    ]);

    let mut report = DiffReport::default();
    report.findings.push(Finding {
        severity: Severity::Critical,
        category: "TOTALLY CUSTOM CATEGORY".to_string(),
        message: "This message has no quotes and mentions no type prefix whatsoever.".to_string(),
        affected_type: Some("Child".to_string()),
    });

    detect_cascading_layout_breaks(&old, &mut report);

    let parent_cascade = report.findings.iter().any(|f| {
        f.severity == Severity::Critical
            && f.affected_type.as_deref() == Some("Parent")
            && f.category == "Cascading Layout Break"
    });
    assert!(parent_cascade, "Cascade should work regardless of message text");
}

#[test]
fn function_findings_do_not_cascade() {
    let old = spec_with_structs(vec![("MyStruct", vec![("val", TypeDef::U32)])]);

    let mut report = DiffReport::default();
    report.findings.push(Finding {
        severity: Severity::Critical,
        category: "Function Removed".to_string(),
        message: "Function 'do_stuff' was removed.".to_string(),
        affected_type: None,
    });

    detect_cascading_layout_breaks(&old, &mut report);

    assert_eq!(report.findings.len(), 1, "Function findings should not trigger cascades");
}

#[test]
fn transitive_cascade_propagates() {
    let old = spec_with_structs(vec![
        ("Leaf", vec![("x", TypeDef::U32)]),
        ("Mid", vec![("leaf", udt("Leaf"))]),
        ("Top", vec![("mid", udt("Mid"))]),
    ]);
    let new = spec_with_structs(vec![
        ("Leaf", vec![("x", TypeDef::U64)]),
        ("Mid", vec![("leaf", udt("Leaf"))]),
        ("Top", vec![("mid", udt("Mid"))]),
    ]);

    let report = compare(&old, &new);

    let cascade_types: Vec<&str> = report
        .findings
        .iter()
        .filter(|f| f.category == "Cascading Layout Break")
        .filter_map(|f| f.affected_type.as_deref())
        .collect();

    assert!(cascade_types.contains(&"Mid"), "Mid should cascade from Leaf");
    assert!(cascade_types.contains(&"Top"), "Top should cascade from Mid");
}

#[test]
fn struct_field_type_change_severity_and_category() {
    let old = spec_with_structs(vec![("Data", vec![("amount", TypeDef::U32)])]);
    let new = spec_with_structs(vec![("Data", vec![("amount", TypeDef::I128)])]);

    let report = compare(&old, &new);

    let field_change = report.findings.iter().find(|f| f.category == "Struct Field Type Changed");
    assert!(field_change.is_some(), "Should detect field type change");

    let f = field_change.unwrap();
    assert_eq!(f.severity, Severity::Critical);
    assert_eq!(f.affected_type.as_deref(), Some("Data"));
}

// ---------------------------------------------------------------------------
// Cascades in more detail
// ---------------------------------------------------------------------------

#[test]
fn cascade_message_names_both_types() {
    let old = spec_with_structs(vec![
        ("Money", vec![("amount", TypeDef::I128)]),
        ("Account", vec![("balance", udt("Money"))]),
    ]);
    let mut report = DiffReport::default();
    report.findings.push(Finding {
        severity: Severity::Critical,
        category: "Struct Field Type Changed".to_string(),
        message: "changed".to_string(),
        affected_type: Some("Money".to_string()),
    });
    detect_cascading_layout_breaks(&old, &mut report);
    assert_eq!(report.findings.len(), 2);
    let f = &report.findings[1];
    assert_eq!(f.severity, Severity::Critical);
    assert_eq!(f.category, "Cascading Layout Break");
    assert_eq!(f.affected_type.as_deref(), Some("Account"));
    assert_eq!(
        f.message,
        "Type 'Account' layout is implicitly broken safely because it contains modified type 'Money'. \
         This breaks backwards compatibility for storage."
    );
}

#[test]
fn cascade_terminates_on_cyclic_types() {
    let old = spec_with_structs(vec![
        ("A", vec![("b", udt("B"))]),
        ("B", vec![("a", TypeDef::OptionOf(Box::new(udt("A"))))]),
    ]);
    let mut report = DiffReport::default();
    report.findings.push(Finding {
        severity: Severity::Critical,
        category: "x".to_string(),
        message: "y".to_string(),
        affected_type: Some("A".to_string()),
    });
    detect_cascading_layout_breaks(&old, &mut report);
    let mut names: Vec<&str> =
        report.findings[1..].iter().filter_map(|f| f.affected_type.as_deref()).collect();
    names.sort();
    assert_eq!(names, vec!["A", "B"]);
}

#[test]
fn warnings_and_info_do_not_cascade() {
    let old = spec_with_structs(vec![
        ("Inner", vec![("v", TypeDef::U32)]),
        ("Outer", vec![("i", udt("Inner"))]),
    ]);
    let mut report = DiffReport::default();
    for severity in [Severity::Warning, Severity::Info] {
        report.findings.push(Finding {
            severity,
            category: "c".to_string(),
            message: "m".to_string(),
            affected_type: Some("Inner".to_string()),
        });
    }
    detect_cascading_layout_breaks(&old, &mut report);
    assert_eq!(report.findings.len(), 2);
}

#[test]
fn cascade_reaches_through_union_cases() {
    let mut old = spec_with_structs(vec![("Leaf", vec![("x", TypeDef::U32)])]);
    old.insert(SpecEntry::Union(UnionDef {
        name: "Choice".to_string(),
        cases: vec![
            UnionCase::Void("Nothing".to_string()),
            UnionCase::Tuple("Some".to_string(), vec![TypeDef::VecOf(Box::new(udt("Leaf")))]),
        ],
    }));
    let mut report = DiffReport::default();
    report.findings.push(Finding {
        severity: Severity::Critical,
        category: "c".to_string(),
        message: "m".to_string(),
        affected_type: Some("Leaf".to_string()),
    });
    detect_cascading_layout_breaks(&old, &mut report);
    assert_eq!(report.findings.len(), 2);
    assert_eq!(report.findings[1].affected_type.as_deref(), Some("Choice"));
}
