use soroban_upgrade_safeguard::contract::ContractSpec;
use soroban_upgrade_safeguard::mapper::{type_to_string, LayoutMapper};
use soroban_upgrade_safeguard::model::{
    types_equal, EnumDef, FunctionDef, SpecEntry, StructDef, StructField, TypeDef, UnionCase, UnionDef,
};
use soroban_upgrade_safeguard::text::{append_decimal, is_event, str_less};

fn udt(name: &str) -> TypeDef {
    TypeDef::Udt(name.to_string())
}

fn boxed(t: TypeDef) -> Box<TypeDef> {
    Box::new(t)
}

#[test]
fn type_to_string_spells_every_kind() {
    let cases: Vec<(TypeDef, &str)> = vec![
        (TypeDef::Val, "Val"),
        (TypeDef::Bool, "bool"),
        (TypeDef::Void, "()"),
        (TypeDef::Error, "Error"),
        (TypeDef::U32, "u32"),
        (TypeDef::I32, "i32"),
        (TypeDef::U64, "u64"),
        (TypeDef::I64, "i64"),
        (TypeDef::Timepoint, "Timepoint"),
        (TypeDef::Duration, "Duration"),
        (TypeDef::U128, "u128"),
        (TypeDef::I128, "i128"),
        (TypeDef::U256, "u256"),
        (TypeDef::I256, "i256"),
        (TypeDef::Bytes, "Bytes"),
        (TypeDef::Str, "String"),
        (TypeDef::Symbol, "Symbol"),
        (TypeDef::Address, "Address"),
        (TypeDef::OptionOf(boxed(TypeDef::U32)), "Option<u32>"),
        (TypeDef::ResultOf(boxed(TypeDef::Bool), boxed(udt("Err"))), "Result<bool, Err>"),
        (TypeDef::VecOf(boxed(TypeDef::Address)), "Vec<Address>"),
        (TypeDef::MapOf(boxed(TypeDef::Symbol), boxed(TypeDef::I128)), "Map<Symbol, i128>"),
        (TypeDef::TupleOf(vec![]), "()"),
        (TypeDef::TupleOf(vec![TypeDef::U32]), "(u32)"),
        (TypeDef::TupleOf(vec![TypeDef::U32, TypeDef::Bytes, udt("X")]), "(u32, Bytes, X)"),
        (TypeDef::BytesN(32), "BytesN<32>"),
        (TypeDef::BytesN(0), "BytesN<0>"),
        (udt("Money"), "Money"),
    ];
    for (t, expected) in cases {
        assert_eq!(type_to_string(&t), expected);
    }
    let nested = TypeDef::VecOf(boxed(TypeDef::MapOf(
        boxed(TypeDef::Str),
        boxed(TypeDef::OptionOf(boxed(TypeDef::TupleOf(vec![TypeDef::U64, TypeDef::BytesN(4096)])))),
    )));
    assert_eq!(type_to_string(&nested), "Vec<Map<String, Option<(u64, BytesN<4096>)>>>");
}

#[test]
fn types_equal_is_structural() {
    let a = TypeDef::TupleOf(vec![TypeDef::U32, udt("A")]);
    let b = TypeDef::TupleOf(vec![TypeDef::U32, udt("A")]);
    let c = TypeDef::TupleOf(vec![TypeDef::U32, udt("B")]);
    let d = TypeDef::TupleOf(vec![TypeDef::U32]);
    assert!(types_equal(&a, &b));
    assert!(!types_equal(&a, &c));
    assert!(!types_equal(&a, &d));
    assert!(!types_equal(&TypeDef::BytesN(1), &TypeDef::BytesN(2)));
    assert!(!types_equal(&TypeDef::U32, &TypeDef::I32));
}

#[test]
fn decimal_rendering() {
    for (n, expected) in [(0u64, "0"), (7, "7"), (10, "10"), (4096, "4096"), (u64::MAX, "18446744073709551615")] {
        let mut s = String::from("n=");
        append_decimal(&mut s, n);
        assert_eq!(s, format!("n={expected}"));
    }
}

#[test]
fn event_names_are_detected_case_insensitively() {
    assert!(is_event(&"TransferEvent".to_string()));
    assert!(is_event(&"EVENTS".to_string()));
    assert!(is_event(&"my_eVeNt_log".to_string()));
    assert!(!is_event(&"Evnt".to_string()));
    assert!(!is_event(&"even".to_string()));
    assert!(!is_event(&"".to_string()));
}

#[test]
fn names_order_like_strings() {
    let words = ["", "A", "B", "AB", "a", "Ab", "\u{e9}t\u{e9}", "z", "za"];
    for x in words {
        for y in words {
            assert_eq!(str_less(&x.to_string(), &y.to_string()), x < y, "{x:?} < {y:?}");
        }
    }
}

fn spec_with(entries: Vec<SpecEntry>) -> ContractSpec {
    ContractSpec::from_entries(entries)
}

fn structure(name: &str, fields: Vec<(&str, TypeDef)>) -> SpecEntry {
    SpecEntry::Struct(StructDef {
        name: name.to_string(),
        fields: fields
            .into_iter()
            .map(|(n, t)| StructField { name: n.to_string(), type_: t })
            .collect(),
    })
}

#[test]
fn udt_dependencies_are_transitive_and_distinct() {
    let spec = spec_with(vec![
        structure("A", vec![("b", udt("B")), ("b2", udt("B"))]),
        structure("B", vec![("c", TypeDef::VecOf(boxed(udt("C"))))]),
        structure("C", vec![("x", TypeDef::U32)]),
        SpecEntry::Union(UnionDef {
            name: "U".to_string(),
            cases: vec![UnionCase::Tuple("Pair".to_string(), vec![udt("A"), udt("Missing")])],
        }),
    ]);
    let mapper = LayoutMapper::new(&spec);
    let mut deps = mapper.get_udt_dependencies(&TypeDef::OptionOf(boxed(udt("U"))));
    deps.sort();
    assert_eq!(deps, vec!["A", "B", "C", "Missing", "U"]);
    let mut deps = mapper.get_udt_dependencies(&udt("B"));
    deps.sort();
    assert_eq!(deps, vec!["B", "C"]);
    assert!(mapper.get_udt_dependencies(&TypeDef::U32).is_empty());
}

#[test]
fn reverse_dependencies_are_sorted_and_deduplicated() {
    let spec = spec_with(vec![
        structure("Zeta", vec![("m", udt("Money")), ("m2", udt("Money"))]),
        structure("Alpha", vec![("m", udt("Money"))]),
        structure("Money", vec![("amount", TypeDef::I128)]),
        structure("Ledger", vec![("z", udt("Zeta"))]),
    ]);
    let mapper = LayoutMapper::new(&spec);
    let rev = mapper.build_reverse_dependencies();
    assert_eq!(rev.get(&"Money".to_string()).unwrap(), &vec!["Alpha", "Ledger", "Zeta"]);
    assert_eq!(rev.get(&"Zeta".to_string()).unwrap(), &vec!["Ledger"]);
    assert!(rev.get(&"Ledger".to_string()).is_none());
    assert!(rev.get(&"Alpha".to_string()).is_none());
}

#[test]
fn enums_have_no_member_dependencies() {
    let spec = spec_with(vec![
        SpecEntry::Enum(EnumDef { name: "Color".to_string(), cases: vec![] }),
        structure("Paint", vec![("c", udt("Color"))]),
    ]);
    let mapper = LayoutMapper::new(&spec);
    assert_eq!(mapper.get_udt_dependencies(&udt("Color")), vec!["Color"]);
    let rev = mapper.build_reverse_dependencies();
    assert_eq!(rev.get(&"Color".to_string()).unwrap(), &vec!["Paint"]);
}

#[test]
fn later_entries_replace_earlier_ones_of_the_same_kind() {
    let spec = spec_with(vec![
        structure("S", vec![("a", TypeDef::U32)]),
        SpecEntry::Function(FunctionDef { name: "f".to_string(), inputs: vec![], outputs: vec![] }),
        structure("T", vec![]),
        structure("S", vec![("b", TypeDef::U64)]),
        SpecEntry::Enum(EnumDef { name: "S".to_string(), cases: vec![] }),
    ]);
    assert_eq!(spec.structs.len(), 2);
    assert_eq!(spec.structs[0].name, "S");
    assert_eq!(spec.structs[0].fields[0].name, "b");
    assert_eq!(spec.structs[1].name, "T");
    assert_eq!(spec.functions.len(), 1);
    assert_eq!(spec.enums.len(), 1);
    assert!(spec.get_struct(&"S".to_string()).is_some());
    assert!(spec.get_union(&"S".to_string()).is_none());
}
