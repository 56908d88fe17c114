use soroban_upgrade_safeguard::loader::{check_wasm, validate_wasm_structure, LoadError};
use soroban_upgrade_safeguard::model::{SpecEntry, TypeDef, UnionCase};
use soroban_upgrade_safeguard::parser::{decode_spec_entries, extract_metadata, MetadataError};
use stellar_xdr::curr::{
    Limits, ScSpecEntry, ScSpecFunctionInputV0, ScSpecFunctionV0, ScSpecTypeBytesN, ScSpecTypeDef,
    ScSpecTypeMap, ScSpecTypeOption, ScSpecTypeTuple, ScSpecTypeUdt, ScSpecTypeVec,
    ScSpecUdtEnumCaseV0, ScSpecUdtEnumV0, ScSpecUdtStructFieldV0, ScSpecUdtStructV0,
    ScSpecUdtUnionCaseTupleV0, ScSpecUdtUnionCaseV0, ScSpecUdtUnionCaseVoidV0, ScSpecUdtUnionV0,
    ScSymbol, StringM, WriteXdr,
};

const HEADER: [u8; 8] = [0x00, 0x61, 0x73, 0x6d, 0x01, 0x00, 0x00, 0x00];

fn leb(mut n: usize, out: &mut Vec<u8>) {
    loop {
        let byte = (n & 0x7f) as u8;
        n >>= 7;
        if n == 0 {
            out.push(byte);
            return;
        }
        out.push(byte | 0x80);
    }
}

fn custom_section(name: &str, data: &[u8]) -> Vec<u8> {
    let mut payload = Vec::new();
    leb(name.len(), &mut payload);
    payload.extend_from_slice(name.as_bytes());
    payload.extend_from_slice(data);
    let mut out = vec![0u8];
    leb(payload.len(), &mut out);
    out.extend(payload);
    out
}

fn module(sections: &[Vec<u8>]) -> Vec<u8> {
    let mut out = HEADER.to_vec();
    for s in sections {
        out.extend_from_slice(s);
    }
    out
}

fn s<const N: u32>(text: &str) -> StringM<N> {
    text.try_into().unwrap()
}

fn function_entry() -> ScSpecEntry {
    ScSpecEntry::FunctionV0(ScSpecFunctionV0 {
        doc: StringM::default(),
        name: ScSymbol(s("transfer")),
        inputs: vec![
            ScSpecFunctionInputV0 {
                doc: StringM::default(),
                name: s("to"),
                type_: ScSpecTypeDef::Address,
            },
            ScSpecFunctionInputV0 {
                doc: StringM::default(),
                name: s("memo"),
                type_: ScSpecTypeDef::Option(Box::new(ScSpecTypeOption {
                    value_type: Box::new(ScSpecTypeDef::BytesN(ScSpecTypeBytesN { n: 32 })),
                })),
            },
        ]
        .try_into()
        .unwrap(),
        outputs: vec![ScSpecTypeDef::Map(Box::new(ScSpecTypeMap {
            key_type: Box::new(ScSpecTypeDef::Symbol),
            value_type: Box::new(ScSpecTypeDef::Vec(Box::new(ScSpecTypeVec {
                element_type: Box::new(ScSpecTypeDef::Udt(ScSpecTypeUdt { name: s("Money") })),
            }))),
        }))]
        .try_into()
        .unwrap(),
    })
}

fn struct_entry() -> ScSpecEntry {
    ScSpecEntry::UdtStructV0(ScSpecUdtStructV0 {
        doc: StringM::default(),
        lib: StringM::default(),
        name: s("Money"),
        fields: vec![ScSpecUdtStructFieldV0 {
            doc: StringM::default(),
            name: s("amount"),
            type_: ScSpecTypeDef::Tuple(Box::new(ScSpecTypeTuple {
                value_types: vec![ScSpecTypeDef::I128, ScSpecTypeDef::String].try_into().unwrap(),
            })),
        }]
        .try_into()
        .unwrap(),
    })
}

fn union_entry() -> ScSpecEntry {
    ScSpecEntry::UdtUnionV0(ScSpecUdtUnionV0 {
        doc: StringM::default(),
        lib: StringM::default(),
        name: s("Key"),
        cases: vec![
            ScSpecUdtUnionCaseV0::VoidV0(ScSpecUdtUnionCaseVoidV0 { doc: StringM::default(), name: s("Admin") }),
            ScSpecUdtUnionCaseV0::TupleV0(ScSpecUdtUnionCaseTupleV0 {
                doc: StringM::default(),
                name: s("Balance"),
                type_: vec![ScSpecTypeDef::Address].try_into().unwrap(),
            }),
        ]
        .try_into()
        .unwrap(),
    })
}

fn enum_entry() -> ScSpecEntry {
    ScSpecEntry::UdtEnumV0(ScSpecUdtEnumV0 {
        doc: StringM::default(),
        lib: StringM::default(),
        name: s("Color"),
        cases: vec![ScSpecUdtEnumCaseV0 { doc: StringM::default(), name: s("Red"), value: 7 }]
            .try_into()
            .unwrap(),
    })
}

fn xdr(entries: &[ScSpecEntry]) -> Vec<u8> {
    let mut out = Vec::new();
    for e in entries {
        out.extend(e.to_xdr(Limits::none()).unwrap());
    }
    out
}

#[test]
fn decodes_concatenated_spec_entries() {
    let data = xdr(&[function_entry(), struct_entry(), union_entry(), enum_entry()]);
    let entries = decode_spec_entries(&data).unwrap();
    assert_eq!(entries.len(), 4);
    match &entries[0] {
        SpecEntry::Function(f) => {
            assert_eq!(f.name, "transfer");
            assert_eq!(f.inputs.len(), 2);
            assert_eq!(f.inputs[0].name, "to");
            assert!(matches!(f.inputs[0].type_, TypeDef::Address));
            assert_eq!(
                soroban_upgrade_safeguard::mapper::type_to_string(&f.inputs[1].type_),
                "Option<BytesN<32>>"
            );
            assert_eq!(
                soroban_upgrade_safeguard::mapper::type_to_string(&f.outputs[0]),
                "Map<Symbol, Vec<Money>>"
            );
        }
        _ => panic!("expected a function"),
    }
    match &entries[1] {
        SpecEntry::Struct(d) => {
            assert_eq!(d.name, "Money");
            assert_eq!(d.fields[0].name, "amount");
            assert_eq!(soroban_upgrade_safeguard::mapper::type_to_string(&d.fields[0].type_), "(i128, String)");
        }
        _ => panic!("expected a struct"),
    }
    match &entries[2] {
        SpecEntry::Union(u) => {
            assert_eq!(u.name, "Key");
            assert!(matches!(&u.cases[0], UnionCase::Void(n) if n == "Admin"));
            assert!(matches!(&u.cases[1], UnionCase::Tuple(n, ts) if n == "Balance" && ts.len() == 1));
        }
        _ => panic!("expected a union"),
    }
    match &entries[3] {
        SpecEntry::Enum(e) => {
            assert_eq!(e.name, "Color");
            assert_eq!(e.cases[0].name, "Red");
            assert_eq!(e.cases[0].value, 7);
        }
        _ => panic!("expected an enum"),
    }
}

#[test]
fn truncated_spec_entries_fail_to_decode() {
    let mut data = xdr(&[function_entry(), struct_entry()]);
    data.truncate(data.len() - 3);
    assert!(decode_spec_entries(&data).is_err());
    assert!(decode_spec_entries(&[]).unwrap().is_empty());
}

#[test]
fn extracts_soroban_sections() {
    let bytes = module(&[
        custom_section("name", b"ignored"),
        custom_section("contractspecv0", &xdr(&[struct_entry()])),
        custom_section("contractenvmetav0", &[1, 2, 3]),
        custom_section("contractspecv0", &xdr(&[enum_entry()])),
    ]);
    let meta = extract_metadata(&bytes).ok().unwrap();
    assert_eq!(meta.spec.len(), 2);
    assert!(matches!(&meta.spec[0], SpecEntry::Struct(d) if d.name == "Money"));
    assert!(matches!(&meta.spec[1], SpecEntry::Enum(d) if d.name == "Color"));
    assert_eq!(meta.env_meta, Some(vec![1, 2, 3]));
}

#[test]
fn module_without_soroban_sections_has_empty_metadata() {
    let meta = extract_metadata(&HEADER).ok().unwrap();
    assert!(meta.spec.is_empty());
    assert!(meta.env_meta.is_none());
}

#[test]
fn bad_spec_section_is_a_spec_error() {
    let bytes = module(&[custom_section("contractspecv0", &[0, 0, 0, 99])]);
    assert!(matches!(extract_metadata(&bytes), Err(MetadataError::Spec(_))));
}

#[test]
fn malformed_payload_is_a_wasm_error() {
    let mut bytes = module(&[custom_section("contractenvmetav0", &[9])]);
    bytes.extend_from_slice(&[0x01, 0x05, 0x00]);
    assert!(matches!(extract_metadata(&bytes), Err(MetadataError::Wasm(_))));
    assert!(validate_wasm_structure(&bytes).is_err());
}

#[test]
fn check_wasm_accepts_valid_modules() {
    let bytes = module(&[custom_section("contractenvmetav0", &[9])]);
    let m = check_wasm("a.wasm".to_string(), bytes.clone()).ok().unwrap();
    assert_eq!(m.path, "a.wasm");
    assert_eq!(m.bytes, bytes);
    assert!(validate_wasm_structure(&bytes).is_ok());
}

#[test]
fn check_wasm_rejects_bad_magic() {
    assert!(matches!(check_wasm("x".to_string(), b"\0asX\x01\0\0\0".to_vec()), Err(LoadError::BadMagic)));
    assert!(matches!(check_wasm("x".to_string(), vec![0, 0x61]), Err(LoadError::BadMagic)));
}

#[test]
fn check_wasm_rejects_malformed_modules() {
    let mut bytes = HEADER.to_vec();
    bytes.extend_from_slice(&[0x01, 0x05, 0x00]);
    assert!(matches!(check_wasm("x".to_string(), bytes), Err(LoadError::Malformed(_))));
}
