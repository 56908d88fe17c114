use vstd::prelude::*;
use vstd::string::StringExecFns;
use stellar_xdr::curr::ScSpecTypeDef as XdrType;

use crate::model::{
    EnumCase, EnumDef, FunctionDef, FunctionInput, SpecEntry, SpecEntryView, StructDef, StructField, TypeDef,
    UnionCase, UnionDef,
};

verus! {

// ---------------------------------------------------------------------------
// The outside parsers
// ---------------------------------------------------------------------------

/// A malformed WebAssembly payload, as reported by `wasmparser`.
#[verifier::external_type_specification]
#[verifier::external_body]
pub struct ExWasmError(wasmparser::BinaryReaderError);

/// An XDR decoding failure, as reported by `stellar_xdr`.
#[verifier::external_type_specification]
#[verifier::external_body]
pub struct ExXdrError(stellar_xdr::curr::Error);

/// One decoded entry of a contract's interface section.
#[verifier::external_type_specification]
#[verifier::external_body]
pub struct ExScSpecEntry(stellar_xdr::curr::ScSpecEntry);

/// A decoded contract function.
#[verifier::external_type_specification]
#[verifier::external_body]
pub struct ExScSpecFunctionV0(stellar_xdr::curr::ScSpecFunctionV0);

/// A decoded user-defined struct.
#[verifier::external_type_specification]
#[verifier::external_body]
pub struct ExScSpecUdtStructV0(stellar_xdr::curr::ScSpecUdtStructV0);

/// A decoded user-defined union.
#[verifier::external_type_specification]
#[verifier::external_body]
pub struct ExScSpecUdtUnionV0(stellar_xdr::curr::ScSpecUdtUnionV0);

/// A decoded union case.
#[verifier::external_type_specification]
#[verifier::external_body]
pub struct ExScSpecUdtUnionCaseV0(stellar_xdr::curr::ScSpecUdtUnionCaseV0);

/// A decoded user-defined enum.
#[verifier::external_type_specification]
#[verifier::external_body]
pub struct ExScSpecUdtEnumV0(stellar_xdr::curr::ScSpecUdtEnumV0);

/// A decoded user-defined error enum.
#[verifier::external_type_specification]
#[verifier::external_body]
pub struct ExScSpecUdtErrorEnumV0(stellar_xdr::curr::ScSpecUdtErrorEnumV0);

/// A decoded interface type.
#[verifier::external_type_specification]
#[verifier::external_body]
pub struct ExScSpecTypeDef(stellar_xdr::curr::ScSpecTypeDef);

/// A custom section of a WebAssembly module: its name and raw contents.
#[derive(Debug)]
pub struct CustomSection {
    pub name: String,
    pub data: Vec<u8>,
}

impl View for CustomSection {
    type V = (Seq<char>, Seq<u8>);

    open spec fn view(&self) -> (Seq<char>, Seq<u8>) {
        (self.name@, self.data@)
    }
}

pub open spec fn sections_view(v: Seq<CustomSection>) -> Seq<(Seq<char>, Seq<u8>)> {
    v.map_values(|s: CustomSection| s@)
}

/// What `wasmparser` reports when it walks the payloads of `bytes`: the
/// custom sections met, in order, before the walk stopped, and whether it
/// stopped at the end of the module rather than at a malformed payload.
pub uninterp spec fn wasm_custom_sections(bytes: Seq<u8>) -> (Seq<(Seq<char>, Seq<u8>)>, bool);

/// Walks every payload of a WebAssembly binary with `wasmparser`
/// (`Parser::new(0).parse_all`), collecting the custom sections, and stops
/// at the first payload that fails to parse, returning its error.
/// The contract only ties the result to the name `wasm_custom_sections`;
/// what `wasmparser` accepts is not restated here.
#[verifier::external_body]
pub(crate) fn parse_custom_sections(bytes: &[u8]) -> (r: (Vec<CustomSection>, Option<wasmparser::BinaryReaderError>))
    ensures
        (sections_view(r.0@), r.1 is None) == wasm_custom_sections(bytes@),
{
    let mut sections = Vec::new();
    for payload in wasmparser::Parser::new(0).parse_all(bytes) {
        match payload {
            Ok(wasmparser::Payload::CustomSection(s)) => {
                sections.push(CustomSection { name: s.name().to_string(), data: s.data().to_vec() })
            },
            Ok(_) => {},
            Err(e) => return (sections, Some(e)),
        }
    }
    (sections, None)
}

/// What `stellar_xdr` decodes from the front of `bytes` as one `ScSpecEntry`
/// (with no depth or length limits): the entry, in the library's model, and
/// the number of bytes it took.
pub uninterp spec fn xdr_spec_entry(bytes: Seq<u8>) -> Option<(SpecEntryView, nat)>;

/// Decodes one `ScSpecEntry` with `stellar_xdr`'s `ReadXdr::read_xdr`,
/// starting at `pos`, and converts it to the library's model. On success
/// the decoder has read at least the 4-byte union discriminant and cannot
/// read past the end of the input.
/// Deeply nested types are decoded recursively by `stellar_xdr` without a
/// depth limit; that it returns on every input is not stated here.
#[verifier::external_body]
fn read_spec_entry(data: &[u8], pos: usize) -> (r: Result<(SpecEntry, usize), stellar_xdr::curr::Error>)
    requires
        pos <= data.len(),
    ensures
        match r {
            Ok((e, n)) => xdr_spec_entry(data@.skip(pos as int)) == Some((e@, n as nat)) && 4 <= n <= data.len()
                - pos,
            Err(_) => xdr_spec_entry(data@.skip(pos as int)) is None,
        },
{
    let cursor = std::io::Cursor::new(&data[pos..]);
    let mut limited = stellar_xdr::curr::Limited::new(cursor, stellar_xdr::curr::Limits::none());
    match <stellar_xdr::curr::ScSpecEntry as stellar_xdr::curr::ReadXdr>::read_xdr(&mut limited) {
        Ok(entry) => Ok((entry_from_xdr(entry), limited.inner.position() as usize)),
        Err(e) => Err(e),
    }
}

// ---------------------------------------------------------------------------
// Decoding the interface section
// ---------------------------------------------------------------------------

/// The entries decoded from `data`, entry after entry until every byte is
/// used; `None` when some entry fails to decode.
pub open spec fn decode_all(data: Seq<u8>) -> Option<Seq<SpecEntryView>>
    decreases data.len(),
{
    if data.len() == 0 {
        Some(Seq::empty())
    } else {
        match xdr_spec_entry(data) {
            None => None,
            Some((e, n)) => if 0 < n <= data.len() {
                match decode_all(data.skip(n as int)) {
                    Some(rest) => Some(seq![e] + rest),
                    None => None,
                }
            } else {
                None
            },
        }
    }
}

pub open spec fn entries_view(v: Seq<SpecEntry>) -> Seq<SpecEntryView> {
    v.map_values(|e: SpecEntry| e@)
}

/// Decodes the concatenated interface entries of a `contractspecv0` section.
pub fn decode_spec_entries(data: &[u8]) -> (r: Result<Vec<SpecEntry>, stellar_xdr::curr::Error>)
    ensures
        match r {
            Ok(v) => decode_all(data@) == Some(entries_view(v@)),
            Err(_) => decode_all(data@) is None,
        },
{
    let mut entries: Vec<SpecEntry> = Vec::new();
    let mut pos: usize = 0;
    assert(data@.skip(0) =~= data@);
    while pos < data.len()
        invariant
            pos <= data.len(),
            decode_all(data@) == match decode_all(data@.skip(pos as int)) {
                Some(rest) => Some(entries_view(entries@) + rest),
                None => None,
            },
        decreases data.len() - pos,
    {
        let ghost rest = data@.skip(pos as int);
        match read_spec_entry(data, pos) {
            Ok((e, n)) => {
                let ghost ev = e@;
                let ghost before = entries_view(entries@);
                entries.push(e);
                assert(entries_view(entries@) =~= before.push(ev));
                proof {
                    assert(rest.skip(n as int) =~= data@.skip(pos + n));
                    match decode_all(data@.skip(pos + n)) {
                        Some(tail) => {
                            assert(before + (seq![ev] + tail) =~= before.push(ev) + tail);
                        },
                        None => {},
                    }
                }
                pos = pos + n;
            },
            Err(err) => {
                return Err(err);
            },
        }
    }
    assert(data@.skip(pos as int).len() == 0);
    assert(entries_view(entries@) + Seq::<SpecEntryView>::empty() =~= entries_view(entries@));
    Ok(entries)
}

// ---------------------------------------------------------------------------
// Soroban metadata
// ---------------------------------------------------------------------------

/// The Soroban-specific custom sections of a WebAssembly module, decoded.
#[derive(Debug)]
pub struct SorobanMetadata {
    pub spec: Vec<SpecEntry>,
    pub env_meta: Option<Vec<u8>>,
}

/// Why metadata could not be extracted.
#[derive(Debug)]
pub enum MetadataError {
    /// A WebAssembly payload failed to parse.
    Wasm(wasmparser::BinaryReaderError),
    /// A `contractspecv0` section failed to decode.
    Spec(stellar_xdr::curr::Error),
}

/// The interface entries and environment metadata gathered from the first
/// `n` custom sections: every `contractspecv0` section contributes its
/// decoded entries, in order, and the last `contractenvmetav0` section gives
/// the environment metadata; `None` when a `contractspecv0` section fails to
/// decode.
pub open spec fn scan_sections(ss: Seq<(Seq<char>, Seq<u8>)>, n: nat) -> Option<
    (Seq<SpecEntryView>, Option<Seq<u8>>),
>
    decreases n,
{
    if n == 0 {
        Some((Seq::empty(), None))
    } else {
        match scan_sections(ss, (n - 1) as nat) {
            None => None,
            Some((es, env)) => {
                let (name, data) = ss[n - 1];
                if name == "contractspecv0"@ {
                    match decode_all(data) {
                        Some(more) => Some((es + more, env)),
                        None => None,
                    }
                } else if name == "contractenvmetav0"@ {
                    Some((es, Some(data)))
                } else {
                    Some((es, env))
                }
            },
        }
    }
}

/// Parses a WebAssembly binary, finds its Soroban custom sections and decodes
/// them. A `contractspecv0` section that fails to decode is reported before a
/// malformed payload that comes after it.
pub fn extract_metadata(bytes: &[u8]) -> (r: Result<SorobanMetadata, MetadataError>)
    ensures
        ({
            let (ss, complete) = wasm_custom_sections(bytes@);
            match r {
                Ok(m) => complete && scan_sections(ss, ss.len()) == Some(
                    (
                        entries_view(m.spec@),
                        match m.env_meta {
                            Some(d) => Some(d@),
                            None => None,
                        },
                    ),
                ),
                Err(MetadataError::Spec(_)) => scan_sections(ss, ss.len()) is None,
                Err(MetadataError::Wasm(_)) => !complete && scan_sections(ss, ss.len()) is Some,
            }
        }),
{
    let (mut sections, failure) = parse_custom_sections(bytes);
    let ghost ss = sections_view(sections@);
    let spec_name = String::from_str("contractspecv0");
    let env_name = String::from_str("contractenvmetav0");
    let mut spec: Vec<SpecEntry> = Vec::new();
    let mut env_meta: Option<Vec<u8>> = None;
    let n = sections.len();
    let mut i: usize = 0;
    while i < n
        invariant
            n == ss.len(),
            ss == wasm_custom_sections(bytes@).0,
            i <= n,
            sections_view(sections@) == ss.skip(i as int),
            sections.len() == n - i,
            spec_name@ == "contractspecv0"@,
            env_name@ == "contractenvmetav0"@,
            scan_sections(ss, i as nat) == Some(
                (
                    entries_view(spec@),
                    match env_meta {
                        Some(d) => Some(d@),
                        None => None,
                    },
                ),
            ),
        decreases n - i,
    {
        let ghost pre = sections@;
        let section = sections.remove(0);
        assert(section == pre[0]);
        assert(sections_view(pre)[0] == ss[i as int]);
        assert(section@ == ss[i as int]);
        assert(sections@ =~= pre.drop_first());
        assert forall|j: int| 0 <= j < sections.len() implies sections_view(sections@)[j] == ss.skip(i + 1)[j] by {
            assert(sections@[j] == pre[j + 1]);
            assert(sections_view(pre)[j + 1] == ss.skip(i as int)[j + 1]);
        }
        assert(sections_view(sections@) =~= ss.skip(i + 1));
        if section.name == spec_name {
            match decode_spec_entries(section.data.as_slice()) {
                Ok(more) => {
                    let ghost before = entries_view(spec@);
                    let mut more = more;
                    let ghost mv = entries_view(more@);
                    spec.append(&mut more);
                    assert(entries_view(spec@) =~= before + mv);
                },
                Err(e) => {
                    proof {
                        assert(section.name@ == "contractspecv0"@);
                        assert(decode_all(section.data@) is None);
                        assert(scan_sections(ss, (i + 1) as nat) is None);
                        lemma_scan_sections_none(ss, (i + 1) as nat, n as nat);
                    }
                    return Err(MetadataError::Spec(e));
                },
            }
        } else if section.name == env_name {
            env_meta = Some(section.data);
        }
        i = i + 1;
    }
    match failure {
        Some(e) => Err(MetadataError::Wasm(e)),
        None => Ok(SorobanMetadata { spec, env_meta }),
    }
}

/// Once a section fails to decode, the scan stays failed.
proof fn lemma_scan_sections_none(ss: Seq<(Seq<char>, Seq<u8>)>, k: nat, n: nat)
    requires
        k <= n,
        scan_sections(ss, k) is None,
    ensures
        scan_sections(ss, n) is None,
    decreases n - k,
{
    if k < n {
        lemma_scan_sections_none(ss, k, (n - 1) as nat);
    }
}

/// Moves a decoded interface entry into the library's model, one variant for one.
#[verifier::external_body]
fn entry_from_xdr(e: stellar_xdr::curr::ScSpecEntry) -> SpecEntry {
    match e {
        stellar_xdr::curr::ScSpecEntry::FunctionV0(f) => SpecEntry::Function(function_from_xdr(f)),
        stellar_xdr::curr::ScSpecEntry::UdtStructV0(s) => SpecEntry::Struct(struct_from_xdr(s)),
        stellar_xdr::curr::ScSpecEntry::UdtUnionV0(u) => SpecEntry::Union(union_from_xdr(u)),
        stellar_xdr::curr::ScSpecEntry::UdtEnumV0(d) => SpecEntry::Enum(enum_from_xdr(d)),
        stellar_xdr::curr::ScSpecEntry::UdtErrorEnumV0(d) => SpecEntry::ErrorEnum(error_enum_from_xdr(d)),
    }
}

/// Moves a decoded function into the library's model.
#[verifier::external_body]
fn function_from_xdr(f: stellar_xdr::curr::ScSpecFunctionV0) -> FunctionDef {
    FunctionDef {
        name: f.name.0.to_string(),
        inputs: f.inputs.iter().map(|i| FunctionInput { name: i.name.to_string(), type_: type_from_xdr(&i.type_) }).collect(),
        outputs: f.outputs.iter().map(type_from_xdr).collect(),
    }
}

/// Moves a decoded struct into the library's model.
#[verifier::external_body]
fn struct_from_xdr(s: stellar_xdr::curr::ScSpecUdtStructV0) -> StructDef {
    StructDef {
        name: s.name.to_string(),
        fields: s.fields.iter().map(|f| StructField { name: f.name.to_string(), type_: type_from_xdr(&f.type_) }).collect(),
    }
}

/// Moves a decoded union into the library's model.
#[verifier::external_body]
fn union_from_xdr(u: stellar_xdr::curr::ScSpecUdtUnionV0) -> UnionDef {
    UnionDef { name: u.name.to_string(), cases: u.cases.iter().map(union_case_from_xdr).collect() }
}

/// Moves a decoded union case into the library's model, one variant for one.
#[verifier::external_body]
fn union_case_from_xdr(c: &stellar_xdr::curr::ScSpecUdtUnionCaseV0) -> UnionCase {
    match c {
        stellar_xdr::curr::ScSpecUdtUnionCaseV0::VoidV0(v) => UnionCase::Void(v.name.to_string()),
        stellar_xdr::curr::ScSpecUdtUnionCaseV0::TupleV0(t) => {
            UnionCase::Tuple(t.name.to_string(), t.type_.iter().map(type_from_xdr).collect())
        },
    }
}

/// Moves a decoded enum into the library's model.
#[verifier::external_body]
fn enum_from_xdr(d: stellar_xdr::curr::ScSpecUdtEnumV0) -> EnumDef {
    EnumDef {
        name: d.name.to_string(),
        cases: d.cases.iter().map(|c| EnumCase { name: c.name.to_string(), value: c.value }).collect(),
    }
}

/// Moves a decoded error enum into the library's model.
#[verifier::external_body]
fn error_enum_from_xdr(d: stellar_xdr::curr::ScSpecUdtErrorEnumV0) -> EnumDef {
    EnumDef {
        name: d.name.to_string(),
        cases: d.cases.iter().map(|c| EnumCase { name: c.name.to_string(), value: c.value }).collect(),
    }
}

/// Moves a decoded type into the library's model, one variant for one:
/// the variants that hold other types here, the rest further down.
#[verifier::external_body]
fn type_from_xdr(t: &XdrType) -> TypeDef {
    match t {
        XdrType::Option(o) => TypeDef::OptionOf(Box::new(type_from_xdr(&o.value_type))),
        XdrType::Result(r) => TypeDef::ResultOf(Box::new(type_from_xdr(&r.ok_type)), Box::new(type_from_xdr(&r.error_type))),
        XdrType::Vec(v) => TypeDef::VecOf(Box::new(type_from_xdr(&v.element_type))),
        XdrType::Map(m) => TypeDef::MapOf(Box::new(type_from_xdr(&m.key_type)), Box::new(type_from_xdr(&m.value_type))),
        other => leaf_type_from_xdr(other),
    }
}

/// Moves a decoded tuple, fixed-size byte array or named type into the
/// library's model; other variants go on to `scalar_type_from_xdr`.
#[verifier::external_body]
fn leaf_type_from_xdr(t: &XdrType) -> TypeDef {
    match t {
        XdrType::Tuple(u) => TypeDef::TupleOf(u.value_types.iter().map(type_from_xdr).collect()),
        XdrType::BytesN(b) => TypeDef::BytesN(b.n),
        XdrType::Udt(u) => TypeDef::Udt(u.name.to_string()),
        other => scalar_type_from_xdr(other),
    }
}

/// Moves a decoded scalar type into the library's model, one variant for
/// one; the remaining scalars go on to `wide_scalar_type_from_xdr`.
#[verifier::external_body]
fn scalar_type_from_xdr(t: &XdrType) -> TypeDef {
    match t {
        XdrType::Val => TypeDef::Val,
        XdrType::Bool => TypeDef::Bool,
        XdrType::Void => TypeDef::Void,
        XdrType::Error => TypeDef::Error,
        XdrType::U32 => TypeDef::U32,
        XdrType::I32 => TypeDef::I32,
        XdrType::U64 => TypeDef::U64,
        XdrType::I64 => TypeDef::I64,
        XdrType::Timepoint => TypeDef::Timepoint,
        other => wide_scalar_type_from_xdr(other),
    }
}

/// Moves the last scalar types into the library's model, one variant for
/// one; it is reached only with `Duration` to `Address`, so the final arm
/// is `Address`.
#[verifier::external_body]
fn wide_scalar_type_from_xdr(t: &XdrType) -> TypeDef {
    match t {
        XdrType::Duration => TypeDef::Duration,
        XdrType::U128 => TypeDef::U128,
        XdrType::I128 => TypeDef::I128,
        XdrType::U256 => TypeDef::U256,
        XdrType::I256 => TypeDef::I256,
        XdrType::Bytes => TypeDef::Bytes,
        XdrType::String => TypeDef::Str,
        XdrType::Symbol => TypeDef::Symbol,
        _ => TypeDef::Address,
    }
}

} // verus!
