use vstd::prelude::*;

verus! {

/// A type as it appears in a contract interface.
#[derive(Debug)]
pub enum TypeDef {
    Val,
    Bool,
    Void,
    Error,
    U32,
    I32,
    U64,
    I64,
    Timepoint,
    Duration,
    U128,
    I128,
    U256,
    I256,
    Bytes,
    Str,
    Symbol,
    Address,
    OptionOf(Box<TypeDef>),
    ResultOf(Box<TypeDef>, Box<TypeDef>),
    VecOf(Box<TypeDef>),
    MapOf(Box<TypeDef>, Box<TypeDef>),
    TupleOf(Vec<TypeDef>),
    BytesN(u32),
    Udt(String),
}

/// The mathematical value of a [`TypeDef`]: names become character sequences.
pub enum TypeView {
    Val,
    Bool,
    Void,
    Error,
    U32,
    I32,
    U64,
    I64,
    Timepoint,
    Duration,
    U128,
    I128,
    U256,
    I256,
    Bytes,
    Str,
    Symbol,
    Address,
    OptionOf(Box<TypeView>),
    ResultOf(Box<TypeView>, Box<TypeView>),
    VecOf(Box<TypeView>),
    MapOf(Box<TypeView>, Box<TypeView>),
    TupleOf(Seq<TypeView>),
    BytesN(u32),
    Udt(Seq<char>),
}

pub open spec fn type_view(t: TypeDef) -> TypeView
    decreases t,
{
    match t {
        TypeDef::Val => TypeView::Val,
        TypeDef::Bool => TypeView::Bool,
        TypeDef::Void => TypeView::Void,
        TypeDef::Error => TypeView::Error,
        TypeDef::U32 => TypeView::U32,
        TypeDef::I32 => TypeView::I32,
        TypeDef::U64 => TypeView::U64,
        TypeDef::I64 => TypeView::I64,
        TypeDef::Timepoint => TypeView::Timepoint,
        TypeDef::Duration => TypeView::Duration,
        TypeDef::U128 => TypeView::U128,
        TypeDef::I128 => TypeView::I128,
        TypeDef::U256 => TypeView::U256,
        TypeDef::I256 => TypeView::I256,
        TypeDef::Bytes => TypeView::Bytes,
        TypeDef::Str => TypeView::Str,
        TypeDef::Symbol => TypeView::Symbol,
        TypeDef::Address => TypeView::Address,
        TypeDef::OptionOf(a) => TypeView::OptionOf(Box::new(type_view(*a))),
        TypeDef::ResultOf(a, b) => TypeView::ResultOf(Box::new(type_view(*a)), Box::new(type_view(*b))),
        TypeDef::VecOf(a) => TypeView::VecOf(Box::new(type_view(*a))),
        TypeDef::MapOf(a, b) => TypeView::MapOf(Box::new(type_view(*a)), Box::new(type_view(*b))),
        TypeDef::TupleOf(v) => TypeView::TupleOf(types_view(v@)),
        TypeDef::BytesN(n) => TypeView::BytesN(n),
        TypeDef::Udt(name) => TypeView::Udt(name@),
    }
}

pub open spec fn types_view(s: Seq<TypeDef>) -> Seq<TypeView>
    decreases s,
{
    if s.len() == 0 {
        Seq::empty()
    } else {
        types_view(s.drop_last()).push(type_view(s.last()))
    }
}

pub proof fn lemma_types_view(s: Seq<TypeDef>)
    ensures
        types_view(s).len() == s.len(),
        forall|i: int| 0 <= i < s.len() ==> #[trigger] types_view(s)[i] == type_view(s[i]),
    decreases s.len(),
{
    if s.len() > 0 {
        lemma_types_view(s.drop_last());
    }
}

impl View for TypeDef {
    type V = TypeView;

    open spec fn view(&self) -> TypeView {
        type_view(*self)
    }
}

/// Structural equality of two types.
pub fn types_equal(a: &TypeDef, b: &TypeDef) -> (r: bool)
    ensures
        r == (a@ == b@),
    decreases a,
{
    match (a, b) {
        (TypeDef::Val, TypeDef::Val) => true,
        (TypeDef::Bool, TypeDef::Bool) => true,
        (TypeDef::Void, TypeDef::Void) => true,
        (TypeDef::Error, TypeDef::Error) => true,
        (TypeDef::U32, TypeDef::U32) => true,
        (TypeDef::I32, TypeDef::I32) => true,
        (TypeDef::U64, TypeDef::U64) => true,
        (TypeDef::I64, TypeDef::I64) => true,
        (TypeDef::Timepoint, TypeDef::Timepoint) => true,
        (TypeDef::Duration, TypeDef::Duration) => true,
        (TypeDef::U128, TypeDef::U128) => true,
        (TypeDef::I128, TypeDef::I128) => true,
        (TypeDef::U256, TypeDef::U256) => true,
        (TypeDef::I256, TypeDef::I256) => true,
        (TypeDef::Bytes, TypeDef::Bytes) => true,
        (TypeDef::Str, TypeDef::Str) => true,
        (TypeDef::Symbol, TypeDef::Symbol) => true,
        (TypeDef::Address, TypeDef::Address) => true,
        (TypeDef::OptionOf(x), TypeDef::OptionOf(y)) => types_equal(x, y),
        (TypeDef::ResultOf(x1, x2), TypeDef::ResultOf(y1, y2)) => types_equal(x1, y1) && types_equal(x2, y2),
        (TypeDef::VecOf(x), TypeDef::VecOf(y)) => types_equal(x, y),
        (TypeDef::MapOf(x1, x2), TypeDef::MapOf(y1, y2)) => types_equal(x1, y1) && types_equal(x2, y2),
        (TypeDef::TupleOf(xs), TypeDef::TupleOf(ys)) => {
            proof {
                lemma_types_view(xs@);
                lemma_types_view(ys@);
            }
            if xs.len() != ys.len() {
                assert(types_view(xs@).len() != types_view(ys@).len());
                return false;
            }
            let mut i: usize = 0;
            while i < xs.len()
                invariant
                    *a == TypeDef::TupleOf(*xs),
                    *b == TypeDef::TupleOf(*ys),
                    xs.len() == ys.len(),
                    i <= xs.len(),
                    types_view(xs@).len() == xs.len(),
                    types_view(ys@).len() == ys.len(),
                    forall|j: int| 0 <= j < xs.len() ==> #[trigger] types_view(xs@)[j] == type_view(xs@[j]),
                    forall|j: int| 0 <= j < ys.len() ==> #[trigger] types_view(ys@)[j] == type_view(ys@[j]),
                    forall|j: int| 0 <= j < i ==> type_view(xs@[j]) == type_view(ys@[j]),
                decreases xs.len() - i,
            {
                proof {
                    assert(decreases_to!(*a => (*a)->TupleOf_0));
                    assert(decreases_to!(*xs => xs@));
                    assert(decreases_to!(xs@ => xs@[i as int]));
                    assert(decreases_to!(*a => xs@[i as int]));
                }
                if !types_equal(&xs[i], &ys[i]) {
                    assert(types_view(xs@)[i as int] != types_view(ys@)[i as int]);
                    return false;
                }
                i = i + 1;
            }
            assert(types_view(xs@) =~= types_view(ys@));
            true
        },
        (TypeDef::BytesN(m), TypeDef::BytesN(n)) => *m == *n,
        (TypeDef::Udt(m), TypeDef::Udt(n)) => *m == *n,
        _ => false,
    }
}

/// A named, typed parameter of a contract function.
#[derive(Debug)]
pub struct FunctionInput {
    pub name: String,
    pub type_: TypeDef,
}

pub struct FunctionInputView {
    pub name: Seq<char>,
    pub ty: TypeView,
}

impl View for FunctionInput {
    type V = FunctionInputView;

    open spec fn view(&self) -> FunctionInputView {
        FunctionInputView { name: self.name@, ty: self.type_@ }
    }
}

/// A contract function: its name, parameters and return types.
#[derive(Debug)]
pub struct FunctionDef {
    pub name: String,
    pub inputs: Vec<FunctionInput>,
    pub outputs: Vec<TypeDef>,
}

pub struct FunctionView {
    pub name: Seq<char>,
    pub inputs: Seq<FunctionInputView>,
    pub outputs: Seq<TypeView>,
}

impl View for FunctionDef {
    type V = FunctionView;

    open spec fn view(&self) -> FunctionView {
        FunctionView {
            name: self.name@,
            inputs: self.inputs@.map_values(|x: FunctionInput| x@),
            outputs: self.outputs@.map_values(|t: TypeDef| t@),
        }
    }
}

/// A field of a user-defined struct.
#[derive(Debug)]
pub struct StructField {
    pub name: String,
    pub type_: TypeDef,
}

pub struct StructFieldView {
    pub name: Seq<char>,
    pub ty: TypeView,
}

impl View for StructField {
    type V = StructFieldView;

    open spec fn view(&self) -> StructFieldView {
        StructFieldView { name: self.name@, ty: self.type_@ }
    }
}

/// A user-defined struct; its fields are stored by position.
#[derive(Debug)]
pub struct StructDef {
    pub name: String,
    pub fields: Vec<StructField>,
}

pub struct StructView {
    pub name: Seq<char>,
    pub fields: Seq<StructFieldView>,
}

impl View for StructDef {
    type V = StructView;

    open spec fn view(&self) -> StructView {
        StructView { name: self.name@, fields: self.fields@.map_values(|f: StructField| f@) }
    }
}

/// A case of a user-defined enum (or error enum) with its integer value.
#[derive(Debug)]
pub struct EnumCase {
    pub name: String,
    pub value: u32,
}

pub struct EnumCaseView {
    pub name: Seq<char>,
    pub value: u32,
}

impl View for EnumCase {
    type V = EnumCaseView;

    open spec fn view(&self) -> EnumCaseView {
        EnumCaseView { name: self.name@, value: self.value }
    }
}

/// A user-defined integer enum (also used for error enums).
#[derive(Debug)]
pub struct EnumDef {
    pub name: String,
    pub cases: Vec<EnumCase>,
}

pub struct EnumView {
    pub name: Seq<char>,
    pub cases: Seq<EnumCaseView>,
}

impl View for EnumDef {
    type V = EnumView;

    open spec fn view(&self) -> EnumView {
        EnumView { name: self.name@, cases: self.cases@.map_values(|c: EnumCase| c@) }
    }
}

/// A case of a user-defined union: either a bare name or a name carrying values.
#[derive(Debug)]
pub enum UnionCase {
    Void(String),
    Tuple(String, Vec<TypeDef>),
}

pub enum UnionCaseView {
    Void(Seq<char>),
    Tuple(Seq<char>, Seq<TypeView>),
}

impl View for UnionCase {
    type V = UnionCaseView;

    open spec fn view(&self) -> UnionCaseView {
        match self {
            UnionCase::Void(n) => UnionCaseView::Void(n@),
            UnionCase::Tuple(n, ts) => UnionCaseView::Tuple(n@, ts@.map_values(|t: TypeDef| t@)),
        }
    }
}

/// A user-defined union.
#[derive(Debug)]
pub struct UnionDef {
    pub name: String,
    pub cases: Vec<UnionCase>,
}

pub struct UnionView {
    pub name: Seq<char>,
    pub cases: Seq<UnionCaseView>,
}

impl View for UnionDef {
    type V = UnionView;

    open spec fn view(&self) -> UnionView {
        UnionView { name: self.name@, cases: self.cases@.map_values(|c: UnionCase| c@) }
    }
}

/// One entry of a contract's interface section.
#[derive(Debug)]
pub enum SpecEntry {
    Function(FunctionDef),
    Struct(StructDef),
    Union(UnionDef),
    Enum(EnumDef),
    ErrorEnum(EnumDef),
}

pub enum SpecEntryView {
    Function(FunctionView),
    Struct(StructView),
    Union(UnionView),
    Enum(EnumView),
    ErrorEnum(EnumView),
}

impl View for SpecEntry {
    type V = SpecEntryView;

    open spec fn view(&self) -> SpecEntryView {
        match self {
            SpecEntry::Function(f) => SpecEntryView::Function(f@),
            SpecEntry::Struct(s) => SpecEntryView::Struct(s@),
            SpecEntry::Union(u) => SpecEntryView::Union(u@),
            SpecEntry::Enum(e) => SpecEntryView::Enum(e@),
            SpecEntry::ErrorEnum(e) => SpecEntryView::ErrorEnum(e@),
        }
    }
}

} // verus!
