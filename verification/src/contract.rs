use vstd::prelude::*;

use crate::model::{EnumDef, EnumView, FunctionDef, FunctionView, SpecEntry, SpecEntryView, StructDef, StructView, UnionDef, UnionView};

verus! {

/// The interface of a contract: functions and user-defined types, each kind
/// kept apart and looked up by name.
#[derive(Debug)]
pub struct ContractSpec {
    pub functions: Vec<FunctionDef>,
    pub structs: Vec<StructDef>,
    pub enums: Vec<EnumDef>,
    pub unions: Vec<UnionDef>,
    pub error_enums: Vec<EnumDef>,
}

#[verifier::ext_equal]
pub struct ContractSpecView {
    pub functions: Seq<FunctionView>,
    pub structs: Seq<StructView>,
    pub enums: Seq<EnumView>,
    pub unions: Seq<UnionView>,
    pub error_enums: Seq<EnumView>,
}

impl View for ContractSpec {
    type V = ContractSpecView;

    open spec fn view(&self) -> ContractSpecView {
        ContractSpecView {
            functions: self.functions@.map_values(|f: FunctionDef| f@),
            structs: self.structs@.map_values(|s: StructDef| s@),
            enums: self.enums@.map_values(|e: EnumDef| e@),
            unions: self.unions@.map_values(|u: UnionDef| u@),
            error_enums: self.error_enums@.map_values(|e: EnumDef| e@),
        }
    }
}

pub open spec fn function_names(s: Seq<FunctionView>) -> Seq<Seq<char>> {
    s.map_values(|f: FunctionView| f.name)
}

pub open spec fn struct_names(s: Seq<StructView>) -> Seq<Seq<char>> {
    s.map_values(|d: StructView| d.name)
}

pub open spec fn enum_names(s: Seq<EnumView>) -> Seq<Seq<char>> {
    s.map_values(|d: EnumView| d.name)
}

pub open spec fn union_names(s: Seq<UnionView>) -> Seq<Seq<char>> {
    s.map_values(|d: UnionView| d.name)
}

/// The item of `items` whose name (given position-wise by `names`) is `n`.
pub open spec fn lookup<T>(items: Seq<T>, names: Seq<Seq<char>>, n: Seq<char>) -> Option<T> {
    if names.contains(n) {
        Some(items[names.index_of(n)])
    } else {
        None
    }
}

/// Insert `x` under name `n`: an item of the same name is replaced in place,
/// otherwise `x` is appended.
pub open spec fn upsert<T>(items: Seq<T>, names: Seq<Seq<char>>, n: Seq<char>, x: T) -> Seq<T> {
    if names.contains(n) {
        items.update(names.index_of(n), x)
    } else {
        items.push(x)
    }
}

impl ContractSpecView {
    /// Within each kind, no two items share a name.
    pub open spec fn wf(self) -> bool {
        &&& function_names(self.functions).no_duplicates()
        &&& struct_names(self.structs).no_duplicates()
        &&& enum_names(self.enums).no_duplicates()
        &&& union_names(self.unions).no_duplicates()
        &&& enum_names(self.error_enums).no_duplicates()
    }

    pub open spec fn function(self, n: Seq<char>) -> Option<FunctionView> {
        lookup(self.functions, function_names(self.functions), n)
    }

    pub open spec fn struct_def(self, n: Seq<char>) -> Option<StructView> {
        lookup(self.structs, struct_names(self.structs), n)
    }

    pub open spec fn enum_def(self, n: Seq<char>) -> Option<EnumView> {
        lookup(self.enums, enum_names(self.enums), n)
    }

    pub open spec fn union_def(self, n: Seq<char>) -> Option<UnionView> {
        lookup(self.unions, union_names(self.unions), n)
    }

    pub open spec fn empty() -> ContractSpecView {
        ContractSpecView {
            functions: Seq::empty(),
            structs: Seq::empty(),
            enums: Seq::empty(),
            unions: Seq::empty(),
            error_enums: Seq::empty(),
        }
    }

    /// The spec after adding one interface entry; a later entry of the same
    /// kind and name replaces the earlier one.
    pub open spec fn insert(self, e: SpecEntryView) -> ContractSpecView {
        match e {
            SpecEntryView::Function(f) => ContractSpecView {
                functions: upsert(self.functions, function_names(self.functions), f.name, f),
                ..self
            },
            SpecEntryView::Struct(s) => ContractSpecView {
                structs: upsert(self.structs, struct_names(self.structs), s.name, s),
                ..self
            },
            SpecEntryView::Union(u) => ContractSpecView {
                unions: upsert(self.unions, union_names(self.unions), u.name, u),
                ..self
            },
            SpecEntryView::Enum(d) => ContractSpecView {
                enums: upsert(self.enums, enum_names(self.enums), d.name, d),
                ..self
            },
            SpecEntryView::ErrorEnum(d) => ContractSpecView {
                error_enums: upsert(self.error_enums, enum_names(self.error_enums), d.name, d),
                ..self
            },
        }
    }
}

/// The spec built from a sequence of interface entries, in order.
pub open spec fn spec_from_entries(es: Seq<SpecEntryView>) -> ContractSpecView
    decreases es.len(),
{
    if es.len() == 0 {
        ContractSpecView::empty()
    } else {
        spec_from_entries(es.drop_last()).insert(es.last())
    }
}

/// In a sequence without duplicates, the position of an element is its index.
pub proof fn lemma_index_of_unique(names: Seq<Seq<char>>, i: int)
    requires
        names.no_duplicates(),
        0 <= i < names.len(),
    ensures
        names.contains(names[i]),
        names.index_of(names[i]) == i,
{
    assert(names.contains(names[i]));
    let j = names.index_of(names[i]);
    assert(0 <= j < names.len() && names[j] == names[i]);
}

proof fn lemma_upsert_names<T>(items: Seq<T>, names: Seq<Seq<char>>, n: Seq<char>, x: T, new_names: Seq<Seq<char>>)
    requires
        names.no_duplicates(),
        items.len() == names.len(),
        new_names == upsert(names, names, n, n),
    ensures
        new_names.no_duplicates(),
        upsert(items, names, n, x).len() == new_names.len(),
{
    if names.contains(n) {
        let k = names.index_of(n);
        assert(names[k] == n);
        assert(new_names =~= names);
    } else {
        assert forall|a: int, b: int| 0 <= a < new_names.len() && 0 <= b < new_names.len() && a != b
            implies new_names[a] != new_names[b] by {
            if a == names.len() as int {
                assert(new_names[b] == names[b]);
            } else if b == names.len() as int {
                assert(new_names[a] == names[a]);
            }
        }
    }
}

/// An interface item known by its name.
pub trait Named {
    spec fn name_view(&self) -> Seq<char>;

    fn name_ref(&self) -> (r: &String)
        ensures
            r@ == self.name_view(),
    ;
}

impl Named for FunctionDef {
    open spec fn name_view(&self) -> Seq<char> {
        self.name@
    }

    fn name_ref(&self) -> (r: &String) {
        &self.name
    }
}

impl Named for StructDef {
    open spec fn name_view(&self) -> Seq<char> {
        self.name@
    }

    fn name_ref(&self) -> (r: &String) {
        &self.name
    }
}

impl Named for EnumDef {
    open spec fn name_view(&self) -> Seq<char> {
        self.name@
    }

    fn name_ref(&self) -> (r: &String) {
        &self.name
    }
}

impl Named for UnionDef {
    open spec fn name_view(&self) -> Seq<char> {
        self.name@
    }

    fn name_ref(&self) -> (r: &String) {
        &self.name
    }
}

/// The names of the items of `v`, in order.
pub open spec fn names_of<T: Named>(v: Seq<T>) -> Seq<Seq<char>> {
    v.map_values(|d: T| d.name_view())
}

/// The position in `v` of the item named `n`, if there is one.
fn position<T: Named>(v: &Vec<T>, n: &String) -> (r: Option<usize>)
    requires
        names_of(v@).no_duplicates(),
    ensures
        names_of(v@).contains(n@) == (r is Some),
        r matches Some(i) ==> i < v.len() && names_of(v@).index_of(n@) == i,
{
    let ghost names = names_of(v@);
    let mut i: usize = 0;
    while i < v.len()
        invariant
            names == names_of(v@),
            names.len() == v.len(),
            names.no_duplicates(),
            i <= v.len(),
            forall|j: int| 0 <= j < i ==> names[j] != n@,
        decreases v.len() - i,
    {
        let name = v[i].name_ref();
        assert(names[i as int] == name@);
        if *name == *n {
            proof {
                lemma_index_of_unique(names, i as int);
            }
            return Some(i);
        }
        i = i + 1;
    }
    assert(!names.contains(n@));
    None
}

impl ContractSpec {
    /// An empty contract interface.
    pub fn new() -> (r: ContractSpec)
        ensures
            r@ == ContractSpecView::empty(),
            r@.wf(),
    {
        let r = ContractSpec {
            functions: Vec::new(),
            structs: Vec::new(),
            enums: Vec::new(),
            unions: Vec::new(),
            error_enums: Vec::new(),
        };
        assert(r@ =~= ContractSpecView::empty());
        r
    }

    /// Adds one interface entry; an entry of the same kind and name is replaced.
    pub fn insert(&mut self, e: SpecEntry)
        requires
            old(self)@.wf(),
        ensures
            final(self)@ == old(self)@.insert(e@),
            final(self)@.wf(),
    {
        let ghost old_view = self@;
        match e {
            SpecEntry::Function(f) => {
                let ghost fv = f@;
                assert(names_of(self.functions@) =~= function_names(self@.functions));
                match position(&self.functions, &f.name) {
                    Some(i) => { self.functions.set(i, f); },
                    None => { self.functions.push(f); },
                }
                assert(self@.functions =~= upsert(old_view.functions, function_names(old_view.functions), fv.name, fv));
                assert(function_names(self@.functions) =~= upsert(function_names(old_view.functions), function_names(old_view.functions), fv.name, fv.name));
                proof {
                    lemma_upsert_names(old_view.functions, function_names(old_view.functions), fv.name, fv,
                        function_names(self@.functions));
                }
            },
            SpecEntry::Struct(d) => {
                let ghost dv = d@;
                assert(names_of(self.structs@) =~= struct_names(self@.structs));
                match position(&self.structs, &d.name) {
                    Some(i) => { self.structs.set(i, d); },
                    None => { self.structs.push(d); },
                }
                assert(self@.structs =~= upsert(old_view.structs, struct_names(old_view.structs), dv.name, dv));
                assert(struct_names(self@.structs) =~= upsert(struct_names(old_view.structs), struct_names(old_view.structs), dv.name, dv.name));
                proof {
                    lemma_upsert_names(old_view.structs, struct_names(old_view.structs), dv.name, dv,
                        struct_names(self@.structs));
                }
            },
            SpecEntry::Union(d) => {
                let ghost dv = d@;
                assert(names_of(self.unions@) =~= union_names(self@.unions));
                match position(&self.unions, &d.name) {
                    Some(i) => { self.unions.set(i, d); },
                    None => { self.unions.push(d); },
                }
                assert(self@.unions =~= upsert(old_view.unions, union_names(old_view.unions), dv.name, dv));
                assert(union_names(self@.unions) =~= upsert(union_names(old_view.unions), union_names(old_view.unions), dv.name, dv.name));
                proof {
                    lemma_upsert_names(old_view.unions, union_names(old_view.unions), dv.name, dv,
                        union_names(self@.unions));
                }
            },
            SpecEntry::Enum(d) => {
                let ghost dv = d@;
                assert(names_of(self.enums@) =~= enum_names(self@.enums));
                match position(&self.enums, &d.name) {
                    Some(i) => { self.enums.set(i, d); },
                    None => { self.enums.push(d); },
                }
                assert(self@.enums =~= upsert(old_view.enums, enum_names(old_view.enums), dv.name, dv));
                assert(enum_names(self@.enums) =~= upsert(enum_names(old_view.enums), enum_names(old_view.enums), dv.name, dv.name));
                proof {
                    lemma_upsert_names(old_view.enums, enum_names(old_view.enums), dv.name, dv,
                        enum_names(self@.enums));
                }
            },
            SpecEntry::ErrorEnum(d) => {
                let ghost dv = d@;
                assert(names_of(self.error_enums@) =~= enum_names(self@.error_enums));
                match position(&self.error_enums, &d.name) {
                    Some(i) => { self.error_enums.set(i, d); },
                    None => { self.error_enums.push(d); },
                }
                assert(self@.error_enums =~= upsert(old_view.error_enums, enum_names(old_view.error_enums), dv.name, dv));
                assert(enum_names(self@.error_enums) =~= upsert(enum_names(old_view.error_enums), enum_names(old_view.error_enums), dv.name, dv.name));
                proof {
                    lemma_upsert_names(old_view.error_enums, enum_names(old_view.error_enums), dv.name, dv,
                        enum_names(self@.error_enums));
                }
            },
        }
        assert(self@ =~= old_view.insert(e@));
    }


    /// The function with the given name, if the interface declares one.
    pub fn get_function(&self, name: &String) -> (r: Option<&FunctionDef>)
        requires
            self@.wf(),
        ensures
            match r {
                Some(d) => self@.function(name@) == Some(d@),
                None => self@.function(name@) is None,
            },
    {
        assert(names_of(self.functions@) =~= function_names(self@.functions));
        match position(&self.functions, name) {
            Some(i) => Some(&self.functions[i]),
            None => None,
        }
    }

    /// The struct with the given name, if the interface declares one.
    pub fn get_struct(&self, name: &String) -> (r: Option<&StructDef>)
        requires
            self@.wf(),
        ensures
            match r {
                Some(d) => self@.struct_def(name@) == Some(d@),
                None => self@.struct_def(name@) is None,
            },
    {
        assert(names_of(self.structs@) =~= struct_names(self@.structs));
        match position(&self.structs, name) {
            Some(i) => Some(&self.structs[i]),
            None => None,
        }
    }

    /// The enum with the given name, if the interface declares one.
    pub fn get_enum(&self, name: &String) -> (r: Option<&EnumDef>)
        requires
            self@.wf(),
        ensures
            match r {
                Some(d) => self@.enum_def(name@) == Some(d@),
                None => self@.enum_def(name@) is None,
            },
    {
        assert(names_of(self.enums@) =~= enum_names(self@.enums));
        match position(&self.enums, name) {
            Some(i) => Some(&self.enums[i]),
            None => None,
        }
    }

    /// The union with the given name, if the interface declares one.
    pub fn get_union(&self, name: &String) -> (r: Option<&UnionDef>)
        requires
            self@.wf(),
        ensures
            match r {
                Some(d) => self@.union_def(name@) == Some(d@),
                None => self@.union_def(name@) is None,
            },
    {
        assert(names_of(self.unions@) =~= union_names(self@.unions));
        match position(&self.unions, name) {
            Some(i) => Some(&self.unions[i]),
            None => None,
        }
    }

    /// Groups decoded interface entries by kind and name.
    pub fn from_entries(entries: Vec<SpecEntry>) -> (r: ContractSpec)
        ensures
            r@ == spec_from_entries(entries@.map_values(|e: SpecEntry| e@)),
            r@.wf(),
    {
        let ghost es = entries@.map_values(|e: SpecEntry| e@);
        let ghost orig = entries@;
        let mut spec = ContractSpec::new();
        let mut rest = entries;
        let n = rest.len();
        let mut i: usize = 0;
        assert(es.take(0) =~= Seq::<SpecEntryView>::empty());
        while i < n
            invariant
                n == orig.len(),
                es == orig.map_values(|e: SpecEntry| e@),
                i <= n,
                rest@ == orig.skip(i as int),
                spec@.wf(),
                spec@ == spec_from_entries(es.take(i as int)),
            decreases n - i,
        {
            let e = rest.remove(0);
            assert(e == orig[i as int]);
            spec.insert(e);
            assert(es.take(i + 1).drop_last() =~= es.take(i as int));
            assert(rest@ =~= orig.skip(i + 1));
            i = i + 1;
        }
        assert(es.take(n as int) =~= es);
        spec
    }
}

} // verus!
