use vstd::prelude::*;
use vstd::string::StringExecFns;

use crate::contract::{ContractSpec, ContractSpecView};
use crate::model::{lemma_types_view, type_view, types_view, TypeDef, TypeView, UnionCase, UnionCaseView};
use crate::text::{append_decimal, contains_name, decimal, names_view, str_less, str_lt};

verus! {

// ---------------------------------------------------------------------------
// Rendering types as Rust-like signatures
// ---------------------------------------------------------------------------

/// The Rust-like spelling of a type, as used in messages.
pub open spec fn type_string(t: TypeView) -> Seq<char>
    decreases t,
{
    match t {
        TypeView::Val => "Val"@,
        TypeView::Bool => "bool"@,
        TypeView::Void => "()"@,
        TypeView::Error => "Error"@,
        TypeView::U32 => "u32"@,
        TypeView::I32 => "i32"@,
        TypeView::U64 => "u64"@,
        TypeView::I64 => "i64"@,
        TypeView::Timepoint => "Timepoint"@,
        TypeView::Duration => "Duration"@,
        TypeView::U128 => "u128"@,
        TypeView::I128 => "i128"@,
        TypeView::U256 => "u256"@,
        TypeView::I256 => "i256"@,
        TypeView::Bytes => "Bytes"@,
        TypeView::Str => "String"@,
        TypeView::Symbol => "Symbol"@,
        TypeView::Address => "Address"@,
        TypeView::OptionOf(a) => "Option<"@ + type_string(*a) + ">"@,
        TypeView::ResultOf(a, b) => "Result<"@ + type_string(*a) + ", "@ + type_string(*b) + ">"@,
        TypeView::VecOf(a) => "Vec<"@ + type_string(*a) + ">"@,
        TypeView::MapOf(a, b) => "Map<"@ + type_string(*a) + ", "@ + type_string(*b) + ">"@,
        TypeView::TupleOf(s) => "("@ + joined_type_strings(s) + ")"@,
        TypeView::BytesN(n) => "BytesN<"@ + decimal(n as nat) + ">"@,
        TypeView::Udt(name) => name,
    }
}

/// The spellings of `s`, separated by `", "`.
pub open spec fn joined_type_strings(s: Seq<TypeView>) -> Seq<char>
    decreases s,
{
    if s.len() == 0 {
        Seq::empty()
    } else if s.len() == 1 {
        type_string(s[0])
    } else {
        joined_type_strings(s.drop_last()) + ", "@ + type_string(s.last())
    }
}

/// Converts a type into a human-readable Rust-like signature.
pub fn type_to_string(t: &TypeDef) -> (r: String)
    ensures
        r@ == type_string(t@),
    decreases t,
{
    match t {
        TypeDef::Val => String::from_str("Val"),
        TypeDef::Bool => String::from_str("bool"),
        TypeDef::Void => String::from_str("()"),
        TypeDef::Error => String::from_str("Error"),
        TypeDef::U32 => String::from_str("u32"),
        TypeDef::I32 => String::from_str("i32"),
        TypeDef::U64 => String::from_str("u64"),
        TypeDef::I64 => String::from_str("i64"),
        TypeDef::Timepoint => String::from_str("Timepoint"),
        TypeDef::Duration => String::from_str("Duration"),
        TypeDef::U128 => String::from_str("u128"),
        TypeDef::I128 => String::from_str("i128"),
        TypeDef::U256 => String::from_str("u256"),
        TypeDef::I256 => String::from_str("i256"),
        TypeDef::Bytes => String::from_str("Bytes"),
        TypeDef::Str => String::from_str("String"),
        TypeDef::Symbol => String::from_str("Symbol"),
        TypeDef::Address => String::from_str("Address"),
        TypeDef::OptionOf(a) => {
            let mut s = String::from_str("Option<");
            let inner = type_to_string(a);
            s.append(inner.as_str());
            s.append(">");
            s
        },
        TypeDef::ResultOf(a, b) => {
            let mut s = String::from_str("Result<");
            let x = type_to_string(a);
            let y = type_to_string(b);
            s.append(x.as_str());
            s.append(", ");
            s.append(y.as_str());
            s.append(">");
            s
        },
        TypeDef::VecOf(a) => {
            let mut s = String::from_str("Vec<");
            let inner = type_to_string(a);
            s.append(inner.as_str());
            s.append(">");
            s
        },
        TypeDef::MapOf(a, b) => {
            let mut s = String::from_str("Map<");
            let x = type_to_string(a);
            let y = type_to_string(b);
            s.append(x.as_str());
            s.append(", ");
            s.append(y.as_str());
            s.append(">");
            s
        },
        TypeDef::TupleOf(v) => {
            proof {
                lemma_types_view(v@);
            }
            let ghost vs = types_view(v@);
            let mut s = String::from_str("(");
            let mut i: usize = 0;
            while i < v.len()
                invariant
                    *t == TypeDef::TupleOf(*v),
                    vs == types_view(v@),
                    vs.len() == v.len(),
                    forall|j: int| 0 <= j < v.len() ==> #[trigger] vs[j] == type_view(v@[j]),
                    i <= v.len(),
                    s@ == "("@ + joined_type_strings(vs.take(i as int)),
                decreases v.len() - i,
            {
                proof {
                    assert(decreases_to!(*t => (*t)->TupleOf_0));
                    assert(decreases_to!(*v => v@));
                    assert(decreases_to!(v@ => v@[i as int]));
                }
                let item = type_to_string(&v[i]);
                let ghost before = s@;
                if i > 0 {
                    s.append(", ");
                }
                s.append(item.as_str());
                proof {
                    let prefix = vs.take(i + 1);
                    assert(prefix.drop_last() =~= vs.take(i as int));
                    assert(prefix.last() == vs[i as int]);
                    if i == 0 {
                        assert(prefix.len() == 1);
                        assert(joined_type_strings(vs.take(0)) =~= Seq::<char>::empty());
                        assert(s@ =~= "("@ + joined_type_strings(prefix));
                    } else {
                        assert(s@ =~= "("@ + joined_type_strings(prefix));
                    }
                }
                i = i + 1;
            }
            assert(vs.take(v.len() as int) =~= vs);
            s.append(")");
            s
        },
        TypeDef::BytesN(n) => {
            let mut s = String::from_str("BytesN<");
            append_decimal(&mut s, *n as u64);
            s.append(">");
            s
        },
        TypeDef::Udt(name) => name.clone(),
    }
}

// ---------------------------------------------------------------------------
// References to user-defined types
// ---------------------------------------------------------------------------

/// The names of user-defined types that occur in `t`, in order of occurrence.
pub open spec fn udt_refs(t: TypeView) -> Seq<Seq<char>>
    decreases t,
{
    match t {
        TypeView::OptionOf(a) => udt_refs(*a),
        TypeView::ResultOf(a, b) => udt_refs(*a) + udt_refs(*b),
        TypeView::VecOf(a) => udt_refs(*a),
        TypeView::MapOf(a, b) => udt_refs(*a) + udt_refs(*b),
        TypeView::TupleOf(s) => udt_refs_all(s),
        TypeView::Udt(name) => seq![name],
        _ => Seq::empty(),
    }
}

/// The user-defined type names occurring in each of `s`, concatenated.
pub open spec fn udt_refs_all(s: Seq<TypeView>) -> Seq<Seq<char>>
    decreases s,
{
    if s.len() == 0 {
        Seq::empty()
    } else {
        udt_refs_all(s.drop_last()) + udt_refs(s.last())
    }
}

/// Appends to `out` the names of the user-defined types occurring in `t`.
fn collect_udt_refs(t: &TypeDef, out: &mut Vec<String>)
    ensures
        names_view(final(out)@) == names_view(old(out)@) + udt_refs(t@),
    decreases t,
{
    let ghost start = names_view(out@);
    match t {
        TypeDef::OptionOf(a) => {
            collect_udt_refs(a, out);
        },
        TypeDef::ResultOf(a, b) => {
            collect_udt_refs(a, out);
            collect_udt_refs(b, out);
            assert(names_view(out@) =~= start + udt_refs(t@));
        },
        TypeDef::VecOf(a) => {
            collect_udt_refs(a, out);
        },
        TypeDef::MapOf(a, b) => {
            collect_udt_refs(a, out);
            collect_udt_refs(b, out);
            assert(names_view(out@) =~= start + udt_refs(t@));
        },
        TypeDef::TupleOf(v) => {
            proof {
                lemma_types_view(v@);
            }
            let ghost vs = types_view(v@);
            let mut i: usize = 0;
            assert(vs.take(0) =~= Seq::<TypeView>::empty());
            assert(names_view(out@) =~= start + udt_refs_all(vs.take(0)));
            while i < v.len()
                invariant
                    *t == TypeDef::TupleOf(*v),
                    vs == types_view(v@),
                    vs.len() == v.len(),
                    forall|j: int| 0 <= j < v.len() ==> #[trigger] vs[j] == type_view(v@[j]),
                    i <= v.len(),
                    names_view(out@) == start + udt_refs_all(vs.take(i as int)),
                decreases v.len() - i,
            {
                proof {
                    assert(decreases_to!(*t => (*t)->TupleOf_0));
                    assert(decreases_to!(*v => v@));
                    assert(decreases_to!(v@ => v@[i as int]));
                }
                collect_udt_refs(&v[i], out);
                assert(vs.take(i + 1).drop_last() =~= vs.take(i as int));
                assert(names_view(out@) =~= start + udt_refs_all(vs.take(i + 1)));
                i = i + 1;
            }
            assert(vs.take(v.len() as int) =~= vs);
        },
        TypeDef::Udt(name) => {
            out.push(name.clone());
            assert(names_view(out@) =~= start + udt_refs(t@));
        },
        _ => {
            assert(names_view(out@) =~= start + udt_refs(t@));
        },
    }
}

/// The value types carried by the cases of a union, in order.
pub open spec fn union_case_types(cases: Seq<UnionCaseView>) -> Seq<TypeView> {
    cases.flat_map(
        |c: UnionCaseView|
            match c {
                UnionCaseView::Void(_) => Seq::empty(),
                UnionCaseView::Tuple(_, ts) => ts,
            },
    )
}

/// The names of user-defined types occurring in each of `ts`, concatenated.
pub open spec fn refs_of_types(ts: Seq<TypeView>) -> Seq<Seq<char>> {
    ts.flat_map(|t: TypeView| udt_refs(t))
}

/// The field types of a struct, in order.
pub open spec fn struct_field_types(s: crate::model::StructView) -> Seq<TypeView> {
    s.fields.map_values(|f: crate::model::StructFieldView| f.ty)
}

/// The member types of the user-defined type named `n`: the field types of
/// the struct of that name, else the case value types of the union of that
/// name; none for enums and undeclared names.
pub open spec fn member_types(spec: ContractSpecView, n: Seq<char>) -> Seq<TypeView> {
    match spec.struct_def(n) {
        Some(s) => struct_field_types(s),
        None => match spec.union_def(n) {
            Some(u) => union_case_types(u.cases),
            None => Seq::empty(),
        },
    }
}

/// The user-defined type names referenced by the members of the type named `n`.
pub open spec fn member_refs(spec: ContractSpecView, n: Seq<char>) -> Seq<Seq<char>> {
    refs_of_types(member_types(spec, n))
}

/// Mapping over a concatenation concatenates the results.
pub proof fn lemma_flat_map_add<A, B>(a: Seq<A>, b: Seq<A>, f: spec_fn(A) -> Seq<B>)
    ensures
        (a + b).flat_map(f) == a.flat_map(f) + b.flat_map(f),
    decreases b.len(),
{
    if b.len() == 0 {
        assert(a + b =~= a);
        assert(b.flat_map(f) =~= Seq::<B>::empty()) by {
            assert(b.map_values(f) =~= Seq::<Seq<B>>::empty());
        }
        assert(a.flat_map(f) + b.flat_map(f) =~= a.flat_map(f));
    } else {
        let b0 = b.drop_last();
        lemma_flat_map_add(a, b0, f);
        assert(a + b =~= (a + b0).push(b.last()));
        assert(b =~= b0.push(b.last()));
        (a + b0).lemma_flat_map_push(f, b.last());
        b0.lemma_flat_map_push(f, b.last());
        assert((a + b).flat_map(f) =~= a.flat_map(f) + b.flat_map(f));
    }
}

/// An element of one mapped item is an element of the whole mapped sequence.
pub proof fn lemma_flat_map_contains<A, B>(s: Seq<A>, f: spec_fn(A) -> Seq<B>, i: int, x: B)
    requires
        0 <= i < s.len(),
        f(s[i]).contains(x),
    ensures
        s.flat_map(f).contains(x),
    decreases s.len(),
{
    let s0 = s.drop_last();
    assert(s =~= s0.push(s.last()));
    s0.lemma_flat_map_push(f, s.last());
    if i == s.len() - 1 {
        let k = choose|k: int| 0 <= k < f(s[i]).len() && #[trigger] f(s[i])[k] == x;
        assert(s.flat_map(f)[s0.flat_map(f).len() + k] == x);
    } else {
        lemma_flat_map_contains(s0, f, i, x);
        let k = choose|k: int| 0 <= k < s0.flat_map(f).len() && s0.flat_map(f)[k] == x;
        assert(s.flat_map(f)[k] == x);
    }
}

/// An element of a mapped sequence comes from one of the mapped items.
pub proof fn lemma_flat_map_contains_inv<A, B>(s: Seq<A>, f: spec_fn(A) -> Seq<B>, x: B) -> (i: int)
    requires
        s.flat_map(f).contains(x),
    ensures
        0 <= i < s.len(),
        f(s[i]).contains(x),
    decreases s.len(),
{
    if s.len() == 0 {
        assert(s.flat_map(f) =~= Seq::<B>::empty()) by {
            assert(s.map_values(f) =~= Seq::<Seq<B>>::empty());
        }
        0
    } else {
        let s0 = s.drop_last();
        assert(s =~= s0.push(s.last()));
        s0.lemma_flat_map_push(f, s.last());
        let k = choose|k: int| 0 <= k < s.flat_map(f).len() && s.flat_map(f)[k] == x;
        if k < s0.flat_map(f).len() {
            assert(s0.flat_map(f)[k] == x);
            lemma_flat_map_contains_inv(s0, f, x)
        } else {
            assert(f(s.last())[k - s0.flat_map(f).len()] == x);
            s.len() - 1
        }
    }
}

/// Appends the user-defined type names occurring in each of `ts`.
fn collect_udt_refs_all(ts: &Vec<TypeDef>, out: &mut Vec<String>)
    ensures
        names_view(final(out)@) == names_view(old(out)@) + ts@.map_values(|t: TypeDef| t@).flat_map(
            |t: TypeView| udt_refs(t),
        ),
{
    let ghost start = names_view(out@);
    let ghost tv = ts@.map_values(|t: TypeDef| t@);
    let ghost f = |t: TypeView| udt_refs(t);
    let mut i: usize = 0;
    assert(tv.take(0).flat_map(f) =~= Seq::<Seq<char>>::empty()) by {
        assert(tv.take(0).map_values(f) =~= Seq::<Seq<Seq<char>>>::empty());
    }
    assert(names_view(out@) =~= start + tv.take(0).flat_map(f));
    while i < ts.len()
        invariant
            tv == ts@.map_values(|t: TypeDef| t@),
            f == (|t: TypeView| udt_refs(t)),
            i <= ts.len(),
            names_view(out@) == start + tv.take(i as int).flat_map(f),
        decreases ts.len() - i,
    {
        collect_udt_refs(&ts[i], out);
        proof {
            tv.lemma_flat_map_take_append(f, i as int);
        }
        assert(names_view(out@) =~= start + tv.take(i + 1).flat_map(f));
        i = i + 1;
    }
    assert(tv.take(ts.len() as int) =~= tv);
}

/// The user-defined type names referenced by the members of the type named `name`.
fn member_refs_of(spec: &ContractSpec, name: &String) -> (r: Vec<String>)
    requires
        spec@.wf(),
    ensures
        names_view(r@) == member_refs(spec@, name@),
{
    let ghost f = |t: TypeView| udt_refs(t);
    let mut out: Vec<String> = Vec::new();
    match spec.get_struct(name) {
        Some(sd) => {
            let ghost tys = struct_field_types(sd@);
            let mut i: usize = 0;
            assert(tys.take(0).flat_map(f) =~= Seq::<Seq<char>>::empty()) by {
                assert(tys.take(0).map_values(f) =~= Seq::<Seq<Seq<char>>>::empty());
            }
            while i < sd.fields.len()
                invariant
                    f == (|t: TypeView| udt_refs(t)),
                    tys == struct_field_types(sd@),
                    tys.len() == sd.fields.len(),
                    i <= sd.fields.len(),
                    names_view(out@) == tys.take(i as int).flat_map(f),
                decreases sd.fields.len() - i,
            {
                collect_udt_refs(&sd.fields[i].type_, &mut out);
                proof {
                    assert(tys[i as int] == sd.fields@[i as int].type_@);
                    tys.lemma_flat_map_take_append(f, i as int);
                }
                assert(names_view(out@) =~= tys.take(i + 1).flat_map(f));
                i = i + 1;
            }
            assert(tys.take(sd.fields.len() as int) =~= tys);
        },
        None => match spec.get_union(name) {
            Some(ud) => {
                let ghost g = |c: UnionCaseView|
                    match c {
                        UnionCaseView::Void(_) => Seq::empty(),
                        UnionCaseView::Tuple(_, ts) => ts,
                    };
                let ghost cases = ud@.cases;
                let mut i: usize = 0;
                assert(cases.take(0).flat_map(g) =~= Seq::<TypeView>::empty()) by {
                    assert(cases.take(0).map_values(g) =~= Seq::<Seq<TypeView>>::empty());
                }
                assert(Seq::<TypeView>::empty().flat_map(f) =~= Seq::<Seq<char>>::empty()) by {
                    assert(Seq::<TypeView>::empty().map_values(f) =~= Seq::<Seq<Seq<char>>>::empty());
                }
                while i < ud.cases.len()
                    invariant
                        f == (|t: TypeView| udt_refs(t)),
                        g == (|c: UnionCaseView|
                            match c {
                                UnionCaseView::Void(_) => Seq::empty(),
                                UnionCaseView::Tuple(_, ts) => ts,
                            }),
                        cases == ud@.cases,
                        cases.len() == ud.cases.len(),
                        i <= ud.cases.len(),
                        names_view(out@) == cases.take(i as int).flat_map(g).flat_map(f),
                    decreases ud.cases.len() - i,
                {
                    let ghost before = names_view(out@);
                    match &ud.cases[i] {
                        UnionCase::Void(_) => {},
                        UnionCase::Tuple(_, ts) => {
                            collect_udt_refs_all(ts, &mut out);
                        },
                    }
                    proof {
                        cases.lemma_flat_map_take_append(g, i as int);
                        lemma_flat_map_add(cases.take(i as int).flat_map(g), g(cases[i as int]), f);
                        if g(cases[i as int]).len() == 0 {
                            assert(g(cases[i as int]).flat_map(f) =~= Seq::<Seq<char>>::empty()) by {
                                assert(g(cases[i as int]).map_values(f) =~= Seq::<Seq<Seq<char>>>::empty());
                            }
                        }
                    }
                    assert(names_view(out@) =~= cases.take(i + 1).flat_map(g).flat_map(f));
                    i = i + 1;
                }
                assert(cases.take(ud.cases.len() as int) =~= cases);
            },
            None => {
                assert(names_view(out@) =~= Seq::<Seq<char>>::empty());
                assert(Seq::<TypeView>::empty().flat_map(f) =~= Seq::<Seq<char>>::empty()) by {
                    assert(Seq::<TypeView>::empty().map_values(f) =~= Seq::<Seq<Seq<char>>>::empty());
                }
            },
        },
    }
    out
}

// ---------------------------------------------------------------------------
// Transitive dependencies between user-defined types
// ---------------------------------------------------------------------------

/// `p` is a chain of user-defined type names in which each name is referenced
/// by a member of the name before it.
pub open spec fn is_ref_chain(spec: ContractSpecView, p: Seq<Seq<char>>) -> bool {
    &&& p.len() >= 1
    &&& forall|k: int| 0 <= k < p.len() - 1 ==> #[trigger] member_refs(spec, p[k]).contains(p[k + 1])
}

/// `t` depends on the user-defined type `n`: `n` occurs in `t`, or in a
/// member of a user-defined type that `t` depends on.
pub open spec fn depends_on(spec: ContractSpecView, t: TypeView, n: Seq<char>) -> bool {
    exists|p: Seq<Seq<char>>| #[trigger] is_ref_chain(spec, p) && udt_refs(t).contains(p[0]) && p.last() == n
}

/// Every reference made by a member of any struct or union of the spec.
pub open spec fn all_member_refs(spec: ContractSpecView) -> Seq<Seq<char>> {
    spec.structs.flat_map(|s: crate::model::StructView| refs_of_types(struct_field_types(s)))
        + spec.unions.flat_map(|u: crate::model::UnionView| refs_of_types(union_case_types(u.cases)))
}

proof fn lemma_member_refs_in_all(spec: ContractSpecView, n: Seq<char>, x: Seq<char>)
    requires
        member_refs(spec, n).contains(x),
    ensures
        all_member_refs(spec).contains(x),
{
    let fs = |s: crate::model::StructView| refs_of_types(struct_field_types(s));
    let fu = |u: crate::model::UnionView| refs_of_types(union_case_types(u.cases));
    let a = spec.structs.flat_map(fs);
    let b = spec.unions.flat_map(fu);
    if spec.struct_def(n) is Some {
        let names = crate::contract::struct_names(spec.structs);
        let i = names.index_of(n);
        assert(spec.struct_def(n) == Some(spec.structs[i]));
        lemma_flat_map_contains(spec.structs, fs, i, x);
        let k = choose|k: int| 0 <= k < a.len() && a[k] == x;
        assert((a + b)[k] == x);
    } else if spec.union_def(n) is Some {
        let names = crate::contract::union_names(spec.unions);
        let i = names.index_of(n);
        assert(spec.union_def(n) == Some(spec.unions[i]));
        lemma_flat_map_contains(spec.unions, fu, i, x);
        let k = choose|k: int| 0 <= k < b.len() && b[k] == x;
        assert((a + b)[a.len() + k] == x);
    } else {
        assert(member_types(spec, n) =~= Seq::<TypeView>::empty());
        assert(Seq::<TypeView>::empty().map_values(|t: TypeView| udt_refs(t)) =~= Seq::<Seq<Seq<char>>>::empty());
        assert(member_refs(spec, n) =~= Seq::<Seq<char>>::empty());
    }
}

/// The elements of `s.push(x)` are those of `s` and `x`.
pub proof fn lemma_push_contains<A>(s: Seq<A>, x: A)
    ensures
        forall|z: A| #[trigger] s.push(x).contains(z) <==> (s.contains(z) || z == x),
{
    assert forall|z: A| #[trigger] s.push(x).contains(z) <==> (s.contains(z) || z == x) by {
        if s.contains(z) {
            let j = choose|j: int| 0 <= j < s.len() && s[j] == z;
            assert(s.push(x)[j] == z);
        }
        if z == x {
            assert(s.push(x)[s.len() as int] == z);
        }
        if s.push(x).contains(z) {
            let j = choose|j: int| 0 <= j < s.push(x).len() && s.push(x)[j] == z;
            if j < s.len() {
                assert(s[j] == z);
            }
        }
    }
}

/// A sequence without duplicates, all of whose elements occur in `b`, is no longer than `b`.
pub proof fn lemma_distinct_subset_len<A>(a: Seq<A>, b: Seq<A>)
    requires
        a.no_duplicates(),
        forall|x: A| a.contains(x) ==> b.contains(x),
    ensures
        a.len() <= b.len(),
{
    broadcast use vstd::seq_lib::seq_to_set_is_finite;

    a.unique_seq_to_set();
    b.lemma_cardinality_of_set();
    assert(a.to_set().subset_of(b.to_set()));
    vstd::set_lib::lemma_len_subset(a.to_set(), b.to_set());
}

/// A set of names closed under member references holds every name of a
/// chain whose first name it holds.
proof fn lemma_chain_closed(spec: ContractSpecView, p: Seq<Seq<char>>, found: Seq<Seq<char>>)
    requires
        is_ref_chain(spec, p),
        found.contains(p[0]),
        forall|x: Seq<char>, y: Seq<char>|
            found.contains(x) && #[trigger] member_refs(spec, x).contains(y) ==> found.contains(y),
    ensures
        found.contains(p.last()),
    decreases p.len(),
{
    if p.len() > 1 {
        let q = p.drop_last();
        assert(is_ref_chain(spec, q)) by {
            assert forall|k: int| 0 <= k < q.len() - 1 implies #[trigger] member_refs(spec, q[k]).contains(q[k + 1]) by {
                assert(member_refs(spec, p[k]).contains(p[k + 1]));
            }
        }
        lemma_chain_closed(spec, q, found);
        let k = p.len() - 2;
        assert(member_refs(spec, p[k]).contains(p[k + 1]));
        assert(q.last() == p[k]);
    }
}

/// Extending a chain to a reference of its last name.
proof fn lemma_chain_extend(spec: ContractSpecView, t: TypeView, p: Seq<Seq<char>>, y: Seq<char>)
    requires
        is_ref_chain(spec, p),
        udt_refs(t).contains(p[0]),
        member_refs(spec, p.last()).contains(y),
    ensures
        depends_on(spec, t, y),
{
    let q = p.push(y);
    assert(q[0] == p[0]);
    assert forall|k: int| 0 <= k < q.len() - 1 implies #[trigger] member_refs(spec, q[k]).contains(q[k + 1]) by {
        if k < p.len() - 1 {
            assert(q[k] == p[k] && q[k + 1] == p[k + 1]);
        } else {
            assert(q[k] == p.last() && q[k + 1] == y);
        }
    }
    assert(is_ref_chain(spec, q));
}

/// The user-defined types that `t` depends on, each once.
pub fn udt_dependencies(spec: &ContractSpec, t: &TypeDef) -> (r: Vec<String>)
    requires
        spec@.wf(),
    ensures
        names_view(r@).no_duplicates(),
        forall|n: Seq<char>| names_view(r@).contains(n) <==> depends_on(spec@, t@, n),
{
    let mut refs: Vec<String> = Vec::new();
    collect_udt_refs(t, &mut refs);
    assert(names_view(refs@) =~= udt_refs(t@));
    let ghost universe = udt_refs(t@) + all_member_refs(spec@);
    let mut found: Vec<String> = Vec::new();
    let mut k: usize = 0;
    while k < refs.len()
        invariant
            names_view(refs@) == udt_refs(t@),
            k <= refs.len(),
            names_view(found@).no_duplicates(),
            forall|n: Seq<char>| names_view(found@).contains(n) ==> #[trigger] udt_refs(t@).contains(n),
            forall|j: int| 0 <= j < k ==> names_view(found@).contains(#[trigger] udt_refs(t@)[j]),
        decreases refs.len() - k,
    {
        if !contains_name(&found, &refs[k]) {
            let ghost before = names_view(found@);
            found.push(refs[k].clone());
            assert(names_view(found@) =~= before.push(refs@[k as int]@));
            assert(udt_refs(t@)[k as int] == refs@[k as int]@);
            proof {
                lemma_push_contains(before, refs@[k as int]@);
                assert(udt_refs(t@).contains(refs@[k as int]@));
            }
        }
        assert(names_view(found@).contains(udt_refs(t@)[k as int])) by {
            assert(udt_refs(t@)[k as int] == refs@[k as int]@);
        }
        k = k + 1;
    }
    assert forall|n: Seq<char>| #[trigger] names_view(found@).contains(n) implies depends_on(spec@, t@, n) by {
        let p = seq![n];
        assert(is_ref_chain(spec@, p));
    }
    assert forall|n: Seq<char>| #[trigger] names_view(found@).contains(n) implies universe.contains(n) by {
        assert(udt_refs(t@).contains(n));
        let j = choose|j: int| 0 <= j < udt_refs(t@).len() && udt_refs(t@)[j] == n;
        assert(universe[j] == n);
    }
    let mut i: usize = 0;
    while i < found.len()
        invariant
            spec@.wf(),
            names_view(found@).no_duplicates(),
            i <= found.len(),
            forall|n: Seq<char>| #[trigger] names_view(found@).contains(n) ==> depends_on(spec@, t@, n),
            forall|n: Seq<char>| #[trigger] names_view(found@).contains(n) ==> universe.contains(n),
            forall|j: int| 0 <= j < udt_refs(t@).len() ==> names_view(found@).contains(#[trigger] udt_refs(t@)[j]),
            forall|j: int, y: Seq<char>|
                0 <= j < i && #[trigger] member_refs(spec@, found@[j]@).contains(y) ==> names_view(found@).contains(y),
            universe == udt_refs(t@) + all_member_refs(spec@),
        decreases 2 * universe.len() - found.len() - i,
    {
        proof {
            lemma_distinct_subset_len(names_view(found@), universe);
        }
        let ghost cur = found@[i as int]@;
        let mrefs = member_refs_of(spec, &found[i]);
        let mut m: usize = 0;
        let ghost len_before = found.len();
        while m < mrefs.len()
            invariant
                spec@.wf(),
                names_view(mrefs@) == member_refs(spec@, cur),
                i < found.len(),
                len_before <= found.len(),
                found@[i as int]@ == cur,
                m <= mrefs.len(),
                names_view(found@).no_duplicates(),
                forall|n: Seq<char>| #[trigger] names_view(found@).contains(n) ==> depends_on(spec@, t@, n),
                forall|n: Seq<char>| #[trigger] names_view(found@).contains(n) ==> universe.contains(n),
                forall|j: int| 0 <= j < udt_refs(t@).len() ==> names_view(found@).contains(#[trigger] udt_refs(t@)[j]),
                forall|j: int, y: Seq<char>|
                    0 <= j < i && #[trigger] member_refs(spec@, found@[j]@).contains(y) ==> names_view(found@).contains(y),
                forall|q: int| 0 <= q < m ==> names_view(found@).contains(#[trigger] member_refs(spec@, cur)[q]),
                universe == udt_refs(t@) + all_member_refs(spec@),
            decreases mrefs.len() - m,
        {
            let ghost y = mrefs@[m as int]@;
            assert(member_refs(spec@, cur)[m as int] == y);
            if !contains_name(&found, &mrefs[m]) {
                let ghost before = found@;
                found.push(mrefs[m].clone());
                assert(names_view(found@) =~= names_view(before).push(y));
                proof {
                    lemma_push_contains(names_view(before), y);
                    assert(names_view(before).contains(cur)) by {
                        assert(names_view(before)[i as int] == cur);
                    }
                    let p = choose|p: Seq<Seq<char>>| #[trigger] is_ref_chain(spec@, p) && udt_refs(t@).contains(p[0]) && p.last() == cur;
                    assert(member_refs(spec@, cur).contains(y));
                    lemma_chain_extend(spec@, t@, p, y);
                    lemma_member_refs_in_all(spec@, cur, y);
                    let kk = choose|kk: int| 0 <= kk < all_member_refs(spec@).len() && all_member_refs(spec@)[kk] == y;
                    assert(universe[udt_refs(t@).len() + kk] == y);
                    assert forall|j: int, z: Seq<char>|
                        0 <= j < i && #[trigger] member_refs(spec@, found@[j]@).contains(z) implies names_view(found@).contains(z) by {
                        assert(found@[j] == before[j]);
                        assert(names_view(before).contains(z));
                        let w = choose|w: int| 0 <= w < names_view(before).len() && names_view(before)[w] == z;
                        assert(names_view(found@)[w] == z);
                    }
                }
            }
            m = m + 1;
        }
        assert forall|y: Seq<char>| #[trigger] member_refs(spec@, cur).contains(y) implies names_view(found@).contains(y) by {
            let q = choose|q: int| 0 <= q < member_refs(spec@, cur).len() && member_refs(spec@, cur)[q] == y;
        }
        proof {
            lemma_distinct_subset_len(names_view(found@), universe);
        }
        i = i + 1;
    }
    proof {
        let fv = names_view(found@);
        assert forall|x: Seq<char>, y: Seq<char>|
            fv.contains(x) && #[trigger] member_refs(spec@, x).contains(y) implies fv.contains(y) by {
            let j = choose|j: int| 0 <= j < fv.len() && fv[j] == x;
            assert(found@[j]@ == x);
        }
        assert forall|n: Seq<char>| depends_on(spec@, t@, n) implies #[trigger] fv.contains(n) by {
            let p = choose|p: Seq<Seq<char>>| #[trigger] is_ref_chain(spec@, p) && udt_refs(t@).contains(p[0]) && p.last() == n;
            let j = choose|j: int| 0 <= j < udt_refs(t@).len() && udt_refs(t@)[j] == p[0];
            lemma_chain_closed(spec@, p, fv);
        }
    }
    found
}

// ---------------------------------------------------------------------------
// Reverse dependencies
// ---------------------------------------------------------------------------

/// The member types of every struct and union, each paired with the name of
/// the type that owns it: struct fields first, then union case values.
pub open spec fn owned_member_types(spec: ContractSpecView) -> Seq<(Seq<char>, TypeView)> {
    spec.structs.flat_map(|s: crate::model::StructView| struct_owned(s)) + spec.unions.flat_map(
        |u: crate::model::UnionView| union_owned(u),
    )
}

/// The field types of a struct, each paired with the struct's name.
pub open spec fn struct_owned(s: crate::model::StructView) -> Seq<(Seq<char>, TypeView)> {
    struct_field_types(s).map_values(|t: TypeView| (s.name, t))
}

/// The case value types of a union, each paired with the union's name.
pub open spec fn union_owned(u: crate::model::UnionView) -> Seq<(Seq<char>, TypeView)> {
    union_case_types(u.cases).map_values(|t: TypeView| (u.name, t))
}

/// `owner` is a struct or union of the spec with a member type that depends on `d`.
pub open spec fn is_dependent(spec: ContractSpecView, d: Seq<char>, owner: Seq<char>) -> bool {
    exists|k: int|
        0 <= k < owned_member_types(spec).len() && #[trigger] owned_member_types(spec)[k].0 == owner
            && depends_on(spec, owned_member_types(spec)[k].1, d)
}

/// Names in strictly increasing lexicographic order.
pub open spec fn sorted_names(s: Seq<Seq<char>>) -> bool {
    forall|a: int, b: int| 0 <= a < b < s.len() ==> str_lt(#[trigger] s[a], #[trigger] s[b])
}

/// The types that depend on one user-defined type.
pub struct Dependents {
    pub dependency: String,
    pub dependents: Vec<String>,
}

impl View for Dependents {
    type V = (Seq<char>, Seq<Seq<char>>);

    open spec fn view(&self) -> (Seq<char>, Seq<Seq<char>>) {
        (self.dependency@, names_view(self.dependents@))
    }
}

/// For each user-defined type, the types that embed it, sorted by name.
pub struct ReverseDependencies {
    pub entries: Vec<Dependents>,
}

/// `rev` records `owner` as a dependent of `d`.
pub open spec fn rev_has(rev: Seq<(Seq<char>, Seq<Seq<char>>)>, d: Seq<char>, owner: Seq<char>) -> bool {
    exists|k: int| 0 <= k < rev.len() && #[trigger] rev[k].0 == d && rev[k].1.contains(owner)
}

/// The dependents that `rev` records for `d` (none if `d` has no entry).
pub open spec fn rev_lookup(rev: Seq<(Seq<char>, Seq<Seq<char>>)>, d: Seq<char>) -> Seq<Seq<char>> {
    let keys = rev.map_values(|e: (Seq<char>, Seq<Seq<char>>)| e.0);
    if keys.contains(d) {
        rev[keys.index_of(d)].1
    } else {
        Seq::empty()
    }
}

/// Keys are distinct; every list of dependents is non-empty and sorted.
pub open spec fn rev_wf(rev: Seq<(Seq<char>, Seq<Seq<char>>)>) -> bool {
    &&& rev.map_values(|e: (Seq<char>, Seq<Seq<char>>)| e.0).no_duplicates()
    &&& forall|k: int|
        0 <= k < rev.len() ==> sorted_names((#[trigger] rev[k]).1) && rev[k].1.len() > 0
}

pub open spec fn entries_view(v: Seq<Dependents>) -> Seq<(Seq<char>, Seq<Seq<char>>)> {
    v.map_values(|e: Dependents| e@)
}

impl ReverseDependencies {
    pub open spec fn view_entries(&self) -> Seq<(Seq<char>, Seq<Seq<char>>)> {
        entries_view(self.entries@)
    }

    /// Keys are distinct; every list of dependents is non-empty and sorted.
    pub open spec fn wf(&self) -> bool {
        rev_wf(self.view_entries())
    }

    /// The recorded dependents of the type named `name`, if any.
    pub fn get(&self, name: &String) -> (r: Option<&Vec<String>>)
        requires
            self.wf(),
        ensures
            match r {
                Some(v) => names_view(v@) == rev_lookup(self.view_entries(), name@) && v@.len() > 0,
                None => rev_lookup(self.view_entries(), name@) == Seq::<Seq<char>>::empty(),
            },
    {
        let ghost keys = self.view_entries().map_values(|e: (Seq<char>, Seq<Seq<char>>)| e.0);
        let mut i: usize = 0;
        while i < self.entries.len()
            invariant
                self.wf(),
                keys == self.view_entries().map_values(|e: (Seq<char>, Seq<Seq<char>>)| e.0),
                keys.len() == self.entries.len(),
                keys.no_duplicates(),
                i <= self.entries.len(),
                forall|j: int| 0 <= j < i ==> keys[j] != name@,
            decreases self.entries.len() - i,
        {
            if self.entries[i].dependency == *name {
                proof {
                    crate::contract::lemma_index_of_unique(keys, i as int);
                    assert(self.view_entries()[i as int].1.len() > 0);
                }
                return Some(&self.entries[i].dependents);
            }
            i = i + 1;
        }
        assert(!keys.contains(name@));
        None
    }
}

/// Inserts `x` into a strictly sorted list of names, keeping it sorted and
/// leaving it unchanged when `x` is already present.
fn insert_sorted(v: &mut Vec<String>, x: String)
    requires
        sorted_names(names_view(old(v)@)),
    ensures
        sorted_names(names_view(final(v)@)),
        forall|z: Seq<char>| #[trigger] names_view(final(v)@).contains(z) <==> (names_view(old(v)@).contains(z) || z == x@),
{
    let ghost old_names = names_view(v@);
    let mut p: usize = 0;
    while p < v.len() && str_less(&v[p], &x)
        invariant
            names_view(v@) == old_names,
            p <= v.len(),
            forall|a: int| 0 <= a < p ==> str_lt(#[trigger] old_names[a], x@),
        decreases v.len() - p,
    {
        p = p + 1;
    }
    if p < v.len() && v[p] == x {
        assert(old_names[p as int] == x@);
        return;
    }
    proof {
        if p < v.len() {
            crate::text::lemma_str_lt_total(old_names[p as int], x@);
            assert(str_lt(x@, old_names[p as int]));
            assert forall|a: int| p <= a < old_names.len() implies str_lt(x@, #[trigger] old_names[a]) by {
                if a > p {
                    crate::text::lemma_str_lt_transitive(x@, old_names[p as int], old_names[a]);
                }
            }
        }
    }
    let ghost xv = x@;
    v.insert(p, x);
    let ghost nv = names_view(v@);
    assert(nv =~= old_names.insert(p as int, xv));
    assert forall|a: int, b: int| 0 <= a < b < nv.len() implies str_lt(#[trigger] nv[a], #[trigger] nv[b]) by {
        if b < p {
        } else if b == p {
        } else if a < p {
            crate::text::lemma_str_lt_transitive(nv[a], xv, nv[b]);
        } else if a == p {
        } else {
        }
    }
    assert forall|z: Seq<char>| #[trigger] nv.contains(z) <==> (old_names.contains(z) || z == xv) by {
        if nv.contains(z) {
            let j = choose|j: int| 0 <= j < nv.len() && nv[j] == z;
            if j < p {
                assert(old_names[j] == z);
            } else if j > p {
                assert(old_names[j - 1] == z);
            }
        }
        if old_names.contains(z) {
            let j = choose|j: int| 0 <= j < old_names.len() && old_names[j] == z;
            if j < p {
                assert(nv[j] == z);
            } else {
                assert(nv[j + 1] == z);
            }
        }
        if z == xv {
            assert(nv[p as int] == z);
        }
    }
}

/// Records `owner` as a dependent of `d`.
fn add_dependent(entries: &mut Vec<Dependents>, d: &String, owner: &String)
    requires
        rev_wf(entries_view(old(entries)@)),
    ensures
        rev_wf(entries_view(final(entries)@)),
        forall|x: Seq<char>, o: Seq<char>|
            #[trigger] rev_has(entries_view(final(entries)@), x, o) <==> (rev_has(
                entries_view(old(entries)@),
                x,
                o,
            ) || (x == d@ && o == owner@)),
{
    let ghost old_rev = entries_view(entries@);
    let ghost keys = old_rev.map_values(|e: (Seq<char>, Seq<Seq<char>>)| e.0);
    let mut i: usize = 0;
    while i < entries.len()
        invariant
            entries@ == old(entries)@,
            old_rev == entries_view(entries@),
            keys == old_rev.map_values(|e: (Seq<char>, Seq<Seq<char>>)| e.0),
            rev_wf(old_rev),
            i <= entries.len(),
            forall|j: int| 0 <= j < i ==> keys[j] != d@,
        decreases entries.len() - i,
    {
        if entries[i].dependency == *d {
            let ghost old_list = old_rev[i as int].1;
            assert(sorted_names(old_rev[i as int].1));
            let mut list = Vec::new();
            std::mem::swap(&mut list, &mut entries[i].dependents);
            insert_sorted(&mut list, owner.clone());
            std::mem::swap(&mut list, &mut entries[i].dependents);
            let ghost new_rev = entries_view(entries@);
            assert(new_rev =~= old_rev.update(i as int, (d@, names_view(entries@[i as int].dependents@))));
            proof {
                let new_list = new_rev[i as int].1;
                assert(new_list.contains(owner@));
                assert(new_list.len() > 0);
                assert(new_rev.map_values(|e: (Seq<char>, Seq<Seq<char>>)| e.0) =~= keys);
                assert forall|x: Seq<char>, o: Seq<char>|
                    #[trigger] rev_has(new_rev, x, o) <==> (rev_has(old_rev, x, o) || (x == d@ && o == owner@)) by {
                    if rev_has(new_rev, x, o) {
                        let k = choose|k: int| 0 <= k < new_rev.len() && #[trigger] new_rev[k].0 == x && new_rev[k].1.contains(o);
                        if k != i {
                            assert(old_rev[k] == new_rev[k]);
                        } else if !(x == d@ && o == owner@) {
                            assert(old_list.contains(o));
                            assert(old_rev[k].0 == x);
                        }
                    }
                    if rev_has(old_rev, x, o) {
                        let k = choose|k: int| 0 <= k < old_rev.len() && #[trigger] old_rev[k].0 == x && old_rev[k].1.contains(o);
                        if k != i {
                            assert(new_rev[k] == old_rev[k]);
                        } else {
                            assert(new_list.contains(o));
                            assert(new_rev[k].0 == x);
                        }
                    }
                    if x == d@ && o == owner@ {
                        assert(new_rev[i as int].0 == x);
                    }
                }
            }
            assert(new_rev == entries_view(entries@));
            assert(old_rev == entries_view(old(entries)@));
            return;
        }
        i = i + 1;
    }
    let mut list = Vec::new();
    list.push(owner.clone());
    let ghost entry_view = (d@, names_view(list@));
    entries.push(Dependents { dependency: d.clone(), dependents: list });
    let ghost new_rev = entries_view(entries@);
    assert(new_rev =~= old_rev.push(entry_view));
    proof {
        assert(!keys.contains(d@));
        let new_keys = new_rev.map_values(|e: (Seq<char>, Seq<Seq<char>>)| e.0);
        assert(new_keys =~= keys.push(d@));
        assert(names_view(list@) =~= seq![owner@]);
        assert(sorted_names(names_view(list@)));
        assert forall|x: Seq<char>, o: Seq<char>|
            #[trigger] rev_has(new_rev, x, o) <==> (rev_has(old_rev, x, o) || (x == d@ && o == owner@)) by {
            if rev_has(new_rev, x, o) {
                let k = choose|k: int| 0 <= k < new_rev.len() && #[trigger] new_rev[k].0 == x && new_rev[k].1.contains(o);
                if k < old_rev.len() {
                    assert(old_rev[k] == new_rev[k]);
                } else {
                    assert(names_view(list@).contains(o));
                }
            }
            if rev_has(old_rev, x, o) {
                let k = choose|k: int| 0 <= k < old_rev.len() && #[trigger] old_rev[k].0 == x && old_rev[k].1.contains(o);
                assert(new_rev[k] == old_rev[k]);
            }
            if x == d@ && o == owner@ {
                assert(new_rev[old_rev.len() as int].0 == x);
                assert(names_view(list@)[0] == o);
            }
        }
    }
}

/// The views of a list of (owner, member type) pairs.
pub open spec fn owned_view(v: Seq<(&String, &TypeDef)>) -> Seq<(Seq<char>, TypeView)> {
    v.map_values(|p: (&String, &TypeDef)| (p.0@, p.1@))
}

/// Every member type of every struct and union, paired with its owner's name.
fn owned_members(spec: &ContractSpec) -> (r: Vec<(&String, &TypeDef)>)
    ensures
        owned_view(r@) == owned_member_types(spec@),
{
    let ghost fs = |s: crate::model::StructView| struct_owned(s);
    let ghost fu = |u: crate::model::UnionView| union_owned(u);
    let ghost sv = spec@.structs;
    let ghost uv = spec@.unions;
    let mut out: Vec<(&String, &TypeDef)> = Vec::new();
    let mut i: usize = 0;
    assert(sv.take(0).flat_map(fs) =~= Seq::<(Seq<char>, TypeView)>::empty()) by {
        assert(sv.take(0).map_values(fs) =~= Seq::<Seq<(Seq<char>, TypeView)>>::empty());
    }
    assert(owned_view(out@) =~= sv.take(0).flat_map(fs));
    while i < spec.structs.len()
        invariant
            fs == (|s: crate::model::StructView| struct_owned(s)),
            sv == spec@.structs,
            sv.len() == spec.structs.len(),
            i <= spec.structs.len(),
            owned_view(out@) == sv.take(i as int).flat_map(fs),
        decreases spec.structs.len() - i,
    {
        let sd = &spec.structs[i];
        let ghost base = owned_view(out@);
        let ghost tys = struct_field_types(sd@);
        let mut j: usize = 0;
        while j < sd.fields.len()
            invariant
                tys == struct_field_types(sd@),
                tys.len() == sd.fields.len(),
                j <= sd.fields.len(),
                owned_view(out@) == base + tys.take(j as int).map_values(|t: TypeView| (sd@.name, t)),
            decreases sd.fields.len() - j,
        {
            let ghost before = out@;
            out.push((&sd.name, &sd.fields[j].type_));
            assert(tys[j as int] == sd.fields@[j as int].type_@);
            assert(owned_view(out@) =~= owned_view(before).push((sd@.name, tys[j as int])));
            assert(tys.take(j + 1) =~= tys.take(j as int).push(tys[j as int]));
            assert(owned_view(out@) =~= base + tys.take(j + 1).map_values(|t: TypeView| (sd@.name, t)));
            j = j + 1;
        }
        assert(tys.take(sd.fields.len() as int) =~= tys);
        proof {
            sv.lemma_flat_map_take_append(fs, i as int);
            assert(sv[i as int] == sd@);
        }
        assert(owned_view(out@) =~= sv.take(i + 1).flat_map(fs));
        i = i + 1;
    }
    assert(sv.take(spec.structs.len() as int) =~= sv);
    let ghost struct_part = sv.flat_map(fs);
    let mut i: usize = 0;
    assert(uv.take(0).flat_map(fu) =~= Seq::<(Seq<char>, TypeView)>::empty()) by {
        assert(uv.take(0).map_values(fu) =~= Seq::<Seq<(Seq<char>, TypeView)>>::empty());
    }
    assert(owned_view(out@) =~= struct_part + uv.take(0).flat_map(fu));
    while i < spec.unions.len()
        invariant
            fu == (|u: crate::model::UnionView| union_owned(u)),
            uv == spec@.unions,
            uv.len() == spec.unions.len(),
            i <= spec.unions.len(),
            owned_view(out@) == struct_part + uv.take(i as int).flat_map(fu),
        decreases spec.unions.len() - i,
    {
        let ud = &spec.unions[i];
        let ghost base = owned_view(out@);
        let ghost g = |c: UnionCaseView|
            match c {
                UnionCaseView::Void(_) => Seq::empty(),
                UnionCaseView::Tuple(_, ts) => ts,
            };
        let ghost cases = ud@.cases;
        let ghost name = ud@.name;
        let ghost h = |t: TypeView| (name, t);
        let mut c: usize = 0;
        assert(cases.take(0).flat_map(g) =~= Seq::<TypeView>::empty()) by {
            assert(cases.take(0).map_values(g) =~= Seq::<Seq<TypeView>>::empty());
        }
        assert(owned_view(out@) =~= base + cases.take(0).flat_map(g).map_values(h));
        while c < ud.cases.len()
            invariant
                g == (|c: UnionCaseView|
                    match c {
                        UnionCaseView::Void(_) => Seq::empty(),
                        UnionCaseView::Tuple(_, ts) => ts,
                    }),
                h == (|t: TypeView| (name, t)),
                name == ud@.name,
                cases == ud@.cases,
                cases.len() == ud.cases.len(),
                c <= ud.cases.len(),
                owned_view(out@) == base + cases.take(c as int).flat_map(g).map_values(h),
            decreases ud.cases.len() - c,
        {
            let ghost before = owned_view(out@);
            match &ud.cases[c] {
                UnionCase::Void(_) => {
                    assert(g(cases[c as int]) =~= Seq::<TypeView>::empty());
                },
                UnionCase::Tuple(_, ts) => {
                    let ghost tv = ts@.map_values(|t: TypeDef| t@);
                    assert(g(cases[c as int]) == tv);
                    let mut j: usize = 0;
                    while j < ts.len()
                        invariant
                            h == (|t: TypeView| (name, t)),
                            name == ud@.name,
                            tv == ts@.map_values(|t: TypeDef| t@),
                            j <= ts.len(),
                            owned_view(out@) == before + tv.take(j as int).map_values(h),
                        decreases ts.len() - j,
                    {
                        let ghost prev = out@;
                        out.push((&ud.name, &ts[j]));
                        assert(owned_view(out@) =~= owned_view(prev).push((name, tv[j as int])));
                        assert(tv.take(j + 1) =~= tv.take(j as int).push(tv[j as int]));
                        assert(owned_view(out@) =~= before + tv.take(j + 1).map_values(h));
                        j = j + 1;
                    }
                    assert(tv.take(ts.len() as int) =~= tv);
                },
            }
            proof {
                cases.lemma_flat_map_take_append(g, c as int);
                let a = cases.take(c as int).flat_map(g);
                let b = g(cases[c as int]);
                assert((a + b).map_values(h) =~= a.map_values(h) + b.map_values(h));
            }
            assert(owned_view(out@) =~= base + cases.take(c + 1).flat_map(g).map_values(h));
            c = c + 1;
        }
        assert(cases.take(ud.cases.len() as int) =~= cases);
        proof {
            uv.lemma_flat_map_take_append(fu, i as int);
            assert(uv[i as int] == ud@);
            assert(union_owned(ud@) =~= cases.flat_map(g).map_values(h));
        }
        assert(owned_view(out@) =~= struct_part + uv.take(i + 1).flat_map(fu));
        i = i + 1;
    }
    assert(uv.take(spec.unions.len() as int) =~= uv);
    out
}

/// Maps each user-defined type to the structs and unions whose members
/// depend on it, directly or through other types.
pub fn reverse_dependencies(spec: &ContractSpec) -> (r: ReverseDependencies)
    requires
        spec@.wf(),
    ensures
        r.wf(),
        forall|d: Seq<char>, o: Seq<char>| #[trigger] rev_has(r.view_entries(), d, o) <==> is_dependent(spec@, d, o),
{
    let owned = owned_members(spec);
    let ghost ow = owned_member_types(spec@);
    let mut entries: Vec<Dependents> = Vec::new();
    let mut k: usize = 0;
    assert(entries_view(entries@) =~= Seq::<(Seq<char>, Seq<Seq<char>>)>::empty());
    while k < owned.len()
        invariant
            spec@.wf(),
            owned_view(owned@) == ow,
            ow == owned_member_types(spec@),
            ow.len() == owned.len(),
            k <= owned.len(),
            rev_wf(entries_view(entries@)),
            forall|d: Seq<char>, o: Seq<char>| #[trigger] rev_has(entries_view(entries@), d, o) <==>
                exists|kk: int| 0 <= kk < k && #[trigger] ow[kk].0 == o && depends_on(spec@, ow[kk].1, d),
        decreases owned.len() - k,
    {
        let (owner, ty) = owned[k];
        assert(ow[k as int] == (owner@, ty@));
        let deps = udt_dependencies(spec, ty);
        let mut m: usize = 0;
        while m < deps.len()
            invariant
                spec@.wf(),
                ow == owned_member_types(spec@),
                k < ow.len(),
                ow[k as int] == (owner@, ty@),
                m <= deps.len(),
                forall|n: Seq<char>| names_view(deps@).contains(n) <==> depends_on(spec@, ty@, n),
                rev_wf(entries_view(entries@)),
                forall|d: Seq<char>, o: Seq<char>| #[trigger] rev_has(entries_view(entries@), d, o) <==>
                    ((exists|kk: int| 0 <= kk < k && #[trigger] ow[kk].0 == o && depends_on(spec@, ow[kk].1, d))
                    || (o == owner@ && names_view(deps@).take(m as int).contains(d))),
            decreases deps.len() - m,
        {
            add_dependent(&mut entries, &deps[m], owner);
            proof {
                let pre = names_view(deps@).take(m as int);
                assert(names_view(deps@).take(m + 1) =~= pre.push(deps@[m as int]@));
                lemma_push_contains(pre, deps@[m as int]@);
            }
            m = m + 1;
        }
        proof {
            assert(names_view(deps@).take(deps.len() as int) =~= names_view(deps@));
            assert forall|d: Seq<char>, o: Seq<char>| #[trigger] rev_has(entries_view(entries@), d, o) <==>
                exists|kk: int| 0 <= kk < k + 1 && #[trigger] ow[kk].0 == o && depends_on(spec@, ow[kk].1, d) by {
                if o == owner@ && depends_on(spec@, ty@, d) {
                    assert(ow[k as int].0 == o);
                }
                if exists|kk: int| 0 <= kk < k + 1 && #[trigger] ow[kk].0 == o && depends_on(spec@, ow[kk].1, d) {
                    let kk = choose|kk: int| 0 <= kk < k + 1 && #[trigger] ow[kk].0 == o && depends_on(spec@, ow[kk].1, d);
                    if kk == k {
                        assert(names_view(deps@).contains(d));
                    }
                }
            }
        }
        k = k + 1;
    }
    ReverseDependencies { entries }
}

/// Rev lookup and rev_has agree on a well-formed map.
pub proof fn lemma_rev_lookup(rev: Seq<(Seq<char>, Seq<Seq<char>>)>, d: Seq<char>, o: Seq<char>)
    requires
        rev_wf(rev),
    ensures
        rev_lookup(rev, d).contains(o) <==> rev_has(rev, d, o),
{
    let keys = rev.map_values(|e: (Seq<char>, Seq<Seq<char>>)| e.0);
    if rev_has(rev, d, o) {
        let k = choose|k: int| 0 <= k < rev.len() && #[trigger] rev[k].0 == d && rev[k].1.contains(o);
        assert(keys[k] == d);
        crate::contract::lemma_index_of_unique(keys, k);
    }
    if rev_lookup(rev, d).contains(o) {
        assert(keys.contains(d));
        let k = keys.index_of(d);
        assert(rev[k].0 == d);
    }
}

/// Finds the user-defined types a type depends on, and the reverse relation,
/// over one contract interface.
pub struct LayoutMapper<'a> {
    spec: &'a ContractSpec,
}

impl<'a> View for LayoutMapper<'a> {
    type V = ContractSpecView;

    closed spec fn view(&self) -> ContractSpecView {
        self.spec@
    }
}

impl<'a> LayoutMapper<'a> {
    pub fn new(spec: &'a ContractSpec) -> (r: Self)
        ensures
            r@ == spec@,
    {
        LayoutMapper { spec }
    }

    /// All user-defined type names that `type_def` depends on, directly or
    /// through the members of the structs and unions it names; each once.
    pub fn get_udt_dependencies(&self, type_def: &TypeDef) -> (r: Vec<String>)
        requires
            self@.wf(),
        ensures
            names_view(r@).no_duplicates(),
            forall|n: Seq<char>| names_view(r@).contains(n) <==> depends_on(self@, type_def@, n),
    {
        udt_dependencies(self.spec, type_def)
    }

    /// For each user-defined type, the structs and unions that depend on it,
    /// sorted by name.
    pub fn build_reverse_dependencies(&self) -> (r: ReverseDependencies)
        requires
            self@.wf(),
        ensures
            r.wf(),
            forall|d: Seq<char>, o: Seq<char>| #[trigger] rev_has(r.view_entries(), d, o) <==> is_dependent(self@, d, o),
    {
        reverse_dependencies(self.spec)
    }
}

} // verus!
