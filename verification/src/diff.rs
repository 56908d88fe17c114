use vstd::prelude::*;

use crate::contract::{ContractSpec, ContractSpecView};
use crate::finding::{DiffReport, Finding, FindingView, Severity, cascading_break, cascading_break_finding, case_added, case_added_finding, case_removed, case_removed_finding, case_value_changed, case_value_changed_finding, count_severity, enum_added, enum_added_finding, enum_removed, enum_removed_finding, field_added, field_added_finding, field_removed, field_removed_finding, field_reordered, field_reordered_finding, field_type_changed, field_type_changed_finding, findings_view, function_added, function_added_finding, function_removed, function_removed_finding, param_count_changed, param_count_changed_finding, param_renamed, param_renamed_finding, param_type_changed, param_type_changed_finding, return_count_changed, return_count_changed_finding, return_type_changed, return_type_changed_finding, struct_added, struct_added_finding, struct_removed, struct_removed_finding};
use crate::model::{types_equal, EnumCase, EnumCaseView, EnumDef, EnumView, FunctionDef, FunctionInputView, FunctionView, StructDef, StructField, StructFieldView, StructView, TypeView};
use crate::mapper::{
    lemma_distinct_subset_len, lemma_push_contains, lemma_rev_lookup, owned_member_types, depends_on,
    is_dependent, rev_has, rev_lookup, rev_wf, LayoutMapper,
};
use crate::text::{contains_name, is_event_name, names_view};

verus! {

// ---------------------------------------------------------------------------
// Functions
// ---------------------------------------------------------------------------

/// Findings for the parameters at positions `0..n` of two parameter lists of
/// equal length: a renamed parameter, then a changed parameter type.
pub open spec fn param_findings(
    name: Seq<char>,
    a: Seq<FunctionInputView>,
    b: Seq<FunctionInputView>,
    n: nat,
) -> Seq<FindingView>
    decreases n,
{
    if n == 0 {
        Seq::empty()
    } else {
        let i = (n - 1) as nat;
        param_findings(name, a, b, i) + (if a[i as int].name != b[i as int].name {
            seq![param_renamed_finding(name, i, a[i as int].name, b[i as int].name)]
        } else {
            Seq::empty()
        }) + (if a[i as int].ty != b[i as int].ty {
            seq![param_type_changed_finding(name, i, a[i as int].name, a[i as int].ty, b[i as int].ty)]
        } else {
            Seq::empty()
        })
    }
}

/// Findings for the return types at positions `0..n` of two return lists of
/// equal length.
pub open spec fn return_findings(name: Seq<char>, a: Seq<TypeView>, b: Seq<TypeView>, n: nat) -> Seq<
    FindingView,
>
    decreases n,
{
    if n == 0 {
        Seq::empty()
    } else {
        let i = (n - 1) as nat;
        return_findings(name, a, b, i) + (if a[i as int] != b[i as int] {
            seq![return_type_changed_finding(name, i, a[i as int], b[i as int])]
        } else {
            Seq::empty()
        })
    }
}

/// Findings for two versions of the function `name`. When the parameter
/// count differs nothing else is compared.
pub open spec fn signature_findings(name: Seq<char>, f: FunctionView, g: FunctionView) -> Seq<FindingView> {
    if f.inputs.len() != g.inputs.len() {
        seq![param_count_changed_finding(name, f.inputs.len(), g.inputs.len())]
    } else {
        param_findings(name, f.inputs, g.inputs, f.inputs.len()) + (if f.outputs.len() != g.outputs.len() {
            seq![return_count_changed_finding(name, f.outputs.len(), g.outputs.len())]
        } else {
            return_findings(name, f.outputs, g.outputs, f.outputs.len())
        })
    }
}

/// Findings for one function of the old interface.
pub open spec fn old_function_findings(f: FunctionView, new: ContractSpecView) -> Seq<FindingView> {
    match new.function(f.name) {
        None => seq![function_removed_finding(f.name)],
        Some(g) => signature_findings(f.name, f, g),
    }
}

/// Findings for the first `n` functions of the old interface.
pub open spec fn removed_or_changed_functions(fs: Seq<FunctionView>, new: ContractSpecView, n: nat) -> Seq<
    FindingView,
>
    decreases n,
{
    if n == 0 {
        Seq::empty()
    } else {
        removed_or_changed_functions(fs, new, (n - 1) as nat) + old_function_findings(fs[n - 1], new)
    }
}

/// Findings for the first `n` functions of the new interface that the old one lacks.
pub open spec fn added_functions(fs: Seq<FunctionView>, old: ContractSpecView, n: nat) -> Seq<FindingView>
    decreases n,
{
    if n == 0 {
        Seq::empty()
    } else {
        added_functions(fs, old, (n - 1) as nat) + (if old.function(fs[n - 1].name) is None {
            seq![function_added_finding(fs[n - 1].name)]
        } else {
            Seq::empty()
        })
    }
}

/// All findings about functions.
pub open spec fn function_findings(old: ContractSpecView, new: ContractSpecView) -> Seq<FindingView> {
    removed_or_changed_functions(old.functions, new, old.functions.len()) + added_functions(
        new.functions,
        old,
        new.functions.len(),
    )
}

/// Compares the signatures of two functions with the same name.
fn check_function_signature(name: &String, old_fn: &FunctionDef, new_fn: &FunctionDef, report: &mut DiffReport)
    ensures
        final(report)@ == old(report)@ + signature_findings(name@, old_fn@, new_fn@),
{
    let ghost start = report@;
    let ghost f = old_fn@;
    let ghost g = new_fn@;
    let n_in = old_fn.inputs.len();
    if n_in != new_fn.inputs.len() {
        report.add(param_count_changed(name, n_in as u64, new_fn.inputs.len() as u64));
        assert(report@ =~= start + signature_findings(name@, f, g));
        return;
    }
    let mut i: usize = 0;
    while i < n_in
        invariant
            n_in == old_fn.inputs.len(),
            n_in == new_fn.inputs.len(),
            f == old_fn@,
            g == new_fn@,
            i <= n_in,
            report@ == start + param_findings(name@, f.inputs, g.inputs, i as nat),
        decreases n_in - i,
    {
        let a = &old_fn.inputs[i];
        let b = &new_fn.inputs[i];
        assert(f.inputs[i as int] == a@);
        assert(g.inputs[i as int] == b@);
        let ghost before = report@;
        if a.name != b.name {
            report.add(param_renamed(name, i as u64, &a.name, &b.name));
        }
        let ghost mid = report@;
        assert(mid == before + (if f.inputs[i as int].name != g.inputs[i as int].name {
            seq![param_renamed_finding(name@, i as nat, f.inputs[i as int].name, g.inputs[i as int].name)]
        } else {
            Seq::<FindingView>::empty()
        })) by {
            if a.name@ != b.name@ {
                assert(mid =~= before + seq![param_renamed_finding(name@, i as nat, a.name@, b.name@)]);
            } else {
                assert(mid =~= before + Seq::<FindingView>::empty());
            }
        }
        if !types_equal(&a.type_, &b.type_) {
            report.add(param_type_changed(name, i as u64, &a.name, &a.type_, &b.type_));
        }
        assert(report@ == mid + (if f.inputs[i as int].ty != g.inputs[i as int].ty {
            seq![param_type_changed_finding(name@, i as nat, f.inputs[i as int].name, f.inputs[i as int].ty, g.inputs[i as int].ty)]
        } else {
            Seq::<FindingView>::empty()
        })) by {
            if a.type_@ != b.type_@ {
                assert(report@ =~= mid + seq![param_type_changed_finding(name@, i as nat, a.name@, a.type_@, b.type_@)]);
            } else {
                assert(report@ =~= mid + Seq::<FindingView>::empty());
            }
        }
        i = i + 1;
        assert(report@ =~= start + param_findings(name@, f.inputs, g.inputs, i as nat));
    }
    let ghost after_params = report@;
    let n_out = old_fn.outputs.len();
    if n_out != new_fn.outputs.len() {
        report.add(return_count_changed(name, n_out as u64, new_fn.outputs.len() as u64));
        assert(report@ =~= start + signature_findings(name@, f, g));
        return;
    }
    let mut j: usize = 0;
    assert(after_params =~= after_params + return_findings(name@, f.outputs, g.outputs, 0));
    while j < n_out
        invariant
            n_out == old_fn.outputs.len(),
            n_out == new_fn.outputs.len(),
            f == old_fn@,
            g == new_fn@,
            j <= n_out,
            report@ == after_params + return_findings(name@, f.outputs, g.outputs, j as nat),
        decreases n_out - j,
    {
        let a = &old_fn.outputs[j];
        let b = &new_fn.outputs[j];
        assert(f.outputs[j as int] == a@);
        assert(g.outputs[j as int] == b@);
        let ghost before = report@;
        if !types_equal(a, b) {
            report.add(return_type_changed(name, j as u64, a, b));
        }
        assert(report@ == before + (if f.outputs[j as int] != g.outputs[j as int] {
            seq![return_type_changed_finding(name@, j as nat, f.outputs[j as int], g.outputs[j as int])]
        } else {
            Seq::<FindingView>::empty()
        })) by {
            if a@ != b@ {
                assert(report@ =~= before + seq![return_type_changed_finding(name@, j as nat, a@, b@)]);
            } else {
                assert(report@ =~= before + Seq::<FindingView>::empty());
            }
        }
        j = j + 1;
        assert(report@ =~= after_params + return_findings(name@, f.outputs, g.outputs, j as nat));
    }
    assert(report@ =~= start + signature_findings(name@, f, g));
}

/// Compares the function signatures of two contract interfaces.
fn compare_functions(old_spec: &ContractSpec, new_spec: &ContractSpec, report: &mut DiffReport)
    requires
        old_spec@.wf(),
        new_spec@.wf(),
    ensures
        final(report)@ == old(report)@ + function_findings(old_spec@, new_spec@),
{
    let ghost start = report@;
    let mut i: usize = 0;
    while i < old_spec.functions.len()
        invariant
            old_spec@.wf(),
            new_spec@.wf(),
            i <= old_spec.functions.len(),
            report@ == start + removed_or_changed_functions(old_spec@.functions, new_spec@, i as nat),
        decreases old_spec.functions.len() - i,
    {
        let f = &old_spec.functions[i];
        assert(old_spec@.functions[i as int] == f@);
        let ghost before = report@;
        match new_spec.get_function(&f.name) {
            None => {
                report.add(function_removed(&f.name));
                assert(report@ =~= before + seq![function_removed_finding(f.name@)]);
            },
            Some(g) => {
                check_function_signature(&f.name, f, g, report);
            },
        }
        i = i + 1;
        assert(report@ =~= start + removed_or_changed_functions(old_spec@.functions, new_spec@, i as nat));
    }
    let ghost mid = report@;
    let mut j: usize = 0;
    assert(mid =~= mid + added_functions(new_spec@.functions, old_spec@, 0));
    while j < new_spec.functions.len()
        invariant
            old_spec@.wf(),
            new_spec@.wf(),
            j <= new_spec.functions.len(),
            report@ == mid + added_functions(new_spec@.functions, old_spec@, j as nat),
        decreases new_spec.functions.len() - j,
    {
        let g = &new_spec.functions[j];
        assert(new_spec@.functions[j as int] == g@);
        let ghost before = report@;
        if old_spec.get_function(&g.name).is_none() {
            report.add(function_added(&g.name));
            assert(report@ =~= before + seq![function_added_finding(g.name@)]);
        } else {
            assert(report@ =~= before + Seq::<FindingView>::empty());
        }
        j = j + 1;
        assert(report@ =~= mid + added_functions(new_spec@.functions, old_spec@, j as nat));
    }
    assert(report@ =~= start + function_findings(old_spec@, new_spec@));
}

// ---------------------------------------------------------------------------
// Structs
// ---------------------------------------------------------------------------

pub open spec fn field_names(fs: Seq<StructFieldView>) -> Seq<Seq<char>> {
    fs.map_values(|f: StructFieldView| f.name)
}

/// Findings for the first `n` old fields whose names no new field has.
pub open spec fn removed_fields(
    evt: bool,
    name: Seq<char>,
    a: Seq<StructFieldView>,
    b: Seq<StructFieldView>,
    n: nat,
) -> Seq<FindingView>
    decreases n,
{
    if n == 0 {
        Seq::empty()
    } else {
        removed_fields(evt, name, a, b, (n - 1) as nat) + (if !field_names(b).contains(a[n - 1].name) {
            seq![field_removed_finding(evt, name, a[n - 1].name)]
        } else {
            Seq::empty()
        })
    }
}

/// Findings for the fields at positions `0..n` present in both versions:
/// a different name at the position, then a different type.
pub open spec fn positional_fields(
    evt: bool,
    name: Seq<char>,
    a: Seq<StructFieldView>,
    b: Seq<StructFieldView>,
    n: nat,
) -> Seq<FindingView>
    decreases n,
{
    if n == 0 {
        Seq::empty()
    } else {
        let i = (n - 1) as nat;
        positional_fields(evt, name, a, b, i) + (if a[i as int].name != b[i as int].name {
            seq![field_reordered_finding(evt, name, i, a[i as int].name, b[i as int].name)]
        } else {
            Seq::empty()
        }) + (if a[i as int].ty != b[i as int].ty {
            seq![field_type_changed_finding(evt, name, a[i as int].name, i, a[i as int].ty, b[i as int].ty)]
        } else {
            Seq::empty()
        })
    }
}

/// Findings for the new fields at positions `from..n`.
pub open spec fn appended_fields(name: Seq<char>, b: Seq<StructFieldView>, from: nat, n: nat) -> Seq<
    FindingView,
>
    decreases n,
{
    if n <= from {
        Seq::empty()
    } else {
        appended_fields(name, b, from, (n - 1) as nat) + seq![field_added_finding(name, b[n - 1].name)]
    }
}

/// Findings for two versions of the struct `name`. Fields are stored by
/// position, so removal, reordering and type changes all break the layout.
pub open spec fn struct_field_findings(name: Seq<char>, s: StructView, t: StructView) -> Seq<FindingView> {
    let evt = is_event_name(name);
    let a = s.fields;
    let b = t.fields;
    removed_fields(evt, name, a, b, a.len()) + positional_fields(
        evt,
        name,
        a,
        b,
        if a.len() <= b.len() { a.len() } else { b.len() },
    ) + (if b.len() > a.len() {
        appended_fields(name, b, a.len(), b.len())
    } else {
        Seq::empty()
    })
}

/// Findings for one struct of the old interface.
pub open spec fn old_struct_findings(s: StructView, new: ContractSpecView) -> Seq<FindingView> {
    match new.struct_def(s.name) {
        None => seq![struct_removed_finding(is_event_name(s.name), s.name)],
        Some(t) => struct_field_findings(s.name, s, t),
    }
}

pub open spec fn removed_or_changed_structs(ss: Seq<StructView>, new: ContractSpecView, n: nat) -> Seq<
    FindingView,
>
    decreases n,
{
    if n == 0 {
        Seq::empty()
    } else {
        removed_or_changed_structs(ss, new, (n - 1) as nat) + old_struct_findings(ss[n - 1], new)
    }
}

pub open spec fn added_structs(ss: Seq<StructView>, old: ContractSpecView, n: nat) -> Seq<FindingView>
    decreases n,
{
    if n == 0 {
        Seq::empty()
    } else {
        added_structs(ss, old, (n - 1) as nat) + (if old.struct_def(ss[n - 1].name) is None {
            seq![struct_added_finding(ss[n - 1].name)]
        } else {
            Seq::empty()
        })
    }
}

/// All findings about structs.
pub open spec fn struct_findings(old: ContractSpecView, new: ContractSpecView) -> Seq<FindingView> {
    removed_or_changed_structs(old.structs, new, old.structs.len()) + added_structs(
        new.structs,
        old,
        new.structs.len(),
    )
}

/// Whether `fields` has a field named `n`.
fn has_field(fields: &Vec<StructField>, n: &String) -> (r: bool)
    ensures
        r == field_names(fields@.map_values(|f: StructField| f@)).contains(n@),
{
    let ghost names = field_names(fields@.map_values(|f: StructField| f@));
    let mut i: usize = 0;
    while i < fields.len()
        invariant
            names == field_names(fields@.map_values(|f: StructField| f@)),
            names.len() == fields.len(),
            i <= fields.len(),
            forall|j: int| 0 <= j < i ==> names[j] != n@,
        decreases fields.len() - i,
    {
        if fields[i].name == *n {
            assert(names[i as int] == n@);
            return true;
        }
        i = i + 1;
    }
    false
}

/// Compares the fields of two structs with the same name.
fn check_struct_fields(name: &String, old_struct: &StructDef, new_struct: &StructDef, report: &mut DiffReport)
    ensures
        final(report)@ == old(report)@ + struct_field_findings(name@, old_struct@, new_struct@),
{
    let ghost start = report@;
    let ghost a = old_struct@.fields;
    let ghost b = new_struct@.fields;
    let old_fields = &old_struct.fields;
    let new_fields = &new_struct.fields;
    let is_evt = crate::text::is_event(name);
    let mut i: usize = 0;
    while i < old_fields.len()
        invariant
            a == old_fields@.map_values(|f: StructField| f@),
            b == new_fields@.map_values(|f: StructField| f@),
            is_evt == is_event_name(name@),
            i <= old_fields.len(),
            report@ == start + removed_fields(is_evt, name@, a, b, i as nat),
        decreases old_fields.len() - i,
    {
        let f = &old_fields[i];
        assert(a[i as int] == f@);
        let ghost before = report@;
        if !has_field(new_fields, &f.name) {
            report.add(field_removed(is_evt, name, &f.name));
            assert(report@ =~= before + seq![field_removed_finding(is_evt, name@, f.name@)]);
        } else {
            assert(report@ =~= before + Seq::<FindingView>::empty());
        }
        i = i + 1;
        assert(report@ =~= start + removed_fields(is_evt, name@, a, b, i as nat));
    }
    let ghost after_removed = report@;
    let common = if old_fields.len() <= new_fields.len() { old_fields.len() } else { new_fields.len() };
    let mut i: usize = 0;
    assert(after_removed =~= after_removed + positional_fields(is_evt, name@, a, b, 0));
    while i < common
        invariant
            a == old_fields@.map_values(|f: StructField| f@),
            b == new_fields@.map_values(|f: StructField| f@),
            is_evt == is_event_name(name@),
            common <= old_fields.len(),
            common <= new_fields.len(),
            i <= common,
            report@ == after_removed + positional_fields(is_evt, name@, a, b, i as nat),
        decreases common - i,
    {
        let x = &old_fields[i];
        let y = &new_fields[i];
        assert(a[i as int] == x@);
        assert(b[i as int] == y@);
        let ghost before = report@;
        if x.name != y.name {
            report.add(field_reordered(is_evt, name, i as u64, &x.name, &y.name));
        }
        let ghost mid = report@;
        assert(mid == before + (if a[i as int].name != b[i as int].name {
            seq![field_reordered_finding(is_evt, name@, i as nat, a[i as int].name, b[i as int].name)]
        } else {
            Seq::<FindingView>::empty()
        })) by {
            if x.name@ != y.name@ {
                assert(mid =~= before + seq![field_reordered_finding(is_evt, name@, i as nat, x.name@, y.name@)]);
            } else {
                assert(mid =~= before + Seq::<FindingView>::empty());
            }
        }
        if !types_equal(&x.type_, &y.type_) {
            report.add(field_type_changed(is_evt, name, &x.name, i as u64, &x.type_, &y.type_));
        }
        assert(report@ == mid + (if a[i as int].ty != b[i as int].ty {
            seq![field_type_changed_finding(is_evt, name@, a[i as int].name, i as nat, a[i as int].ty, b[i as int].ty)]
        } else {
            Seq::<FindingView>::empty()
        })) by {
            if x.type_@ != y.type_@ {
                assert(report@ =~= mid + seq![field_type_changed_finding(is_evt, name@, x.name@, i as nat, x.type_@, y.type_@)]);
            } else {
                assert(report@ =~= mid + Seq::<FindingView>::empty());
            }
        }
        i = i + 1;
        assert(report@ =~= after_removed + positional_fields(is_evt, name@, a, b, i as nat));
    }
    let ghost after_positional = report@;
    if new_fields.len() > old_fields.len() {
        let mut j: usize = old_fields.len();
        assert(after_positional =~= after_positional + appended_fields(name@, b, a.len(), j as nat));
        while j < new_fields.len()
            invariant
                b == new_fields@.map_values(|f: StructField| f@),
                a.len() == old_fields.len(),
                old_fields.len() <= j <= new_fields.len(),
                report@ == after_positional + appended_fields(name@, b, a.len(), j as nat),
            decreases new_fields.len() - j,
        {
            let y = &new_fields[j];
            assert(b[j as int] == y@);
            report.add(field_added(name, &y.name));
            j = j + 1;
            assert(report@ =~= after_positional + appended_fields(name@, b, a.len(), j as nat));
        }
    } else {
        assert(report@ =~= after_positional + Seq::<FindingView>::empty());
    }
    assert(report@ =~= start + struct_field_findings(name@, old_struct@, new_struct@));
}

/// Compares the struct definitions of two contract interfaces.
fn compare_structs(old_spec: &ContractSpec, new_spec: &ContractSpec, report: &mut DiffReport)
    requires
        old_spec@.wf(),
        new_spec@.wf(),
    ensures
        final(report)@ == old(report)@ + struct_findings(old_spec@, new_spec@),
{
    let ghost start = report@;
    let mut i: usize = 0;
    while i < old_spec.structs.len()
        invariant
            old_spec@.wf(),
            new_spec@.wf(),
            i <= old_spec.structs.len(),
            report@ == start + removed_or_changed_structs(old_spec@.structs, new_spec@, i as nat),
        decreases old_spec.structs.len() - i,
    {
        let s = &old_spec.structs[i];
        assert(old_spec@.structs[i as int] == s@);
        let ghost before = report@;
        match new_spec.get_struct(&s.name) {
            None => {
                let is_evt = crate::text::is_event(&s.name);
                report.add(struct_removed(is_evt, &s.name));
                assert(report@ =~= before + seq![struct_removed_finding(is_event_name(s.name@), s.name@)]);
            },
            Some(t) => {
                check_struct_fields(&s.name, s, t, report);
            },
        }
        i = i + 1;
        assert(report@ =~= start + removed_or_changed_structs(old_spec@.structs, new_spec@, i as nat));
    }
    let ghost mid = report@;
    let mut j: usize = 0;
    assert(mid =~= mid + added_structs(new_spec@.structs, old_spec@, 0));
    while j < new_spec.structs.len()
        invariant
            old_spec@.wf(),
            new_spec@.wf(),
            j <= new_spec.structs.len(),
            report@ == mid + added_structs(new_spec@.structs, old_spec@, j as nat),
        decreases new_spec.structs.len() - j,
    {
        let t = &new_spec.structs[j];
        assert(new_spec@.structs[j as int] == t@);
        let ghost before = report@;
        if old_spec.get_struct(&t.name).is_none() {
            report.add(struct_added(&t.name));
            assert(report@ =~= before + seq![struct_added_finding(t.name@)]);
        } else {
            assert(report@ =~= before + Seq::<FindingView>::empty());
        }
        j = j + 1;
        assert(report@ =~= mid + added_structs(new_spec@.structs, old_spec@, j as nat));
    }
    assert(report@ =~= start + struct_findings(old_spec@, new_spec@));
}

// ---------------------------------------------------------------------------
// Enums
// ---------------------------------------------------------------------------

pub open spec fn case_names(cs: Seq<EnumCaseView>) -> Seq<Seq<char>> {
    cs.map_values(|c: EnumCaseView| c.name)
}

/// The first case of `cs` named `n`.
pub open spec fn first_case_named(cs: Seq<EnumCaseView>, n: Seq<char>) -> Option<EnumCaseView>
    decreases cs.len(),
{
    if cs.len() == 0 {
        None
    } else if cs[0].name == n {
        Some(cs[0])
    } else {
        first_case_named(cs.drop_first(), n)
    }
}

/// Findings for the first `n` old cases: a case missing from the new
/// version, or a case whose value changed.
pub open spec fn removed_or_changed_cases(
    evt: bool,
    name: Seq<char>,
    a: Seq<EnumCaseView>,
    b: Seq<EnumCaseView>,
    n: nat,
) -> Seq<FindingView>
    decreases n,
{
    if n == 0 {
        Seq::empty()
    } else {
        let c = a[n - 1];
        removed_or_changed_cases(evt, name, a, b, (n - 1) as nat) + match first_case_named(b, c.name) {
            None => seq![case_removed_finding(evt, name, c.name, c.value as nat)],
            Some(d) => if c.value != d.value {
                seq![case_value_changed_finding(evt, name, c.name, c.value as nat, d.value as nat)]
            } else {
                Seq::empty()
            },
        }
    }
}

/// Findings for the first `n` new cases whose names no old case has.
pub open spec fn added_cases(
    evt: bool,
    name: Seq<char>,
    a: Seq<EnumCaseView>,
    b: Seq<EnumCaseView>,
    n: nat,
) -> Seq<FindingView>
    decreases n,
{
    if n == 0 {
        Seq::empty()
    } else {
        added_cases(evt, name, a, b, (n - 1) as nat) + (if !case_names(a).contains(b[n - 1].name) {
            seq![case_added_finding(evt, name, b[n - 1].name, b[n - 1].value as nat)]
        } else {
            Seq::empty()
        })
    }
}

/// Findings for two versions of the enum `name`: the old cases removed or
/// changed, then every new case whose name no old case has.
pub open spec fn enum_case_findings(name: Seq<char>, e: EnumView, f: EnumView) -> Seq<FindingView> {
    let evt = is_event_name(name);
    removed_or_changed_cases(evt, name, e.cases, f.cases, e.cases.len()) + added_cases(
        evt,
        name,
        e.cases,
        f.cases,
        f.cases.len(),
    )
}

/// Findings for one enum of the old interface.
pub open spec fn old_enum_findings(e: EnumView, new: ContractSpecView) -> Seq<FindingView> {
    match new.enum_def(e.name) {
        None => seq![enum_removed_finding(is_event_name(e.name), e.name)],
        Some(f) => enum_case_findings(e.name, e, f),
    }
}

pub open spec fn removed_or_changed_enums(es: Seq<EnumView>, new: ContractSpecView, n: nat) -> Seq<
    FindingView,
>
    decreases n,
{
    if n == 0 {
        Seq::empty()
    } else {
        removed_or_changed_enums(es, new, (n - 1) as nat) + old_enum_findings(es[n - 1], new)
    }
}

pub open spec fn added_enums(es: Seq<EnumView>, old: ContractSpecView, n: nat) -> Seq<FindingView>
    decreases n,
{
    if n == 0 {
        Seq::empty()
    } else {
        added_enums(es, old, (n - 1) as nat) + (if old.enum_def(es[n - 1].name) is None {
            seq![enum_added_finding(es[n - 1].name)]
        } else {
            Seq::empty()
        })
    }
}

/// All findings about enums.
pub open spec fn enum_findings(old: ContractSpecView, new: ContractSpecView) -> Seq<FindingView> {
    removed_or_changed_enums(old.enums, new, old.enums.len()) + added_enums(new.enums, old, new.enums.len())
}

/// The first case of `cases` named `n`.
fn find_case<'a>(cases: &'a Vec<EnumCase>, n: &String) -> (r: Option<&'a EnumCase>)
    ensures
        match r {
            Some(c) => first_case_named(cases@.map_values(|c: EnumCase| c@), n@) == Some(c@),
            None => first_case_named(cases@.map_values(|c: EnumCase| c@), n@) is None,
        },
{
    let ghost cs = cases@.map_values(|c: EnumCase| c@);
    let mut i: usize = 0;
    assert(cs.skip(0) =~= cs);
    while i < cases.len()
        invariant
            cs == cases@.map_values(|c: EnumCase| c@),
            i <= cases.len(),
            first_case_named(cs, n@) == first_case_named(cs.skip(i as int), n@),
        decreases cases.len() - i,
    {
        let ghost rest = cs.skip(i as int);
        assert(rest[0] == cases@[i as int]@);
        if cases[i].name == *n {
            return Some(&cases[i]);
        }
        assert(rest.drop_first() =~= cs.skip(i + 1));
        i = i + 1;
    }
    assert(cs.skip(i as int).len() == 0);
    None
}

/// Whether `cases` has a case named `n`.
fn has_case(cases: &Vec<EnumCase>, n: &String) -> (r: bool)
    ensures
        r == case_names(cases@.map_values(|c: EnumCase| c@)).contains(n@),
{
    let ghost names = case_names(cases@.map_values(|c: EnumCase| c@));
    let mut i: usize = 0;
    while i < cases.len()
        invariant
            names == case_names(cases@.map_values(|c: EnumCase| c@)),
            names.len() == cases.len(),
            i <= cases.len(),
            forall|j: int| 0 <= j < i ==> names[j] != n@,
        decreases cases.len() - i,
    {
        if cases[i].name == *n {
            assert(names[i as int] == n@);
            return true;
        }
        i = i + 1;
    }
    false
}

/// Compares the cases of two enums with the same name.
fn check_enum_cases(name: &String, old_enum: &EnumDef, new_enum: &EnumDef, report: &mut DiffReport)
    ensures
        final(report)@ == old(report)@ + enum_case_findings(name@, old_enum@, new_enum@),
{
    let ghost start = report@;
    let ghost a = old_enum@.cases;
    let ghost b = new_enum@.cases;
    let is_evt = crate::text::is_event(name);
    let old_cases = &old_enum.cases;
    let new_cases = &new_enum.cases;
    let mut i: usize = 0;
    while i < old_cases.len()
        invariant
            a == old_cases@.map_values(|c: EnumCase| c@),
            b == new_cases@.map_values(|c: EnumCase| c@),
            is_evt == is_event_name(name@),
            i <= old_cases.len(),
            report@ == start + removed_or_changed_cases(is_evt, name@, a, b, i as nat),
        decreases old_cases.len() - i,
    {
        let c = &old_cases[i];
        assert(a[i as int] == c@);
        let ghost before = report@;
        match find_case(new_cases, &c.name) {
            None => {
                report.add(case_removed(is_evt, name, &c.name, c.value as u64));
                assert(report@ =~= before + seq![case_removed_finding(is_evt, name@, c.name@, c.value as nat)]);
            },
            Some(d) => {
                if c.value != d.value {
                    report.add(case_value_changed(is_evt, name, &c.name, c.value as u64, d.value as u64));
                    assert(report@ =~= before + seq![case_value_changed_finding(is_evt, name@, c.name@, c.value as nat, d.value as nat)]);
                } else {
                    assert(report@ =~= before + Seq::<FindingView>::empty());
                }
            },
        }
        i = i + 1;
        assert(report@ =~= start + removed_or_changed_cases(is_evt, name@, a, b, i as nat));
    }
    let ghost mid = report@;
    let mut j: usize = 0;
    assert(mid =~= mid + added_cases(is_evt, name@, a, b, 0));
    while j < new_cases.len()
        invariant
            a == old_cases@.map_values(|c: EnumCase| c@),
            b == new_cases@.map_values(|c: EnumCase| c@),
            j <= new_cases.len(),
            report@ == mid + added_cases(is_evt, name@, a, b, j as nat),
        decreases new_cases.len() - j,
    {
        let d = &new_cases[j];
        assert(b[j as int] == d@);
        let ghost before = report@;
        if !has_case(old_cases, &d.name) {
            report.add(case_added(is_evt, name, &d.name, d.value as u64));
            assert(report@ =~= before + seq![case_added_finding(is_evt, name@, d.name@, d.value as nat)]);
        } else {
            assert(report@ =~= before + Seq::<FindingView>::empty());
        }
        j = j + 1;
        assert(report@ =~= mid + added_cases(is_evt, name@, a, b, j as nat));
    }
    assert(report@ =~= start + enum_case_findings(name@, old_enum@, new_enum@));
}

/// Compares the enum definitions of two contract interfaces.
fn compare_enums(old_spec: &ContractSpec, new_spec: &ContractSpec, report: &mut DiffReport)
    requires
        old_spec@.wf(),
        new_spec@.wf(),
    ensures
        final(report)@ == old(report)@ + enum_findings(old_spec@, new_spec@),
{
    let ghost start = report@;
    let mut i: usize = 0;
    while i < old_spec.enums.len()
        invariant
            old_spec@.wf(),
            new_spec@.wf(),
            i <= old_spec.enums.len(),
            report@ == start + removed_or_changed_enums(old_spec@.enums, new_spec@, i as nat),
        decreases old_spec.enums.len() - i,
    {
        let e = &old_spec.enums[i];
        assert(old_spec@.enums[i as int] == e@);
        let ghost before = report@;
        match new_spec.get_enum(&e.name) {
            None => {
                let is_evt = crate::text::is_event(&e.name);
                report.add(enum_removed(is_evt, &e.name));
                assert(report@ =~= before + seq![enum_removed_finding(is_event_name(e.name@), e.name@)]);
            },
            Some(f) => {
                check_enum_cases(&e.name, e, f, report);
            },
        }
        i = i + 1;
        assert(report@ =~= start + removed_or_changed_enums(old_spec@.enums, new_spec@, i as nat));
    }
    let ghost mid = report@;
    let mut j: usize = 0;
    assert(mid =~= mid + added_enums(new_spec@.enums, old_spec@, 0));
    while j < new_spec.enums.len()
        invariant
            old_spec@.wf(),
            new_spec@.wf(),
            j <= new_spec.enums.len(),
            report@ == mid + added_enums(new_spec@.enums, old_spec@, j as nat),
        decreases new_spec.enums.len() - j,
    {
        let f = &new_spec.enums[j];
        assert(new_spec@.enums[j as int] == f@);
        let ghost before = report@;
        if old_spec.get_enum(&f.name).is_none() {
            report.add(enum_added(&f.name));
            assert(report@ =~= before + seq![enum_added_finding(f.name@)]);
        } else {
            assert(report@ =~= before + Seq::<FindingView>::empty());
        }
        j = j + 1;
        assert(report@ =~= mid + added_enums(new_spec@.enums, old_spec@, j as nat));
    }
    assert(report@ =~= start + enum_findings(old_spec@, new_spec@));
}

// ---------------------------------------------------------------------------
// Cascading layout breaks
// ---------------------------------------------------------------------------

/// A critical finding of `fs` names the type `n`.
pub open spec fn is_broken(fs: Seq<FindingView>, n: Seq<char>) -> bool {
    exists|k: int|
        0 <= k < fs.len() && (#[trigger] fs[k]).severity == Severity::Critical && fs[k].affected_type
            == Some(n)
}

/// In `p`, every type after the first depends on the one before it.
pub open spec fn is_dependent_chain(spec: ContractSpecView, p: Seq<Seq<char>>) -> bool {
    &&& p.len() >= 1
    &&& forall|k: int| 0 <= k < p.len() - 1 ==> #[trigger] is_dependent(spec, p[k], p[k + 1])
}

/// `t` depends, in one or more steps, on a type that `fs` reports as broken.
pub open spec fn cascade_reaches(spec: ContractSpecView, fs: Seq<FindingView>, t: Seq<char>) -> bool {
    exists|p: Seq<Seq<char>>|
        #[trigger] is_dependent_chain(spec, p) && p.len() >= 2 && is_broken(fs, p[0]) && p.last() == t
}

/// The `k`-th added finding reports that `t` broke because it depends on `p`,
/// where `p` is directly broken or was reported by an earlier added finding.
pub open spec fn cascade_step(spec: ContractSpecView, before: Seq<FindingView>, added: Seq<FindingView>, k: int) -> bool {
    exists|t: Seq<char>, p: Seq<char>|
        #[trigger] cascading_break_finding(t, p) == added[k] && is_dependent(spec, p, t) && (is_broken(
            before,
            p,
        ) || exists|j: int| 0 <= j < k && #[trigger] added[j].affected_type == Some(p))
}

/// `after` is `before` followed by one cascading-break finding for each type
/// that depends, in one or more steps, on a type `before` reports as broken,
/// and for no other type.
pub open spec fn cascade_extends(spec: ContractSpecView, before: Seq<FindingView>, after: Seq<FindingView>) -> bool {
    let added = after.skip(before.len() as int);
    &&& before.len() <= after.len()
    &&& after.take(before.len() as int) == before
    &&& forall|k: int| 0 <= k < added.len() ==> #[trigger] cascade_step(spec, before, added, k)
    &&& forall|j: int, k: int|
        0 <= j < k < added.len() ==> (#[trigger] added[j]).affected_type != (#[trigger] added[k]).affected_type
    &&& forall|t: Seq<char>|
        cascade_reaches(spec, before, t) <==> exists|k: int|
            0 <= k < added.len() && (#[trigger] added[k]).affected_type == Some(t)
}

/// Extends a dependency chain by one dependent.
proof fn lemma_dependent_chain_push(spec: ContractSpecView, p: Seq<Seq<char>>, t: Seq<char>)
    requires
        is_dependent_chain(spec, p),
        is_dependent(spec, p.last(), t),
    ensures
        is_dependent_chain(spec, p.push(t)),
{
    let q = p.push(t);
    assert forall|k: int| 0 <= k < q.len() - 1 implies #[trigger] is_dependent(spec, q[k], q[k + 1]) by {
        if k < p.len() - 1 {
            assert(q[k] == p[k] && q[k + 1] == p[k + 1]);
        } else {
            assert(q[k] == p.last() && q[k + 1] == t);
        }
    }
}

/// A set of names closed under dependents holds every later name of a
/// chain whose first name it holds.
proof fn lemma_dependent_chain_closed(
    spec: ContractSpecView,
    p: Seq<Seq<char>>,
    queue: Seq<Seq<char>>,
    cascaded: Seq<Seq<char>>,
)
    requires
        is_dependent_chain(spec, p),
        p.len() >= 2,
        queue.contains(p[0]),
        forall|n: Seq<char>| cascaded.contains(n) ==> queue.contains(n),
        forall|x: Seq<char>, o: Seq<char>| queue.contains(x) && #[trigger] is_dependent(spec, x, o) ==> cascaded.contains(o),
    ensures
        cascaded.contains(p.last()),
    decreases p.len(),
{
    let k = p.len() - 2;
    assert(is_dependent(spec, p[k], p[k + 1]));
    if p.len() > 2 {
        let q = p.drop_last();
        assert forall|j: int| 0 <= j < q.len() - 1 implies #[trigger] is_dependent(spec, q[j], q[j + 1]) by {
            assert(is_dependent(spec, p[j], p[j + 1]));
        }
        lemma_dependent_chain_closed(spec, q, queue, cascaded);
        assert(q.last() == p[k]);
    }
}

/// A dependent is a struct or union owner, so it is one of the owner names.
proof fn lemma_dependent_is_owner(spec: ContractSpecView, d: Seq<char>, o: Seq<char>)
    requires
        is_dependent(spec, d, o),
    ensures
        owned_member_types(spec).map_values(|e: (Seq<char>, TypeView)| e.0).contains(o),
{
    let ow = owned_member_types(spec);
    let k = choose|k: int| 0 <= k < ow.len() && #[trigger] ow[k].0 == o && depends_on(spec, ow[k].1, d);
    assert(ow.map_values(|e: (Seq<char>, TypeView)| e.0)[k] == o);
}

/// Uses the reverse dependency graph of the old interface to report every
/// type whose layout breaks because it embeds, directly or transitively, a
/// type that already has a critical finding.
pub fn detect_cascading_layout_breaks(old_spec: &ContractSpec, report: &mut DiffReport)
    requires
        old_spec@.wf(),
    ensures
        cascade_extends(old_spec@, old(report)@, final(report)@),
{
    let ghost spec = old_spec@;
    let ghost fs0 = report@;
    let mapper = LayoutMapper::new(old_spec);
    let reverse_deps = mapper.build_reverse_dependencies();
    let ghost rev = reverse_deps.view_entries();

    // The types with a direct critical finding, each once, in report order.
    let mut queue: Vec<String> = Vec::new();
    let mut k: usize = 0;
    while k < report.findings.len()
        invariant
            report@ == fs0,
            k <= report.findings.len(),
            forall|n: Seq<char>| names_view(queue@).contains(n) <==> exists|j: int|
                0 <= j < k && (#[trigger] fs0[j]).severity == Severity::Critical && fs0[j].affected_type
                    == Some(n),
        decreases report.findings.len() - k,
    {
        let f = &report.findings[k];
        assert(fs0[k as int] == f@);
        if f.severity == Severity::Critical {
            match &f.affected_type {
                Some(name) => {
                    if !contains_name(&queue, name) {
                        let ghost before = names_view(queue@);
                        queue.push(name.clone());
                        assert(names_view(queue@) =~= before.push(name@));
                        proof {
                            lemma_push_contains(before, name@);
                        }
                    }
                },
                None => {},
            }
        }
        k = k + 1;
    }
    let ghost broken = names_view(queue@);
    let nb = queue.len();
    let ghost universe = owned_member_types(spec).map_values(|e: (Seq<char>, TypeView)| e.0);

    let mut cascaded: Vec<String> = Vec::new();
    let mut i: usize = 0;
    assert(names_view(queue@) =~= broken + names_view(cascaded@));
    assert(report@.skip(fs0.len() as int) =~= Seq::<FindingView>::empty());
    while i < queue.len()
        invariant
            spec == old_spec@,
            spec.wf(),
            reverse_deps.wf(),
            rev == reverse_deps.view_entries(),
            forall|d: Seq<char>, o: Seq<char>| #[trigger] rev_has(rev, d, o) <==> is_dependent(spec, d, o),
            forall|n: Seq<char>| #[trigger] broken.contains(n) <==> is_broken(fs0, n),
            nb == broken.len(),
            names_view(queue@) == broken + names_view(cascaded@),
            names_view(cascaded@).no_duplicates(),
            universe == owned_member_types(spec).map_values(|e: (Seq<char>, TypeView)| e.0),
            forall|n: Seq<char>| #[trigger] names_view(cascaded@).contains(n) ==> universe.contains(n),
            i <= queue.len(),
            fs0.len() <= report@.len(),
            report@.take(fs0.len() as int) == fs0,
            report@.len() == fs0.len() + cascaded.len(),
            forall|q: int| 0 <= q < cascaded.len() ==> (#[trigger] report@.skip(fs0.len() as int)[q]).affected_type == Some(cascaded@[q]@),
            forall|q: int| 0 <= q < cascaded.len() ==> #[trigger] cascade_step(spec, fs0, report@.skip(fs0.len() as int), q),
            forall|q: int| 0 <= q < cascaded.len() ==> cascade_reaches(spec, fs0, #[trigger] cascaded@[q]@),
            forall|j: int, o: Seq<char>|
                0 <= j < i && #[trigger] is_dependent(spec, names_view(queue@)[j], o) ==> names_view(cascaded@).contains(o),
        decreases 2 * (nb + universe.len()) - queue.len() - i,
    {
        proof {
            lemma_distinct_subset_len(names_view(cascaded@), universe);
        }
        let current = queue[i].clone();
        let ghost cur = current@;
        assert(names_view(queue@)[i as int] == cur);
        // `cur` is directly broken, or it is an earlier cascaded type.
        assert(broken.contains(cur) || exists|j: int| 0 <= j < cascaded.len() && cascaded@[j]@ == cur) by {
            assert(names_view(queue@).len() == nb + cascaded.len());
            if i < nb {
                assert((broken + names_view(cascaded@))[i as int] == broken[i as int]);
                assert(broken[i as int] == cur);
            } else {
                assert((broken + names_view(cascaded@))[i as int] == names_view(cascaded@)[i - nb]);
                assert(cascaded@[i - nb]@ == cur);
            }
        }
        let ghost q_start = queue.len();
        match reverse_deps.get(&current) {
            Some(deps) => {
                let mut m: usize = 0;
                while m < deps.len()
                    invariant
                        spec == old_spec@,
                        spec.wf(),
                        rev_wf(rev),
                        forall|d: Seq<char>, o: Seq<char>| #[trigger] rev_has(rev, d, o) <==> is_dependent(spec, d, o),
                        names_view(deps@) == rev_lookup(rev, cur),
                        forall|n: Seq<char>| #[trigger] broken.contains(n) <==> is_broken(fs0, n),
                        nb == broken.len(),
                        i < queue.len(),
                        names_view(queue@)[i as int] == cur,
                        current@ == cur,
                        broken.contains(cur) || exists|j: int| 0 <= j < cascaded.len() && cascaded@[j]@ == cur,
                        cascade_reaches(spec, fs0, cur) || broken.contains(cur),
                        names_view(queue@) == broken + names_view(cascaded@),
                        names_view(cascaded@).no_duplicates(),
                        universe == owned_member_types(spec).map_values(|e: (Seq<char>, TypeView)| e.0),
                        forall|n: Seq<char>| #[trigger] names_view(cascaded@).contains(n) ==> universe.contains(n),
                        fs0.len() <= report@.len(),
                        report@.take(fs0.len() as int) == fs0,
                        report@.len() == fs0.len() + cascaded.len(),
                        forall|q: int| 0 <= q < cascaded.len() ==> (#[trigger] report@.skip(fs0.len() as int)[q]).affected_type == Some(cascaded@[q]@),
                        forall|q: int| 0 <= q < cascaded.len() ==> #[trigger] cascade_step(spec, fs0, report@.skip(fs0.len() as int), q),
                        forall|q: int| 0 <= q < cascaded.len() ==> cascade_reaches(spec, fs0, #[trigger] cascaded@[q]@),
                        forall|j: int, o: Seq<char>|
                            0 <= j < i && #[trigger] is_dependent(spec, names_view(queue@)[j], o) ==> names_view(cascaded@).contains(o),
                        m <= deps.len(),
                        q_start <= queue.len(),
                        forall|q: int| 0 <= q < m ==> names_view(cascaded@).contains(#[trigger] names_view(deps@)[q]),
                    decreases deps.len() - m,
                {
                    let dep = &deps[m];
                    proof {
                        assert(rev_lookup(rev, cur)[m as int] == dep@);
                        lemma_rev_lookup(rev, cur, dep@);
                        assert(is_dependent(spec, cur, dep@));
                    }
                    if !contains_name(&cascaded, dep) {
                        let ghost parent_idx: int = if broken.contains(cur) {
                            -1
                        } else {
                            choose|j: int| 0 <= j < cascaded.len() && cascaded@[j]@ == cur
                        };
                        proof {
                            if !broken.contains(cur) {
                                assert(report@.skip(fs0.len() as int)[parent_idx].affected_type == Some(cur));
                            }
                        }
                        let ghost old_cascaded = names_view(cascaded@);
                        let ghost old_report = report@;
                        let ghost old_queue = names_view(queue@);
                        cascaded.push(dep.clone());
                        queue.push(dep.clone());
                        let finding = cascading_break(dep, &current);
                        let ghost fv = finding@;
                        report.add(finding);
                        proof {
                            let added = report@.skip(fs0.len() as int);
                            let old_added = old_report.skip(fs0.len() as int);
                            assert(fv == cascading_break_finding(dep@, cur));
                            assert(report@ == old_report.push(fv));
                            assert(added =~= old_added.push(fv));
                            assert(names_view(cascaded@) =~= old_cascaded.push(dep@));
                            assert(names_view(queue@) =~= old_queue.push(dep@));
                            lemma_push_contains(old_cascaded, dep@);
                            lemma_push_contains(old_queue, dep@);
                            assert(report@.take(fs0.len() as int) =~= old_report.take(fs0.len() as int));
                            assert(names_view(queue@) =~= broken + names_view(cascaded@));
                            lemma_dependent_is_owner(spec, cur, dep@);
                            let kk = old_cascaded.len() as int;
                            // The new finding is a valid cascade step.
                            if broken.contains(cur) {
                                assert(is_broken(fs0, cur));
                            } else {
                                assert(added[parent_idx] == old_added[parent_idx]);
                                assert(added[parent_idx].affected_type == Some(cur));
                            }
                            assert(cascade_step(spec, fs0, added, kk));
                            assert forall|q: int| 0 <= q < cascaded.len() implies #[trigger] cascade_step(spec, fs0, added, q) by {
                                if q < kk {
                                    assert(cascade_step(spec, fs0, old_added, q));
                                    let (t, p) = choose|t: Seq<char>, p: Seq<char>|
                                        #[trigger] cascading_break_finding(t, p) == old_added[q] && is_dependent(spec, p, t) && (is_broken(fs0, p) || exists|j: int| 0 <= j < q && #[trigger] old_added[j].affected_type == Some(p));
                                    assert(added[q] == old_added[q]);
                                    if !is_broken(fs0, p) {
                                        let j = choose|j: int| 0 <= j < q && #[trigger] old_added[j].affected_type == Some(p);
                                        assert(added[j] == old_added[j]);
                                    }
                                }
                            }
                            assert forall|q: int| 0 <= q < cascaded.len() implies (#[trigger] added[q]).affected_type == Some(cascaded@[q]@) by {
                                if q < kk {
                                    assert(added[q] == old_added[q]);
                                }
                            }
                            // The new type is reachable from a broken type.
                            if broken.contains(cur) {
                                let p = seq![cur, dep@];
                                assert(is_dependent(spec, p[0], p[1]));
                                assert(is_dependent_chain(spec, p));
                            } else {
                                let p = choose|p: Seq<Seq<char>>| #[trigger] is_dependent_chain(spec, p) && p.len() >= 2 && is_broken(fs0, p[0]) && p.last() == cur;
                                lemma_dependent_chain_push(spec, p, dep@);
                                assert(p.push(dep@)[0] == p[0]);
                            }
                            assert(cascade_reaches(spec, fs0, dep@));
                            assert forall|j: int, o: Seq<char>|
                                0 <= j < i && #[trigger] is_dependent(spec, names_view(queue@)[j], o) implies names_view(cascaded@).contains(o) by {
                                assert(names_view(queue@)[j] == old_queue[j]);
                            }
                        }
                    }
                    m = m + 1;
                }
                proof {
                    assert forall|o: Seq<char>| #[trigger] is_dependent(spec, cur, o) implies names_view(cascaded@).contains(o) by {
                        lemma_rev_lookup(rev, cur, o);
                        let q = choose|q: int| 0 <= q < names_view(deps@).len() && names_view(deps@)[q] == o;
                    }
                }
            },
            None => {
                proof {
                    assert forall|o: Seq<char>| #[trigger] is_dependent(spec, cur, o) implies names_view(cascaded@).contains(o) by {
                        lemma_rev_lookup(rev, cur, o);
                    }
                }
            },
        }
        assert(names_view(queue@)[i as int] == cur);
        i = i + 1;
        proof {
            lemma_distinct_subset_len(names_view(cascaded@), universe);
            assert(names_view(queue@).len() == queue.len());
            assert(queue.len() == nb + cascaded.len());
        }
    }
    proof {
        let added = report@.skip(fs0.len() as int);
        let qv = names_view(queue@);
        let cv = names_view(cascaded@);
        assert forall|n: Seq<char>| cv.contains(n) implies qv.contains(n) by {
            let j = choose|j: int| 0 <= j < cv.len() && cv[j] == n;
            assert(qv[broken.len() + j] == n);
        }
        assert forall|x: Seq<char>, o: Seq<char>| qv.contains(x) && #[trigger] is_dependent(spec, x, o) implies cv.contains(o) by {
            let j = choose|j: int| 0 <= j < qv.len() && qv[j] == x;
        }
        assert forall|t: Seq<char>|
            cascade_reaches(spec, fs0, t) <==> exists|k: int| 0 <= k < added.len() && (#[trigger] added[k]).affected_type == Some(t) by {
            if cascade_reaches(spec, fs0, t) {
                let p = choose|p: Seq<Seq<char>>| #[trigger] is_dependent_chain(spec, p) && p.len() >= 2 && is_broken(fs0, p[0]) && p.last() == t;
                assert(broken.contains(p[0]));
                let j = choose|j: int| 0 <= j < broken.len() && broken[j] == p[0];
                assert(qv[j] == p[0]);
                lemma_dependent_chain_closed(spec, p, qv, cv);
                let q = choose|q: int| 0 <= q < cv.len() && cv[q] == t;
                assert(added[q].affected_type == Some(t));
            }
            if exists|k: int| 0 <= k < added.len() && (#[trigger] added[k]).affected_type == Some(t) {
                let k = choose|k: int| 0 <= k < added.len() && (#[trigger] added[k]).affected_type == Some(t);
                assert(cascaded@[k]@ == t);
            }
        }
        assert forall|j: int, k: int| 0 <= j < k < added.len() implies (#[trigger] added[j]).affected_type != (#[trigger] added[k]).affected_type by {
            assert(cv[j] != cv[k]);
        }
    }
}

/// Compares two contract interfaces and reports every finding: functions,
/// structs and enums, then the layout breaks that cascade from them.
pub fn compare(old_spec: &ContractSpec, new_spec: &ContractSpec) -> (r: DiffReport)
    requires
        old_spec@.wf(),
        new_spec@.wf(),
    ensures
        cascade_extends(old_spec@, direct_findings(old_spec@, new_spec@), r@),
{
    let mut report = DiffReport::default();
    compare_functions(old_spec, new_spec, &mut report);
    compare_structs(old_spec, new_spec, &mut report);
    compare_enums(old_spec, new_spec, &mut report);
    assert(report@ =~= direct_findings(old_spec@, new_spec@));
    detect_cascading_layout_breaks(old_spec, &mut report);
    report
}

/// The findings about functions, structs and enums, in that order.
pub open spec fn direct_findings(old: ContractSpecView, new: ContractSpecView) -> Seq<FindingView> {
    function_findings(old, new) + struct_findings(old, new) + enum_findings(old, new)
}

// ---------------------------------------------------------------------------
// Laws
// ---------------------------------------------------------------------------

/// Every enum of the spec has distinct case names.
pub open spec fn enum_cases_distinct(s: ContractSpecView) -> bool {
    forall|i: int| 0 <= i < s.enums.len() ==> case_names(#[trigger] s.enums[i].cases).no_duplicates()
}

pub(crate) proof fn lemma_param_findings_same(name: Seq<char>, a: Seq<FunctionInputView>, n: nat)
    ensures
        param_findings(name, a, a, n) == Seq::<FindingView>::empty(),
    decreases n,
{
    if n > 0 {
        lemma_param_findings_same(name, a, (n - 1) as nat);
        assert(param_findings(name, a, a, n) =~= Seq::<FindingView>::empty());
    }
}

pub(crate) proof fn lemma_return_findings_same(name: Seq<char>, a: Seq<TypeView>, n: nat)
    ensures
        return_findings(name, a, a, n) == Seq::<FindingView>::empty(),
    decreases n,
{
    if n > 0 {
        lemma_return_findings_same(name, a, (n - 1) as nat);
        assert(return_findings(name, a, a, n) =~= Seq::<FindingView>::empty());
    }
}

/// Every function, struct and enum of `old` is in `new`, unchanged.
pub open spec fn keeps_all(old: ContractSpecView, new: ContractSpecView) -> bool {
    &&& forall|i: int| 0 <= i < old.functions.len() ==> new.function(#[trigger] old.functions[i].name) == Some(old.functions[i])
    &&& forall|i: int| 0 <= i < old.structs.len() ==> new.struct_def(#[trigger] old.structs[i].name) == Some(old.structs[i])
    &&& forall|i: int| 0 <= i < old.enums.len() ==> new.enum_def(#[trigger] old.enums[i].name) == Some(old.enums[i])
}

/// A well-formed interface keeps all of its own items.
proof fn lemma_keeps_all_self(s: ContractSpecView)
    requires
        s.wf(),
    ensures
        keeps_all(s, s),
{
    assert forall|i: int| 0 <= i < s.functions.len() implies s.function(#[trigger] s.functions[i].name) == Some(s.functions[i]) by {
        crate::contract::lemma_index_of_unique(crate::contract::function_names(s.functions), i);
    }
    assert forall|i: int| 0 <= i < s.structs.len() implies s.struct_def(#[trigger] s.structs[i].name) == Some(s.structs[i]) by {
        crate::contract::lemma_index_of_unique(crate::contract::struct_names(s.structs), i);
    }
    assert forall|i: int| 0 <= i < s.enums.len() implies s.enum_def(#[trigger] s.enums[i].name) == Some(s.enums[i]) by {
        crate::contract::lemma_index_of_unique(crate::contract::enum_names(s.enums), i);
    }
}

/// No finding of `fs` is critical.
pub open spec fn none_critical(fs: Seq<FindingView>) -> bool {
    forall|k: int| 0 <= k < fs.len() ==> (#[trigger] fs[k]).severity != Severity::Critical
}

proof fn lemma_none_critical_add(a: Seq<FindingView>, b: Seq<FindingView>)
    requires
        none_critical(a),
        none_critical(b),
    ensures
        none_critical(a + b),
{
    assert forall|k: int| 0 <= k < (a + b).len() implies (#[trigger] (a + b)[k]).severity != Severity::Critical by {
        if k < a.len() {
            assert((a + b)[k] == a[k]);
        } else {
            assert((a + b)[k] == b[k - a.len()]);
        }
    }
}

proof fn lemma_kept_functions(old: ContractSpecView, new: ContractSpecView, n: nat)
    requires
        keeps_all(old, new),
        n <= old.functions.len(),
    ensures
        removed_or_changed_functions(old.functions, new, n) == Seq::<FindingView>::empty(),
    decreases n,
{
    if n > 0 {
        lemma_kept_functions(old, new, (n - 1) as nat);
        let f = old.functions[n - 1];
        assert(new.function(f.name) == Some(f));
        lemma_param_findings_same(f.name, f.inputs, f.inputs.len());
        lemma_return_findings_same(f.name, f.outputs, f.outputs.len());
        assert(signature_findings(f.name, f, f) =~= Seq::<FindingView>::empty());
        assert(removed_or_changed_functions(old.functions, new, n) =~= Seq::<FindingView>::empty());
    }
}

proof fn lemma_added_functions_info(fs: Seq<FunctionView>, old: ContractSpecView, n: nat)
    ensures
        none_critical(added_functions(fs, old, n)),
    decreases n,
{
    if n > 0 {
        lemma_added_functions_info(fs, old, (n - 1) as nat);
        let tail = if old.function(fs[n - 1].name) is None {
            seq![function_added_finding(fs[n - 1].name)]
        } else {
            Seq::<FindingView>::empty()
        };
        assert(none_critical(tail));
        lemma_none_critical_add(added_functions(fs, old, (n - 1) as nat), tail);
    }
}

proof fn lemma_added_structs_info(ss: Seq<StructView>, old: ContractSpecView, n: nat)
    ensures
        none_critical(added_structs(ss, old, n)),
    decreases n,
{
    if n > 0 {
        lemma_added_structs_info(ss, old, (n - 1) as nat);
        let tail = if old.struct_def(ss[n - 1].name) is None {
            seq![struct_added_finding(ss[n - 1].name)]
        } else {
            Seq::<FindingView>::empty()
        };
        assert(none_critical(tail));
        lemma_none_critical_add(added_structs(ss, old, (n - 1) as nat), tail);
    }
}

proof fn lemma_added_enums_info(es: Seq<EnumView>, old: ContractSpecView, n: nat)
    ensures
        none_critical(added_enums(es, old, n)),
    decreases n,
{
    if n > 0 {
        lemma_added_enums_info(es, old, (n - 1) as nat);
        let tail = if old.enum_def(es[n - 1].name) is None {
            seq![enum_added_finding(es[n - 1].name)]
        } else {
            Seq::<FindingView>::empty()
        };
        assert(none_critical(tail));
        lemma_none_critical_add(added_enums(es, old, (n - 1) as nat), tail);
    }
}

proof fn lemma_removed_fields_same(evt: bool, name: Seq<char>, a: Seq<StructFieldView>, n: nat)
    requires
        n <= a.len(),
    ensures
        removed_fields(evt, name, a, a, n) == Seq::<FindingView>::empty(),
    decreases n,
{
    if n > 0 {
        lemma_removed_fields_same(evt, name, a, (n - 1) as nat);
        assert(field_names(a)[n - 1] == a[n - 1].name);
        assert(removed_fields(evt, name, a, a, n) =~= Seq::<FindingView>::empty());
    }
}

proof fn lemma_positional_fields_same(evt: bool, name: Seq<char>, a: Seq<StructFieldView>, n: nat)
    ensures
        positional_fields(evt, name, a, a, n) == Seq::<FindingView>::empty(),
    decreases n,
{
    if n > 0 {
        lemma_positional_fields_same(evt, name, a, (n - 1) as nat);
        assert(positional_fields(evt, name, a, a, n) =~= Seq::<FindingView>::empty());
    }
}

proof fn lemma_kept_structs(old: ContractSpecView, new: ContractSpecView, n: nat)
    requires
        keeps_all(old, new),
        n <= old.structs.len(),
    ensures
        removed_or_changed_structs(old.structs, new, n) == Seq::<FindingView>::empty(),
    decreases n,
{
    if n > 0 {
        lemma_kept_structs(old, new, (n - 1) as nat);
        let t = old.structs[n - 1];
        assert(new.struct_def(t.name) == Some(t));
        let evt = is_event_name(t.name);
        lemma_removed_fields_same(evt, t.name, t.fields, t.fields.len());
        lemma_positional_fields_same(evt, t.name, t.fields, t.fields.len());
        assert(struct_field_findings(t.name, t, t) =~= Seq::<FindingView>::empty());
        assert(removed_or_changed_structs(old.structs, new, n) =~= Seq::<FindingView>::empty());
    }
}

/// In a sequence of cases with distinct names, the first case named like
/// the `i`-th case is that case.
pub(crate) proof fn lemma_first_case_named_distinct(cs: Seq<EnumCaseView>, i: int)
    requires
        case_names(cs).no_duplicates(),
        0 <= i < cs.len(),
    ensures
        first_case_named(cs, cs[i].name) == Some(cs[i]),
    decreases cs.len(),
{
    if i > 0 {
        assert(case_names(cs)[0] != case_names(cs)[i]);
        let rest = cs.drop_first();
        assert(case_names(rest) =~= case_names(cs).drop_first());
        assert(rest[i - 1] == cs[i]);
        lemma_first_case_named_distinct(rest, i - 1);
    }
}

proof fn lemma_case_findings_same(evt: bool, name: Seq<char>, a: Seq<EnumCaseView>, n: nat)
    requires
        case_names(a).no_duplicates(),
        n <= a.len(),
    ensures
        removed_or_changed_cases(evt, name, a, a, n) == Seq::<FindingView>::empty(),
    decreases n,
{
    if n > 0 {
        lemma_case_findings_same(evt, name, a, (n - 1) as nat);
        lemma_first_case_named_distinct(a, n - 1);
        assert(removed_or_changed_cases(evt, name, a, a, n) =~= Seq::<FindingView>::empty());
    }
}

proof fn lemma_added_cases_same(evt: bool, name: Seq<char>, a: Seq<EnumCaseView>, n: nat)
    requires
        n <= a.len(),
    ensures
        added_cases(evt, name, a, a, n) == Seq::<FindingView>::empty(),
    decreases n,
{
    if n > 0 {
        lemma_added_cases_same(evt, name, a, (n - 1) as nat);
        assert(case_names(a)[n - 1] == a[n - 1].name);
        assert(added_cases(evt, name, a, a, n) =~= Seq::<FindingView>::empty());
    }
}

proof fn lemma_kept_enums(old: ContractSpecView, new: ContractSpecView, n: nat)
    requires
        keeps_all(old, new),
        enum_cases_distinct(old),
        n <= old.enums.len(),
    ensures
        removed_or_changed_enums(old.enums, new, n) == Seq::<FindingView>::empty(),
    decreases n,
{
    if n > 0 {
        lemma_kept_enums(old, new, (n - 1) as nat);
        let e = old.enums[n - 1];
        assert(new.enum_def(e.name) == Some(e));
        assert(case_names(old.enums[n - 1].cases).no_duplicates());
        lemma_case_findings_same(is_event_name(e.name), e.name, e.cases, e.cases.len());
        lemma_added_cases_same(is_event_name(e.name), e.name, e.cases, e.cases.len());
        assert(enum_case_findings(e.name, e, e) =~= Seq::<FindingView>::empty());
        assert(removed_or_changed_enums(old.enums, new, n) =~= Seq::<FindingView>::empty());
    }
}

/// When the new interface keeps every function, struct and enum of the old
/// one unchanged, the direct findings are only additions, none critical.
proof fn lemma_additive_direct_findings(old: ContractSpecView, new: ContractSpecView)
    requires
        keeps_all(old, new),
        enum_cases_distinct(old),
    ensures
        direct_findings(old, new) == added_functions(new.functions, old, new.functions.len()) + added_structs(
            new.structs,
            old,
            new.structs.len(),
        ) + added_enums(new.enums, old, new.enums.len()),
        none_critical(direct_findings(old, new)),
{
    lemma_kept_functions(old, new, old.functions.len());
    lemma_kept_structs(old, new, old.structs.len());
    lemma_kept_enums(old, new, old.enums.len());
    let fa = added_functions(new.functions, old, new.functions.len());
    let sa = added_structs(new.structs, old, new.structs.len());
    let ea = added_enums(new.enums, old, new.enums.len());
    assert(direct_findings(old, new) =~= fa + sa + ea);
    lemma_added_functions_info(new.functions, old, new.functions.len());
    lemma_added_structs_info(new.structs, old, new.structs.len());
    lemma_added_enums_info(new.enums, old, new.enums.len());
    lemma_none_critical_add(fa, sa);
    lemma_none_critical_add(fa + sa, ea);
}

proof fn lemma_nothing_added_to_self(s: ContractSpecView, nf: nat, ns: nat, ne: nat)
    requires
        s.wf(),
        nf <= s.functions.len(),
        ns <= s.structs.len(),
        ne <= s.enums.len(),
    ensures
        added_functions(s.functions, s, nf) == Seq::<FindingView>::empty(),
        added_structs(s.structs, s, ns) == Seq::<FindingView>::empty(),
        added_enums(s.enums, s, ne) == Seq::<FindingView>::empty(),
    decreases nf + ns + ne,
{
    lemma_keeps_all_self(s);
    if nf > 0 {
        lemma_nothing_added_to_self(s, (nf - 1) as nat, ns, ne);
        assert(s.function(s.functions[nf - 1].name) is Some);
        assert(added_functions(s.functions, s, nf) =~= Seq::<FindingView>::empty());
    }
    if ns > 0 {
        lemma_nothing_added_to_self(s, nf, (ns - 1) as nat, ne);
        assert(s.struct_def(s.structs[ns - 1].name) is Some);
        assert(added_structs(s.structs, s, ns) =~= Seq::<FindingView>::empty());
    }
    if ne > 0 {
        lemma_nothing_added_to_self(s, nf, ns, (ne - 1) as nat);
        assert(s.enum_def(s.enums[ne - 1].name) is Some);
        assert(added_enums(s.enums, s, ne) =~= Seq::<FindingView>::empty());
    }
}

/// Comparing an interface with itself reports nothing: an upgrade that
/// keeps the same functions and types is safe. (Within an enum, case names
/// must be distinct: cases are matched by name.)
pub proof fn law_identical_interfaces_have_no_findings(s: ContractSpecView, report: Seq<FindingView>)
    requires
        s.wf(),
        enum_cases_distinct(s),
        cascade_extends(s, direct_findings(s, s), report),
    ensures
        report == Seq::<FindingView>::empty(),
{
    lemma_keeps_all_self(s);
    lemma_additive_direct_findings(s, s);
    law_untyped_findings_do_not_cascade(s, direct_findings(s, s), report);
    let fa = added_functions(s.functions, s, s.functions.len());
    let sa = added_structs(s.structs, s, s.structs.len());
    let ea = added_enums(s.enums, s, s.enums.len());
    lemma_nothing_added_to_self(s, s.functions.len(), s.structs.len(), s.enums.len());
    assert(fa + sa + ea =~= Seq::<FindingView>::empty());
    assert(direct_findings(s, s) =~= Seq::<FindingView>::empty());
}

/// Only critical findings that name a type start a cascade: when no
/// critical finding of `before` names a type, cascade detection adds nothing.
pub proof fn law_untyped_findings_do_not_cascade(
    spec: ContractSpecView,
    before: Seq<FindingView>,
    after: Seq<FindingView>,
)
    requires
        cascade_extends(spec, before, after),
        forall|k: int|
            0 <= k < before.len() ==> (#[trigger] before[k]).severity != Severity::Critical
                || before[k].affected_type is None,
    ensures
        after == before,
{
    let added = after.skip(before.len() as int);
    if added.len() > 0 {
        assert(cascade_step(spec, before, added, 0));
        let (t, p) = choose|t: Seq<char>, p: Seq<char>|
            #[trigger] cascading_break_finding(t, p) == added[0] && is_dependent(spec, p, t) && (is_broken(
                before,
                p,
            ) || exists|j: int| 0 <= j < 0 && #[trigger] added[j].affected_type == Some(p));
        assert(added[0].affected_type == Some(t));
        assert(cascade_reaches(spec, before, t));
        let c = choose|c: Seq<Seq<char>>|
            #[trigger] is_dependent_chain(spec, c) && c.len() >= 2 && is_broken(before, c[0]) && c.last() == t;
        let k = choose|k: int|
            0 <= k < before.len() && (#[trigger] before[k]).severity == Severity::Critical
                && before[k].affected_type == Some(c[0]);
        assert(false);
    }
    assert(after =~= after.take(before.len() as int));
}

/// Which types cascade depends only on the severity and the named type of
/// each finding, never on its category or message.
pub proof fn law_cascade_ignores_messages(
    spec: ContractSpecView,
    a: Seq<FindingView>,
    b: Seq<FindingView>,
    t: Seq<char>,
)
    requires
        a.len() == b.len(),
        forall|k: int|
            0 <= k < a.len() ==> (#[trigger] a[k]).severity == b[k].severity && a[k].affected_type
                == b[k].affected_type,
    ensures
        cascade_reaches(spec, a, t) == cascade_reaches(spec, b, t),
{
    assert forall|n: Seq<char>| is_broken(a, n) == is_broken(b, n) by {
        if is_broken(a, n) {
            let k = choose|k: int| 0 <= k < a.len() && (#[trigger] a[k]).severity == Severity::Critical && a[k].affected_type == Some(n);
            assert(b[k].severity == Severity::Critical);
        }
        if is_broken(b, n) {
            let k = choose|k: int| 0 <= k < b.len() && (#[trigger] b[k]).severity == Severity::Critical && b[k].affected_type == Some(n);
            assert(a[k].severity == Severity::Critical);
        }
    }
}

/// The critical, warning and informational findings together are all the findings.
pub proof fn law_severity_counts_sum(fs: Seq<FindingView>)
    ensures
        count_severity(fs, Severity::Critical) + count_severity(fs, Severity::Warning) + count_severity(
            fs,
            Severity::Info,
        ) == fs.len(),
    decreases fs.len(),
{
    if fs.len() > 0 {
        law_severity_counts_sum(fs.drop_last());
    }
}

/// A report has no critical finding exactly when its critical count is zero.
pub proof fn law_no_critical_iff_zero_count(fs: Seq<FindingView>)
    ensures
        count_severity(fs, Severity::Critical) == 0 <==> forall|k: int| 0 <= k < fs.len() ==> (#[trigger] fs[k]).severity != Severity::Critical,
    decreases fs.len(),
{
    if fs.len() > 0 {
        law_no_critical_iff_zero_count(fs.drop_last());
        assert forall|k: int| 0 <= k < fs.len() - 1 implies fs.drop_last()[k] == #[trigger] fs[k] by {}
        if count_severity(fs, Severity::Critical) == 0 {
            assert forall|k: int| 0 <= k < fs.len() implies (#[trigger] fs[k]).severity != Severity::Critical by {
                if k < fs.len() - 1 {
                    assert(fs.drop_last()[k] == fs[k]);
                }
            }
        }
        if forall|k: int| 0 <= k < fs.len() ==> (#[trigger] fs[k]).severity != Severity::Critical {
            assert forall|k: int| 0 <= k < fs.drop_last().len() implies (#[trigger] fs.drop_last()[k]).severity != Severity::Critical by {
                assert(fs.drop_last()[k] == fs[k]);
            }
            assert(fs.last() == fs[fs.len() - 1]);
        }
    }
}

} // verus!
