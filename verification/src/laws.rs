use vstd::prelude::*;

use crate::contract::{enum_names, function_names, struct_names, union_names, ContractSpecView};
use crate::diff::{
    added_cases, added_enums, added_functions, added_structs, appended_fields, cascade_extends, cascade_step,
    direct_findings, enum_case_findings, enum_findings, function_findings, old_enum_findings, old_function_findings,
    old_struct_findings, param_findings, positional_fields, removed_fields, removed_or_changed_cases,
    removed_or_changed_enums, removed_or_changed_functions, removed_or_changed_structs, return_findings,
    signature_findings, struct_field_findings, struct_findings,
};
use crate::finding::{
    cascading_break_finding, category_severity, count_severity, enum_added_finding, enum_removed_finding,
    function_added_finding, function_removed_finding, is_function_category, lemma_findings_well_classified,
    struct_added_finding, struct_removed_finding, well_classified, FindingView, Severity,
};
use crate::model::{EnumCaseView, EnumView, FunctionInputView, FunctionView, StructFieldView, StructView, TypeView};

verus! {

// ---------------------------------------------------------------------------
// Every reported finding is classified by its category
// ---------------------------------------------------------------------------

/// Every finding of `fs` is well classified.
pub open spec fn all_well_classified(fs: Seq<FindingView>) -> bool {
    forall|k: int| 0 <= k < fs.len() ==> #[trigger] well_classified(fs[k])
}

proof fn lemma_wc_add(a: Seq<FindingView>, b: Seq<FindingView>)
    requires
        all_well_classified(a),
        all_well_classified(b),
    ensures
        all_well_classified(a + b),
{
    assert forall|k: int| 0 <= k < (a + b).len() implies #[trigger] well_classified((a + b)[k]) by {
        if k < a.len() {
            assert((a + b)[k] == a[k]);
        } else {
            assert((a + b)[k] == b[k - a.len()]);
        }
    }
}

proof fn lemma_wc_one(f: FindingView)
    requires
        well_classified(f),
    ensures
        all_well_classified(seq![f]),
        all_well_classified(Seq::<FindingView>::empty()),
{
    assert(seq![f][0] == f);
}

proof fn lemma_param_findings_wc(name: Seq<char>, a: Seq<FunctionInputView>, b: Seq<FunctionInputView>, n: nat)
    ensures
        all_well_classified(param_findings(name, a, b, n)),
    decreases n,
{
    lemma_findings_well_classified();
    if n > 0 {
        let i = (n - 1) as nat;
        lemma_param_findings_wc(name, a, b, i);
        lemma_wc_one(crate::finding::param_renamed_finding(name, i, a[i as int].name, b[i as int].name));
        lemma_wc_one(
            crate::finding::param_type_changed_finding(name, i, a[i as int].name, a[i as int].ty, b[i as int].ty),
        );
        let x = if a[i as int].name != b[i as int].name {
            seq![crate::finding::param_renamed_finding(name, i, a[i as int].name, b[i as int].name)]
        } else {
            Seq::<FindingView>::empty()
        };
        let y = if a[i as int].ty != b[i as int].ty {
            seq![crate::finding::param_type_changed_finding(name, i, a[i as int].name, a[i as int].ty, b[i as int].ty)]
        } else {
            Seq::<FindingView>::empty()
        };
        lemma_wc_add(param_findings(name, a, b, i), x);
        lemma_wc_add(param_findings(name, a, b, i) + x, y);
    }
}

proof fn lemma_return_findings_wc(name: Seq<char>, a: Seq<TypeView>, b: Seq<TypeView>, n: nat)
    ensures
        all_well_classified(return_findings(name, a, b, n)),
    decreases n,
{
    lemma_findings_well_classified();
    if n > 0 {
        let i = (n - 1) as nat;
        lemma_return_findings_wc(name, a, b, i);
        lemma_wc_one(crate::finding::return_type_changed_finding(name, i, a[i as int], b[i as int]));
        let x = if a[i as int] != b[i as int] {
            seq![crate::finding::return_type_changed_finding(name, i, a[i as int], b[i as int])]
        } else {
            Seq::<FindingView>::empty()
        };
        lemma_wc_add(return_findings(name, a, b, i), x);
    }
}

proof fn lemma_functions_wc(old: ContractSpecView, new: ContractSpecView, n: nat, m: nat)
    ensures
        all_well_classified(removed_or_changed_functions(old.functions, new, n)),
        all_well_classified(added_functions(new.functions, old, m)),
    decreases n + m,
{
    lemma_findings_well_classified();
    if n > 0 {
        lemma_functions_wc(old, new, (n - 1) as nat, m);
        let f = old.functions[n - 1];
        let x = old_function_findings(f, new);
        match new.function(f.name) {
            None => {
                lemma_wc_one(crate::finding::function_removed_finding(f.name));
            },
            Some(g) => {
                if f.inputs.len() != g.inputs.len() {
                    lemma_wc_one(crate::finding::param_count_changed_finding(f.name, f.inputs.len(), g.inputs.len()));
                } else {
                    lemma_param_findings_wc(f.name, f.inputs, g.inputs, f.inputs.len());
                    lemma_return_findings_wc(f.name, f.outputs, g.outputs, f.outputs.len());
                    lemma_wc_one(
                        crate::finding::return_count_changed_finding(f.name, f.outputs.len(), g.outputs.len()),
                    );
                    let r = if f.outputs.len() != g.outputs.len() {
                        seq![crate::finding::return_count_changed_finding(f.name, f.outputs.len(), g.outputs.len())]
                    } else {
                        return_findings(f.name, f.outputs, g.outputs, f.outputs.len())
                    };
                    lemma_wc_add(param_findings(f.name, f.inputs, g.inputs, f.inputs.len()), r);
                }
            },
        }
        lemma_wc_add(removed_or_changed_functions(old.functions, new, (n - 1) as nat), x);
    }
    if m > 0 {
        lemma_functions_wc(old, new, n, (m - 1) as nat);
        let g = new.functions[m - 1];
        lemma_wc_one(crate::finding::function_added_finding(g.name));
        let x = if old.function(g.name) is None {
            seq![crate::finding::function_added_finding(g.name)]
        } else {
            Seq::<FindingView>::empty()
        };
        lemma_wc_add(added_functions(new.functions, old, (m - 1) as nat), x);
    }
}

proof fn lemma_field_findings_wc(name: Seq<char>, s: StructView, t: StructView, n: nat)
    ensures
        all_well_classified(removed_fields(crate::text::is_event_name(name), name, s.fields, t.fields, n)),
        all_well_classified(positional_fields(crate::text::is_event_name(name), name, s.fields, t.fields, n)),
        all_well_classified(appended_fields(name, t.fields, s.fields.len(), n)),
    decreases n,
{
    lemma_findings_well_classified();
    let evt = crate::text::is_event_name(name);
    let a = s.fields;
    let b = t.fields;
    if n > 0 {
        let i = (n - 1) as nat;
        lemma_field_findings_wc(name, s, t, i);
        lemma_wc_one(crate::finding::field_removed_finding(evt, name, a[i as int].name));
        let x = if !crate::diff::field_names(b).contains(a[i as int].name) {
            seq![crate::finding::field_removed_finding(evt, name, a[i as int].name)]
        } else {
            Seq::<FindingView>::empty()
        };
        lemma_wc_add(removed_fields(evt, name, a, b, i), x);
        lemma_wc_one(crate::finding::field_reordered_finding(evt, name, i, a[i as int].name, b[i as int].name));
        lemma_wc_one(
            crate::finding::field_type_changed_finding(evt, name, a[i as int].name, i, a[i as int].ty, b[i as int].ty),
        );
        let y = if a[i as int].name != b[i as int].name {
            seq![crate::finding::field_reordered_finding(evt, name, i, a[i as int].name, b[i as int].name)]
        } else {
            Seq::<FindingView>::empty()
        };
        let z = if a[i as int].ty != b[i as int].ty {
            seq![crate::finding::field_type_changed_finding(evt, name, a[i as int].name, i, a[i as int].ty, b[i as int].ty)]
        } else {
            Seq::<FindingView>::empty()
        };
        lemma_wc_add(positional_fields(evt, name, a, b, i), y);
        lemma_wc_add(positional_fields(evt, name, a, b, i) + y, z);
        lemma_wc_one(crate::finding::field_added_finding(name, b[i as int].name));
        if n > a.len() {
            lemma_wc_add(appended_fields(name, b, a.len(), i), seq![crate::finding::field_added_finding(name, b[i as int].name)]);
        }
    }
}

proof fn lemma_structs_wc(old: ContractSpecView, new: ContractSpecView, n: nat, m: nat)
    ensures
        all_well_classified(removed_or_changed_structs(old.structs, new, n)),
        all_well_classified(added_structs(new.structs, old, m)),
    decreases n + m,
{
    lemma_findings_well_classified();
    if n > 0 {
        lemma_structs_wc(old, new, (n - 1) as nat, m);
        let s = old.structs[n - 1];
        let x = old_struct_findings(s, new);
        match new.struct_def(s.name) {
            None => {
                lemma_wc_one(crate::finding::struct_removed_finding(crate::text::is_event_name(s.name), s.name));
            },
            Some(t) => {
                let evt = crate::text::is_event_name(s.name);
                let a = s.fields;
                let b = t.fields;
                let k = if a.len() <= b.len() { a.len() } else { b.len() };
                lemma_field_findings_wc(s.name, s, t, a.len());
                lemma_field_findings_wc(s.name, s, t, k);
                lemma_field_findings_wc(s.name, s, t, b.len());
                lemma_wc_one(crate::finding::field_added_finding(s.name, s.name));
                let r = if b.len() > a.len() {
                    appended_fields(s.name, b, a.len(), b.len())
                } else {
                    Seq::<FindingView>::empty()
                };
                lemma_wc_add(removed_fields(evt, s.name, a, b, a.len()), positional_fields(evt, s.name, a, b, k));
                lemma_wc_add(removed_fields(evt, s.name, a, b, a.len()) + positional_fields(evt, s.name, a, b, k), r);
            },
        }
        lemma_wc_add(removed_or_changed_structs(old.structs, new, (n - 1) as nat), x);
    }
    if m > 0 {
        lemma_structs_wc(old, new, n, (m - 1) as nat);
        let t = new.structs[m - 1];
        lemma_wc_one(crate::finding::struct_added_finding(t.name));
        let x = if old.struct_def(t.name) is None {
            seq![crate::finding::struct_added_finding(t.name)]
        } else {
            Seq::<FindingView>::empty()
        };
        lemma_wc_add(added_structs(new.structs, old, (m - 1) as nat), x);
    }
}

proof fn lemma_cases_wc(name: Seq<char>, e: EnumView, f: EnumView, n: nat, m: nat)
    ensures
        all_well_classified(removed_or_changed_cases(crate::text::is_event_name(name), name, e.cases, f.cases, n)),
        all_well_classified(added_cases(crate::text::is_event_name(name), name, e.cases, f.cases, m)),
    decreases n + m,
{
    lemma_findings_well_classified();
    let evt = crate::text::is_event_name(name);
    let a = e.cases;
    let b = f.cases;
    if n > 0 {
        lemma_cases_wc(name, e, f, (n - 1) as nat, m);
        let c = a[n - 1];
        let x = match crate::diff::first_case_named(b, c.name) {
            None => seq![crate::finding::case_removed_finding(evt, name, c.name, c.value as nat)],
            Some(d) => if c.value != d.value {
                seq![crate::finding::case_value_changed_finding(evt, name, c.name, c.value as nat, d.value as nat)]
            } else {
                Seq::empty()
            },
        };
        lemma_wc_one(crate::finding::case_removed_finding(evt, name, c.name, c.value as nat));
        match crate::diff::first_case_named(b, c.name) {
            None => {},
            Some(d) => {
                lemma_wc_one(
                    crate::finding::case_value_changed_finding(evt, name, c.name, c.value as nat, d.value as nat),
                );
            },
        }
        lemma_wc_add(removed_or_changed_cases(evt, name, a, b, (n - 1) as nat), x);
    }
    if m > 0 {
        lemma_cases_wc(name, e, f, n, (m - 1) as nat);
        let d = b[m - 1];
        lemma_wc_one(crate::finding::case_added_finding(evt, name, d.name, d.value as nat));
        let x = if !crate::diff::case_names(a).contains(d.name) {
            seq![crate::finding::case_added_finding(evt, name, d.name, d.value as nat)]
        } else {
            Seq::<FindingView>::empty()
        };
        lemma_wc_add(added_cases(evt, name, a, b, (m - 1) as nat), x);
    }
}

proof fn lemma_enums_wc(old: ContractSpecView, new: ContractSpecView, n: nat, m: nat)
    ensures
        all_well_classified(removed_or_changed_enums(old.enums, new, n)),
        all_well_classified(added_enums(new.enums, old, m)),
    decreases n + m,
{
    lemma_findings_well_classified();
    if n > 0 {
        lemma_enums_wc(old, new, (n - 1) as nat, m);
        let e = old.enums[n - 1];
        let x = old_enum_findings(e, new);
        match new.enum_def(e.name) {
            None => {
                lemma_wc_one(crate::finding::enum_removed_finding(crate::text::is_event_name(e.name), e.name));
            },
            Some(f) => {
                lemma_cases_wc(e.name, e, f, e.cases.len(), f.cases.len());
                lemma_wc_add(
                    removed_or_changed_cases(crate::text::is_event_name(e.name), e.name, e.cases, f.cases, e.cases.len()),
                    added_cases(crate::text::is_event_name(e.name), e.name, e.cases, f.cases, f.cases.len()),
                );
            },
        }
        lemma_wc_add(removed_or_changed_enums(old.enums, new, (n - 1) as nat), x);
    }
    if m > 0 {
        lemma_enums_wc(old, new, n, (m - 1) as nat);
        let f = new.enums[m - 1];
        lemma_wc_one(crate::finding::enum_added_finding(f.name));
        let x = if old.enum_def(f.name) is None {
            seq![crate::finding::enum_added_finding(f.name)]
        } else {
            Seq::<FindingView>::empty()
        };
        lemma_wc_add(added_enums(new.enums, old, (m - 1) as nat), x);
    }
}

/// Every direct finding is well classified.
proof fn lemma_direct_findings_wc(old: ContractSpecView, new: ContractSpecView)
    ensures
        all_well_classified(direct_findings(old, new)),
{
    lemma_functions_wc(old, new, old.functions.len(), new.functions.len());
    lemma_structs_wc(old, new, old.structs.len(), new.structs.len());
    lemma_enums_wc(old, new, old.enums.len(), new.enums.len());
    lemma_wc_add(
        removed_or_changed_functions(old.functions, new, old.functions.len()),
        added_functions(new.functions, old, new.functions.len()),
    );
    lemma_wc_add(
        removed_or_changed_structs(old.structs, new, old.structs.len()),
        added_structs(new.structs, old, new.structs.len()),
    );
    lemma_wc_add(
        removed_or_changed_enums(old.enums, new, old.enums.len()),
        added_enums(new.enums, old, new.enums.len()),
    );
    lemma_wc_add(function_findings(old, new), struct_findings(old, new));
    lemma_wc_add(function_findings(old, new) + struct_findings(old, new), enum_findings(old, new));
}

/// Every finding of a comparison report is well classified.
proof fn lemma_report_wc(old: ContractSpecView, new: ContractSpecView, report: Seq<FindingView>)
    requires
        cascade_extends(old, direct_findings(old, new), report),
    ensures
        all_well_classified(report),
{
    lemma_findings_well_classified();
    lemma_direct_findings_wc(old, new);
    let before = direct_findings(old, new);
    let added = report.skip(before.len() as int);
    assert forall|k: int| 0 <= k < added.len() implies #[trigger] well_classified(added[k]) by {
        assert(cascade_step(old, before, added, k));
        let (t, p) = choose|t: Seq<char>, p: Seq<char>|
            #[trigger] cascading_break_finding(t, p) == added[k] && crate::mapper::is_dependent(old, p, t) && (
            crate::diff::is_broken(before, p) || exists|j: int| 0 <= j < k && #[trigger] added[j].affected_type == Some(p));
        assert(well_classified(cascading_break_finding(t, p)));
    }
    assert(report =~= before + added);
    lemma_wc_add(before, added);
}

/// Every finding of a comparison report carries the severity of its
/// category: a warning for a renamed parameter or an appended struct field,
/// information for a new function, struct, enum or enum case, and critical
/// for every other category.
pub proof fn law_severity_follows_category(old: ContractSpecView, new: ContractSpecView, report: Seq<FindingView>)
    requires
        cascade_extends(old, direct_findings(old, new), report),
    ensures
        forall|k: int| 0 <= k < report.len() ==> (#[trigger] report[k]).severity == category_severity(report[k].category),
{
    lemma_report_wc(old, new, report);
    assert forall|k: int| 0 <= k < report.len() implies (#[trigger] report[k]).severity == category_severity(
        report[k].category,
    ) by {
        assert(well_classified(report[k]));
    }
}

/// A finding of a comparison report names no type exactly when it is about
/// a function (removed, added, or with a changed signature).
pub proof fn law_type_named_unless_function(old: ContractSpecView, new: ContractSpecView, report: Seq<FindingView>)
    requires
        cascade_extends(old, direct_findings(old, new), report),
    ensures
        forall|k: int| 0 <= k < report.len() ==> ((#[trigger] report[k]).affected_type is None <==> is_function_category(report[k].category)),
{
    lemma_report_wc(old, new, report);
    assert forall|k: int| 0 <= k < report.len() implies ((#[trigger] report[k]).affected_type is None <==> is_function_category(report[k].category)) by {
        assert(well_classified(report[k]));
    }
}

// ---------------------------------------------------------------------------
// An upgrade that only adds is safe
// ---------------------------------------------------------------------------

/// `new` extends `old`: every function of `old` is in `new` unchanged,
/// every struct of `old` is in `new` with the old fields as its first fields,
/// and every enum of `old` is in `new` with each old case and its value.
pub open spec fn extends_all(old: ContractSpecView, new: ContractSpecView) -> bool {
    &&& forall|i: int| 0 <= i < old.functions.len() ==> new.function(#[trigger] old.functions[i].name) == Some(old.functions[i])
    &&& forall|i: int| 0 <= i < old.structs.len() ==> {
        let s = #[trigger] old.structs[i];
        new.struct_def(s.name) is Some && s.fields.is_prefix_of(new.struct_def(s.name).unwrap().fields)
    }
    &&& forall|i: int| 0 <= i < old.enums.len() ==> {
        let e = #[trigger] old.enums[i];
        new.enum_def(e.name) is Some && forall|j: int| 0 <= j < e.cases.len() ==> new.enum_def(e.name).unwrap().cases.contains(#[trigger] e.cases[j])
    }
}

/// A finding that records an addition: informational, or the warning for an
/// appended struct field.
pub open spec fn is_addition(f: FindingView) -> bool {
    f.severity == Severity::Info || (f.severity == Severity::Warning && f.category == "Struct Field Added"@)
}

/// Every finding of `fs` records an addition.
pub open spec fn all_additions(fs: Seq<FindingView>) -> bool {
    forall|k: int| 0 <= k < fs.len() ==> #[trigger] is_addition(fs[k])
}

proof fn lemma_add_add(a: Seq<FindingView>, b: Seq<FindingView>)
    requires
        all_additions(a),
        all_additions(b),
    ensures
        all_additions(a + b),
{
    assert forall|k: int| 0 <= k < (a + b).len() implies #[trigger] is_addition((a + b)[k]) by {
        if k < a.len() {
            assert((a + b)[k] == a[k]);
        } else {
            assert((a + b)[k] == b[k - a.len()]);
        }
    }
}

proof fn lemma_add_one(f: FindingView)
    requires
        is_addition(f),
    ensures
        all_additions(seq![f]),
        all_additions(Seq::<FindingView>::empty()),
{
    assert(seq![f][0] == f);
}

proof fn lemma_extending_functions(old: ContractSpecView, new: ContractSpecView, n: nat, m: nat)
    requires
        extends_all(old, new),
        n <= old.functions.len(),
    ensures
        removed_or_changed_functions(old.functions, new, n) == Seq::<FindingView>::empty(),
        all_additions(added_functions(new.functions, old, m)),
    decreases n + m,
{
    if n > 0 {
        lemma_extending_functions(old, new, (n - 1) as nat, m);
        let f = old.functions[n - 1];
        assert(new.function(f.name) == Some(f));
        crate::diff::lemma_param_findings_same(f.name, f.inputs, f.inputs.len());
        crate::diff::lemma_return_findings_same(f.name, f.outputs, f.outputs.len());
        assert(signature_findings(f.name, f, f) =~= Seq::<FindingView>::empty());
        assert(removed_or_changed_functions(old.functions, new, n) =~= Seq::<FindingView>::empty());
    }
    if m > 0 {
        lemma_extending_functions(old, new, n, (m - 1) as nat);
        let g = new.functions[m - 1];
        lemma_add_one(crate::finding::function_added_finding(g.name));
        let x = if old.function(g.name) is None {
            seq![crate::finding::function_added_finding(g.name)]
        } else {
            Seq::<FindingView>::empty()
        };
        lemma_add_add(added_functions(new.functions, old, (m - 1) as nat), x);
    }
}

proof fn lemma_prefix_fields(
    evt: bool,
    name: Seq<char>,
    a: Seq<StructFieldView>,
    b: Seq<StructFieldView>,
    n: nat,
)
    requires
        a.is_prefix_of(b),
        n <= a.len(),
    ensures
        removed_fields(evt, name, a, b, n) == Seq::<FindingView>::empty(),
        positional_fields(evt, name, a, b, n) == Seq::<FindingView>::empty(),
    decreases n,
{
    if n > 0 {
        lemma_prefix_fields(evt, name, a, b, (n - 1) as nat);
        assert(a[n - 1] == b.subrange(0, a.len() as int)[n - 1]);
        assert(b[n - 1] == a[n - 1]);
        assert(crate::diff::field_names(b)[n - 1] == a[n - 1].name);
        assert(removed_fields(evt, name, a, b, n) =~= Seq::<FindingView>::empty());
        assert(positional_fields(evt, name, a, b, n) =~= Seq::<FindingView>::empty());
    }
}

proof fn lemma_appended_additions(name: Seq<char>, b: Seq<StructFieldView>, from: nat, n: nat)
    ensures
        all_additions(appended_fields(name, b, from, n)),
    decreases n,
{
    if n > from {
        lemma_appended_additions(name, b, from, (n - 1) as nat);
        reveal_strlit("Struct Field Added");
        lemma_add_one(crate::finding::field_added_finding(name, b[n - 1].name));
        lemma_add_add(
            appended_fields(name, b, from, (n - 1) as nat),
            seq![crate::finding::field_added_finding(name, b[n - 1].name)],
        );
    }
}

proof fn lemma_extending_structs(old: ContractSpecView, new: ContractSpecView, n: nat, m: nat)
    requires
        extends_all(old, new),
        n <= old.structs.len(),
    ensures
        all_additions(removed_or_changed_structs(old.structs, new, n)),
        all_additions(added_structs(new.structs, old, m)),
    decreases n + m,
{
    if n > 0 {
        lemma_extending_structs(old, new, (n - 1) as nat, m);
        let s = old.structs[n - 1];
        let t = new.struct_def(s.name).unwrap();
        let evt = crate::text::is_event_name(s.name);
        lemma_prefix_fields(evt, s.name, s.fields, t.fields, s.fields.len());
        lemma_appended_additions(s.name, t.fields, s.fields.len(), t.fields.len());
        lemma_add_one(crate::finding::struct_added_finding(s.name));
        let r = if t.fields.len() > s.fields.len() {
            appended_fields(s.name, t.fields, s.fields.len(), t.fields.len())
        } else {
            Seq::<FindingView>::empty()
        };
        assert(struct_field_findings(s.name, s, t) =~= r);
        lemma_add_add(removed_or_changed_structs(old.structs, new, (n - 1) as nat), r);
    }
    if m > 0 {
        lemma_extending_structs(old, new, n, (m - 1) as nat);
        let t = new.structs[m - 1];
        lemma_add_one(crate::finding::struct_added_finding(t.name));
        let x = if old.struct_def(t.name) is None {
            seq![crate::finding::struct_added_finding(t.name)]
        } else {
            Seq::<FindingView>::empty()
        };
        lemma_add_add(added_structs(new.structs, old, (m - 1) as nat), x);
    }
}

proof fn lemma_kept_cases(evt: bool, name: Seq<char>, a: Seq<EnumCaseView>, b: Seq<EnumCaseView>, n: nat)
    requires
        crate::diff::case_names(b).no_duplicates(),
        forall|j: int| 0 <= j < a.len() ==> b.contains(#[trigger] a[j]),
        n <= a.len(),
    ensures
        removed_or_changed_cases(evt, name, a, b, n) == Seq::<FindingView>::empty(),
    decreases n,
{
    if n > 0 {
        lemma_kept_cases(evt, name, a, b, (n - 1) as nat);
        let c = a[n - 1];
        assert(b.contains(c));
        let idx = choose|idx: int| 0 <= idx < b.len() && b[idx] == c;
        crate::diff::lemma_first_case_named_distinct(b, idx);
        assert(removed_or_changed_cases(evt, name, a, b, n) =~= Seq::<FindingView>::empty());
    }
}

proof fn lemma_added_case_additions(evt: bool, name: Seq<char>, a: Seq<EnumCaseView>, b: Seq<EnumCaseView>, m: nat)
    ensures
        all_additions(added_cases(evt, name, a, b, m)),
    decreases m,
{
    if m > 0 {
        lemma_added_case_additions(evt, name, a, b, (m - 1) as nat);
        let d = b[m - 1];
        lemma_add_one(crate::finding::case_added_finding(evt, name, d.name, d.value as nat));
        let x = if !crate::diff::case_names(a).contains(d.name) {
            seq![crate::finding::case_added_finding(evt, name, d.name, d.value as nat)]
        } else {
            Seq::<FindingView>::empty()
        };
        lemma_add_add(added_cases(evt, name, a, b, (m - 1) as nat), x);
    }
}

proof fn lemma_extending_enums(old: ContractSpecView, new: ContractSpecView, n: nat, m: nat)
    requires
        extends_all(old, new),
        crate::diff::enum_cases_distinct(new),
        n <= old.enums.len(),
    ensures
        all_additions(removed_or_changed_enums(old.enums, new, n)),
        all_additions(added_enums(new.enums, old, m)),
    decreases n + m,
{
    if n > 0 {
        lemma_extending_enums(old, new, (n - 1) as nat, m);
        let e = old.enums[n - 1];
        let f = new.enum_def(e.name).unwrap();
        let evt = crate::text::is_event_name(e.name);
        let ni = crate::contract::enum_names(new.enums).index_of(e.name);
        assert(crate::contract::enum_names(new.enums)[ni] == e.name);
        assert(f == new.enums[ni]);
        assert(crate::diff::case_names(new.enums[ni].cases).no_duplicates());
        assert forall|j: int| 0 <= j < e.cases.len() implies f.cases.contains(#[trigger] e.cases[j]) by {
            assert(old.enums[n - 1] == e);
        }
        lemma_kept_cases(evt, e.name, e.cases, f.cases, e.cases.len());
        lemma_added_case_additions(evt, e.name, e.cases, f.cases, f.cases.len());
        assert(enum_case_findings(e.name, e, f) =~= added_cases(evt, e.name, e.cases, f.cases, f.cases.len()));
        lemma_add_add(removed_or_changed_enums(old.enums, new, (n - 1) as nat), enum_case_findings(e.name, e, f));
    }
    if m > 0 {
        lemma_extending_enums(old, new, n, (m - 1) as nat);
        let f = new.enums[m - 1];
        lemma_add_one(crate::finding::enum_added_finding(f.name));
        let x = if old.enum_def(f.name) is None {
            seq![crate::finding::enum_added_finding(f.name)]
        } else {
            Seq::<FindingView>::empty()
        };
        lemma_add_add(added_enums(new.enums, old, (m - 1) as nat), x);
    }
}

/// An upgrade that only adds (new functions, structs, enums and enum cases,
/// and fields appended after a struct's existing fields), keeping every old
/// function, field and case as it was, reports only additions: information,
/// and warnings for the appended fields. Nothing is critical and nothing
/// cascades, so the upgrade counts as safe. (Within each new enum, case
/// names must be distinct: cases are matched by name.)
pub proof fn law_additive_upgrade_is_safe(old: ContractSpecView, new: ContractSpecView, report: Seq<FindingView>)
    requires
        extends_all(old, new),
        crate::diff::enum_cases_distinct(new),
        cascade_extends(old, direct_findings(old, new), report),
    ensures
        report == direct_findings(old, new),
        all_additions(report),
        count_severity(report, Severity::Critical) == 0,
{
    lemma_extending_functions(old, new, old.functions.len(), new.functions.len());
    lemma_extending_structs(old, new, old.structs.len(), new.structs.len());
    lemma_extending_enums(old, new, old.enums.len(), new.enums.len());
    assert(function_findings(old, new) =~= added_functions(new.functions, old, new.functions.len()));
    lemma_add_add(
        removed_or_changed_structs(old.structs, new, old.structs.len()),
        added_structs(new.structs, old, new.structs.len()),
    );
    lemma_add_add(
        removed_or_changed_enums(old.enums, new, old.enums.len()),
        added_enums(new.enums, old, new.enums.len()),
    );
    lemma_add_add(function_findings(old, new), struct_findings(old, new));
    lemma_add_add(function_findings(old, new) + struct_findings(old, new), enum_findings(old, new));
    let d = direct_findings(old, new);
    assert forall|k: int| 0 <= k < d.len() implies (#[trigger] d[k]).severity != Severity::Critical
        || d[k].affected_type is None by {
        assert(is_addition(d[k]));
    }
    crate::diff::law_untyped_findings_do_not_cascade(old, d, report);
    crate::diff::law_no_critical_iff_zero_count(report);
    assert forall|k: int| 0 <= k < report.len() implies (#[trigger] report[k]).severity != Severity::Critical by {
        assert(is_addition(report[k]));
    }
}

// ---------------------------------------------------------------------------
// A removal one way is an addition the other way
// ---------------------------------------------------------------------------

/// The findings of `fs` whose category is in `cats`, in order.
pub open spec fn findings_in(fs: Seq<FindingView>, cats: Set<Seq<char>>) -> Seq<FindingView>
    decreases fs.len(),
{
    if fs.len() == 0 {
        Seq::empty()
    } else {
        findings_in(fs.drop_last(), cats) + (if cats.contains(fs.last().category) {
            seq![fs.last()]
        } else {
            Seq::empty()
        })
    }
}

/// The names of `names` that `others` lacks, in order.
pub open spec fn names_missing(names: Seq<Seq<char>>, others: Seq<Seq<char>>) -> Seq<Seq<char>>
    decreases names.len(),
{
    if names.len() == 0 {
        Seq::empty()
    } else {
        names_missing(names.drop_last(), others) + (if others.contains(names.last()) {
            Seq::empty()
        } else {
            seq![names.last()]
        })
    }
}

/// Every finding of `fs` has a category in `cats`.
pub open spec fn categories_within(fs: Seq<FindingView>, cats: Set<Seq<char>>) -> bool {
    forall|k: int| 0 <= k < fs.len() ==> cats.contains(#[trigger] fs[k].category)
}

proof fn lemma_findings_in_add(a: Seq<FindingView>, b: Seq<FindingView>, cats: Set<Seq<char>>)
    ensures
        findings_in(a + b, cats) == findings_in(a, cats) + findings_in(b, cats),
    decreases b.len(),
{
    if b.len() == 0 {
        assert(a + b =~= a);
        assert(findings_in(a, cats) + findings_in(b, cats) =~= findings_in(a, cats));
    } else {
        lemma_findings_in_add(a, b.drop_last(), cats);
        assert((a + b).drop_last() =~= a + b.drop_last());
        assert((a + b).last() == b.last());
        let t = if cats.contains(b.last().category) {
            seq![b.last()]
        } else {
            Seq::<FindingView>::empty()
        };
        assert(findings_in(a, cats) + findings_in(b.drop_last(), cats) + t =~= findings_in(a, cats) + (
        findings_in(b.drop_last(), cats) + t));
    }
}

proof fn lemma_findings_in_none(fs: Seq<FindingView>, cats: Set<Seq<char>>, allowed: Set<Seq<char>>)
    requires
        categories_within(fs, allowed),
        allowed.disjoint(cats),
    ensures
        findings_in(fs, cats) == Seq::<FindingView>::empty(),
    decreases fs.len(),
{
    if fs.len() > 0 {
        assert forall|k: int| 0 <= k < fs.drop_last().len() implies allowed.contains(
            #[trigger] fs.drop_last()[k].category,
        ) by {
            assert(fs.drop_last()[k] == fs[k]);
        }
        lemma_findings_in_none(fs.drop_last(), cats, allowed);
        assert(allowed.contains(fs[fs.len() - 1].category));
        assert(findings_in(fs, cats) =~= Seq::<FindingView>::empty());
    }
}

proof fn lemma_findings_in_one(f: FindingView, cats: Set<Seq<char>>)
    requires
        cats.contains(f.category),
    ensures
        findings_in(seq![f], cats) == seq![f],
{
    assert(seq![f].drop_last() =~= Seq::<FindingView>::empty());
    assert(seq![f].last() == f);
    assert(findings_in(seq![f].drop_last(), cats) =~= Seq::<FindingView>::empty());
    assert(findings_in(seq![f], cats) =~= seq![f]);
}

proof fn lemma_within_add(a: Seq<FindingView>, b: Seq<FindingView>, cats: Set<Seq<char>>)
    requires
        categories_within(a, cats),
        categories_within(b, cats),
    ensures
        categories_within(a + b, cats),
{
    assert forall|k: int| 0 <= k < (a + b).len() implies cats.contains(#[trigger] (a + b)[k].category) by {
        if k < a.len() {
            assert((a + b)[k] == a[k]);
        } else {
            assert((a + b)[k] == b[k - a.len()]);
        }
    }
}

proof fn lemma_within_one(f: FindingView, cats: Set<Seq<char>>)
    requires
        cats.contains(f.category),
    ensures
        categories_within(seq![f], cats),
        categories_within(Seq::<FindingView>::empty(), cats),
{
    assert(seq![f][0] == f);
}

proof fn lemma_within_grow(fs: Seq<FindingView>, a: Set<Seq<char>>, b: Set<Seq<char>>)
    requires
        categories_within(fs, a),
        a.subset_of(b),
    ensures
        categories_within(fs, b),
{
    assert forall|k: int| 0 <= k < fs.len() implies b.contains(#[trigger] fs[k].category) by {
        assert(a.contains(fs[k].category));
    }
}

/// Membership and distinctness of the missing names.
pub proof fn lemma_names_missing(names: Seq<Seq<char>>, others: Seq<Seq<char>>)
    ensures
        forall|n: Seq<char>| #[trigger] names_missing(names, others).contains(n) <==> names.contains(n) && !others.contains(n),
        names.no_duplicates() ==> names_missing(names, others).no_duplicates(),
    decreases names.len(),
{
    if names.len() > 0 {
        let p = names.drop_last();
        lemma_names_missing(p, others);
        let x = names.last();
        let t = if others.contains(x) { Seq::<Seq<char>>::empty() } else { seq![x] };
        let m = names_missing(names, others);
        assert(m == names_missing(p, others) + t);
        assert forall|n: Seq<char>| #[trigger] m.contains(n) <==> names.contains(n) && !others.contains(n) by {
            if m.contains(n) {
                let k = choose|k: int| 0 <= k < m.len() && m[k] == n;
                if k < names_missing(p, others).len() {
                    assert(names_missing(p, others)[k] == n);
                    assert(names_missing(p, others).contains(n));
                    assert(p.contains(n));
                    let j = choose|j: int| 0 <= j < p.len() && p[j] == n;
                    assert(names[j] == n);
                } else {
                    assert(t[k - names_missing(p, others).len()] == n);
                    assert(names[names.len() - 1] == n);
                    assert(!others.contains(n));
                }
            }
            if names.contains(n) && !others.contains(n) {
                let j = choose|j: int| 0 <= j < names.len() && names[j] == n;
                if j < names.len() - 1 {
                    assert(p[j] == n);
                    assert(names_missing(p, others).contains(n));
                    let k = choose|k: int| 0 <= k < names_missing(p, others).len() && names_missing(p, others)[k] == n;
                    assert(m[k] == n);
                } else {
                    assert(m[m.len() - 1] == n);
                }
            }
        }
        if names.no_duplicates() {
            assert(p.no_duplicates()) by {
                assert forall|i: int, j: int| 0 <= i < p.len() && 0 <= j < p.len() && i != j implies p[i] != p[j] by {
                    assert(p[i] == names[i] && p[j] == names[j]);
                }
            }
            assert(!p.contains(x)) by {
                if p.contains(x) {
                    let j = choose|j: int| 0 <= j < p.len() && p[j] == x;
                    assert(names[j] == names[names.len() - 1]);
                }
            }
            let q = names_missing(p, others);
            assert forall|i: int, j: int| 0 <= i < m.len() && 0 <= j < m.len() && i != j implies m[i] != m[j] by {
                if i < q.len() && j < q.len() {
                    assert(m[i] == q[i] && m[j] == q[j]);
                } else if i >= q.len() && j >= q.len() {
                } else if i < q.len() {
                    assert(m[i] == q[i]);
                    assert(q.contains(q[i]));
                    assert(m[j] == x);
                } else {
                    assert(m[j] == q[j]);
                    assert(q.contains(q[j]));
                    assert(m[i] == x);
                }
            }
        }
    }
}

/// The categories of findings about a function kept with another signature.
pub open spec fn signature_categories() -> Set<Seq<char>> {
    set!["Function Signature Changed"@, "Parameter Renamed"@, "Parameter Type Changed"@, "Return Type Changed"@]
}

proof fn lemma_signature_within(name: Seq<char>, f: FunctionView, g: FunctionView)
    ensures
        categories_within(signature_findings(name, f, g), signature_categories()),
{
    let c = signature_categories();
    lemma_within_one(crate::finding::param_count_changed_finding(name, f.inputs.len(), g.inputs.len()), c);
    if f.inputs.len() == g.inputs.len() {
        lemma_param_within(name, f.inputs, g.inputs, f.inputs.len());
        lemma_return_within(name, f.outputs, g.outputs, f.outputs.len());
        lemma_within_one(crate::finding::return_count_changed_finding(name, f.outputs.len(), g.outputs.len()), c);
        let r = if f.outputs.len() != g.outputs.len() {
            seq![crate::finding::return_count_changed_finding(name, f.outputs.len(), g.outputs.len())]
        } else {
            return_findings(name, f.outputs, g.outputs, f.outputs.len())
        };
        lemma_within_add(param_findings(name, f.inputs, g.inputs, f.inputs.len()), r, c);
    }
}

proof fn lemma_param_within(name: Seq<char>, a: Seq<FunctionInputView>, b: Seq<FunctionInputView>, n: nat)
    ensures
        categories_within(param_findings(name, a, b, n), signature_categories()),
    decreases n,
{
    let c = signature_categories();
    if n > 0 {
        let i = (n - 1) as nat;
        lemma_param_within(name, a, b, i);
        lemma_within_one(crate::finding::param_renamed_finding(name, i, a[i as int].name, b[i as int].name), c);
        lemma_within_one(
            crate::finding::param_type_changed_finding(name, i, a[i as int].name, a[i as int].ty, b[i as int].ty),
            c,
        );
        let x = if a[i as int].name != b[i as int].name {
            seq![crate::finding::param_renamed_finding(name, i, a[i as int].name, b[i as int].name)]
        } else {
            Seq::<FindingView>::empty()
        };
        let y = if a[i as int].ty != b[i as int].ty {
            seq![crate::finding::param_type_changed_finding(name, i, a[i as int].name, a[i as int].ty, b[i as int].ty)]
        } else {
            Seq::<FindingView>::empty()
        };
        lemma_within_add(param_findings(name, a, b, i), x, c);
        lemma_within_add(param_findings(name, a, b, i) + x, y, c);
    } else {
        lemma_within_one(crate::finding::param_count_changed_finding(name, 0, 0), c);
    }
}

proof fn lemma_return_within(name: Seq<char>, a: Seq<TypeView>, b: Seq<TypeView>, n: nat)
    ensures
        categories_within(return_findings(name, a, b, n), signature_categories()),
    decreases n,
{
    let c = signature_categories();
    if n > 0 {
        let i = (n - 1) as nat;
        lemma_return_within(name, a, b, i);
        lemma_within_one(crate::finding::return_type_changed_finding(name, i, a[i as int], b[i as int]), c);
        let x = if a[i as int] != b[i as int] {
            seq![crate::finding::return_type_changed_finding(name, i, a[i as int], b[i as int])]
        } else {
            Seq::<FindingView>::empty()
        };
        lemma_within_add(return_findings(name, a, b, i), x, c);
    } else {
        lemma_within_one(crate::finding::param_count_changed_finding(name, 0, 0), c);
    }
}

/// The categories of the functions found on one side only.
proof fn lemma_function_sides_within(a: ContractSpecView, b: ContractSpecView, n: nat, m: nat)
    ensures
        categories_within(
            removed_or_changed_functions(a.functions, b, n),
            signature_categories().insert("Function Removed"@),
        ),
        categories_within(added_functions(b.functions, a, m), set!["Function Added"@]),
    decreases n + m,
{
    let c = signature_categories().insert("Function Removed"@);
    if n > 0 {
        lemma_function_sides_within(a, b, (n - 1) as nat, m);
        let f = a.functions[n - 1];
        lemma_within_one(crate::finding::function_removed_finding(f.name), c);
        match b.function(f.name) {
            None => {},
            Some(g) => {
                lemma_signature_within(f.name, f, g);
                lemma_within_grow(signature_findings(f.name, f, g), signature_categories(), c);
            },
        }
        lemma_within_add(removed_or_changed_functions(a.functions, b, (n - 1) as nat), old_function_findings(f, b), c);
    } else {
        lemma_within_one(crate::finding::function_removed_finding(Seq::empty()), c);
    }
    if m > 0 {
        lemma_function_sides_within(a, b, n, (m - 1) as nat);
        let g = b.functions[m - 1];
        lemma_within_one(crate::finding::function_added_finding(g.name), set!["Function Added"@]);
        let x = if a.function(g.name) is None {
            seq![crate::finding::function_added_finding(g.name)]
        } else {
            Seq::<FindingView>::empty()
        };
        lemma_within_add(added_functions(b.functions, a, (m - 1) as nat), x, set!["Function Added"@]);
    } else {
        lemma_within_one(crate::finding::function_added_finding(Seq::empty()), set!["Function Added"@]);
    }
}

proof fn lemma_functions_mirror(a: ContractSpecView, b: ContractSpecView, n: nat)
    requires
        n <= a.functions.len(),
    ensures
        ({
            let m = names_missing(function_names(a.functions).take(n as int), function_names(b.functions));
            let r = findings_in(removed_or_changed_functions(a.functions, b, n), set!["Function Removed"@]);
            let s = findings_in(added_functions(a.functions, b, n), set!["Function Added"@]);
            &&& r.len() == m.len()
            &&& s.len() == m.len()
            &&& forall|k: int|
                0 <= k < m.len() ==> r[k] == function_removed_finding(#[trigger] m[k]) && s[k]
                    == function_added_finding(m[k])
        }),
    decreases n,
{
    crate::finding::lemma_category_literals();
    let rm = set!["Function Removed"@];
    let ad = set!["Function Added"@];
    let names = function_names(a.functions).take(n as int);
    let on = function_names(b.functions);
    if n == 0 {
        assert(names =~= Seq::<Seq<char>>::empty());
    } else {
        lemma_functions_mirror(a, b, (n - 1) as nat);
        let f = a.functions[n - 1];
        assert(names.drop_last() =~= function_names(a.functions).take(n - 1));
        assert(names.last() == f.name);
        let pr = removed_or_changed_functions(a.functions, b, (n - 1) as nat);
        let pa = added_functions(a.functions, b, (n - 1) as nat);
        lemma_findings_in_add(pr, old_function_findings(f, b), rm);
        if on.contains(f.name) {
            let g = b.function(f.name).unwrap();
            lemma_signature_within(f.name, f, g);
            assert forall|x: Seq<char>| signature_categories().contains(x) implies !rm.contains(x) by {}
            lemma_findings_in_none(signature_findings(f.name, f, g), rm, signature_categories());
            lemma_findings_in_add(pa, Seq::<FindingView>::empty(), ad);
            assert(pa + Seq::<FindingView>::empty() =~= pa);
            assert(names_missing(names, on) =~= names_missing(names.drop_last(), on));
            assert(findings_in(Seq::<FindingView>::empty(), ad) =~= Seq::<FindingView>::empty());
            assert(findings_in(pr, rm) + Seq::<FindingView>::empty() =~= findings_in(pr, rm));
            assert(findings_in(pa, ad) + Seq::<FindingView>::empty() =~= findings_in(pa, ad));
        } else {
            lemma_findings_in_one(function_removed_finding(f.name), rm);
            lemma_findings_in_one(function_added_finding(f.name), ad);
            lemma_findings_in_add(pa, seq![function_added_finding(f.name)], ad);
            assert(names_missing(names, on) =~= names_missing(names.drop_last(), on).push(f.name));
        }
    }
}

/// Comparing in both directions: the functions reported removed from `a` to
/// `b` are those reported added from `b` to `a`, one finding each, in the
/// same order. They are the functions of `a` that `b` lacks
/// (`lemma_names_missing` gives the membership), each once when `a` is well
/// formed.
pub proof fn law_function_removals_mirror_additions(a: ContractSpecView, b: ContractSpecView)
    ensures
        ({
            let m = names_missing(function_names(a.functions), function_names(b.functions));
            let r = findings_in(function_findings(a, b), set!["Function Removed"@]);
            let s = findings_in(function_findings(b, a), set!["Function Added"@]);
            &&& r.len() == m.len()
            &&& s.len() == m.len()
            &&& forall|k: int|
                0 <= k < m.len() ==> r[k] == function_removed_finding(#[trigger] m[k]) && s[k]
                    == function_added_finding(m[k])
            &&& a.wf() ==> m.no_duplicates()
        }),
{
    crate::finding::lemma_category_literals();
    let rm = set!["Function Removed"@];
    let ad = set!["Function Added"@];
    lemma_functions_mirror(a, b, a.functions.len());
    assert(function_names(a.functions).take(a.functions.len() as int) =~= function_names(a.functions));
    lemma_names_missing(function_names(a.functions), function_names(b.functions));
    lemma_function_sides_within(a, b, 0, b.functions.len());
    lemma_function_sides_within(b, a, b.functions.len(), 0);
    let x = added_functions(b.functions, a, b.functions.len());
    let y = removed_or_changed_functions(b.functions, a, b.functions.len());
    assert forall|z: Seq<char>| set!["Function Added"@].contains(z) implies !rm.contains(z) by {}
    assert forall|z: Seq<char>| signature_categories().insert("Function Removed"@).contains(z) implies !ad.contains(z) by {}
    lemma_findings_in_none(x, rm, set!["Function Added"@]);
    lemma_findings_in_none(y, ad, signature_categories().insert("Function Removed"@));
    lemma_findings_in_add(removed_or_changed_functions(a.functions, b, a.functions.len()), x, rm);
    lemma_findings_in_add(y, added_functions(a.functions, b, a.functions.len()), ad);
    assert(findings_in(removed_or_changed_functions(a.functions, b, a.functions.len()), rm) + Seq::<FindingView>::empty()
        =~= findings_in(removed_or_changed_functions(a.functions, b, a.functions.len()), rm));
    assert(Seq::<FindingView>::empty() + findings_in(added_functions(a.functions, b, a.functions.len()), ad)
        =~= findings_in(added_functions(a.functions, b, a.functions.len()), ad));
}

/// The categories of findings about a struct kept with other fields.
pub open spec fn field_categories() -> Set<Seq<char>> {
    set![
        "Event Schema Removed"@,
        "Struct Field Removed"@,
        "Event Schema Reordered"@,
        "Struct Field Reordered"@,
        "Event Schema Type Changed"@,
        "Struct Field Type Changed"@,
        "Struct Field Added"@,
    ]
}

proof fn lemma_fields_within(name: Seq<char>, a: Seq<StructFieldView>, b: Seq<StructFieldView>, from: nat, n: nat)
    ensures
        categories_within(removed_fields(crate::text::is_event_name(name), name, a, b, n), field_categories()),
        categories_within(positional_fields(crate::text::is_event_name(name), name, a, b, n), field_categories()),
        categories_within(appended_fields(name, b, from, n), field_categories()),
    decreases n,
{
    let c = field_categories();
    let evt = crate::text::is_event_name(name);
    lemma_within_one(crate::finding::field_added_finding(name, name), c);
    if n > 0 {
        let i = (n - 1) as nat;
        lemma_fields_within(name, a, b, from, i);
        lemma_within_one(crate::finding::field_removed_finding(evt, name, a[i as int].name), c);
        let x = if !crate::diff::field_names(b).contains(a[i as int].name) {
            seq![crate::finding::field_removed_finding(evt, name, a[i as int].name)]
        } else {
            Seq::<FindingView>::empty()
        };
        lemma_within_add(removed_fields(evt, name, a, b, i), x, c);
        lemma_within_one(crate::finding::field_reordered_finding(evt, name, i, a[i as int].name, b[i as int].name), c);
        lemma_within_one(
            crate::finding::field_type_changed_finding(evt, name, a[i as int].name, i, a[i as int].ty, b[i as int].ty),
            c,
        );
        let y = if a[i as int].name != b[i as int].name {
            seq![crate::finding::field_reordered_finding(evt, name, i, a[i as int].name, b[i as int].name)]
        } else {
            Seq::<FindingView>::empty()
        };
        let z = if a[i as int].ty != b[i as int].ty {
            seq![crate::finding::field_type_changed_finding(evt, name, a[i as int].name, i, a[i as int].ty, b[i as int].ty)]
        } else {
            Seq::<FindingView>::empty()
        };
        lemma_within_add(positional_fields(evt, name, a, b, i), y, c);
        lemma_within_add(positional_fields(evt, name, a, b, i) + y, z, c);
        lemma_within_one(crate::finding::field_added_finding(name, b[i as int].name), c);
        if n > from {
            lemma_within_add(appended_fields(name, b, from, i), seq![crate::finding::field_added_finding(name, b[i as int].name)], c);
        }
    }
}

proof fn lemma_struct_fields_within(name: Seq<char>, s: StructView, t: StructView)
    ensures
        categories_within(struct_field_findings(name, s, t), field_categories()),
{
    let evt = crate::text::is_event_name(name);
    let a = s.fields;
    let b = t.fields;
    let k = if a.len() <= b.len() { a.len() } else { b.len() };
    lemma_fields_within(name, a, b, a.len(), a.len());
    lemma_fields_within(name, a, b, a.len(), k);
    lemma_fields_within(name, a, b, a.len(), b.len());
    lemma_within_one(crate::finding::field_added_finding(name, name), field_categories());
    let r = if b.len() > a.len() {
        appended_fields(name, b, a.len(), b.len())
    } else {
        Seq::<FindingView>::empty()
    };
    lemma_within_add(removed_fields(evt, name, a, b, a.len()), positional_fields(evt, name, a, b, k), field_categories());
    lemma_within_add(removed_fields(evt, name, a, b, a.len()) + positional_fields(evt, name, a, b, k), r, field_categories());
}

/// The categories of the structs found on one side only.
proof fn lemma_struct_sides_within(a: ContractSpecView, b: ContractSpecView, n: nat, m: nat)
    ensures
        categories_within(
            removed_or_changed_structs(a.structs, b, n),
            field_categories().insert("Struct Removed"@).insert("Event Definition Removed"@),
        ),
        categories_within(added_structs(b.structs, a, m), set!["Struct Added"@]),
    decreases n + m,
{
    let c = field_categories().insert("Struct Removed"@).insert("Event Definition Removed"@);
    if n > 0 {
        lemma_struct_sides_within(a, b, (n - 1) as nat, m);
        let st = a.structs[n - 1];
        lemma_within_one(crate::finding::struct_removed_finding(crate::text::is_event_name(st.name), st.name), c);
        match b.struct_def(st.name) {
            None => {},
            Some(t) => {
                lemma_struct_fields_within(st.name, st, t);
                lemma_within_grow(struct_field_findings(st.name, st, t), field_categories(), c);
            },
        }
        lemma_within_add(removed_or_changed_structs(a.structs, b, (n - 1) as nat), old_struct_findings(st, b), c);
    } else {
        lemma_within_one(crate::finding::struct_removed_finding(false, Seq::empty()), c);
    }
    if m > 0 {
        lemma_struct_sides_within(a, b, n, (m - 1) as nat);
        let t = b.structs[m - 1];
        lemma_within_one(crate::finding::struct_added_finding(t.name), set!["Struct Added"@]);
        let x = if a.struct_def(t.name) is None {
            seq![crate::finding::struct_added_finding(t.name)]
        } else {
            Seq::<FindingView>::empty()
        };
        lemma_within_add(added_structs(b.structs, a, (m - 1) as nat), x, set!["Struct Added"@]);
    } else {
        lemma_within_one(crate::finding::struct_added_finding(Seq::empty()), set!["Struct Added"@]);
    }
}

/// The categories of struct removals.
pub open spec fn struct_removal_categories() -> Set<Seq<char>> {
    set!["Struct Removed"@, "Event Definition Removed"@]
}

/// The categories of struct findings that the two directions keep apart.
proof fn lemma_struct_categories_apart()
    ensures
        field_categories().disjoint(struct_removal_categories()),
        set!["Struct Added"@].disjoint(struct_removal_categories()),
        field_categories().insert("Struct Removed"@).insert("Event Definition Removed"@).disjoint(set!["Struct Added"@]),
{
    crate::finding::lemma_category_literals();
}

proof fn lemma_structs_mirror(a: ContractSpecView, b: ContractSpecView, n: nat)
    requires
        n <= a.structs.len(),
    ensures
        ({
            let m = names_missing(struct_names(a.structs).take(n as int), struct_names(b.structs));
            let r = findings_in(removed_or_changed_structs(a.structs, b, n), struct_removal_categories());
            let s = findings_in(added_structs(a.structs, b, n), set!["Struct Added"@]);
            &&& r.len() == m.len()
            &&& s.len() == m.len()
            &&& forall|k: int|
                0 <= k < m.len() ==> r[k] == struct_removed_finding(crate::text::is_event_name(#[trigger] m[k]), m[k])
                    && s[k] == struct_added_finding(m[k])
        }),
    decreases n,
{
    lemma_struct_categories_apart();
    let rm = struct_removal_categories();
    let ad = set!["Struct Added"@];
    let names = struct_names(a.structs).take(n as int);
    let on = struct_names(b.structs);
    if n == 0 {
        assert(names =~= Seq::<Seq<char>>::empty());
    } else {
        lemma_structs_mirror(a, b, (n - 1) as nat);
        let st = a.structs[n - 1];
        assert(names.drop_last() =~= struct_names(a.structs).take(n - 1));
        assert(names.last() == st.name);
        let pr = removed_or_changed_structs(a.structs, b, (n - 1) as nat);
        let pa = added_structs(a.structs, b, (n - 1) as nat);
        lemma_findings_in_add(pr, old_struct_findings(st, b), rm);
        if on.contains(st.name) {
            let t = b.struct_def(st.name).unwrap();
            lemma_struct_fields_within(st.name, st, t);
            lemma_findings_in_none(struct_field_findings(st.name, st, t), rm, field_categories());
            lemma_findings_in_add(pa, Seq::<FindingView>::empty(), ad);
            assert(pa + Seq::<FindingView>::empty() =~= pa);
            assert(names_missing(names, on) =~= names_missing(names.drop_last(), on));
            assert(findings_in(Seq::<FindingView>::empty(), ad) =~= Seq::<FindingView>::empty());
            assert(findings_in(pr, rm) + Seq::<FindingView>::empty() =~= findings_in(pr, rm));
            assert(findings_in(pa, ad) + Seq::<FindingView>::empty() =~= findings_in(pa, ad));
        } else {
            lemma_findings_in_one(struct_removed_finding(crate::text::is_event_name(st.name), st.name), rm);
            lemma_findings_in_one(struct_added_finding(st.name), ad);
            lemma_findings_in_add(pa, seq![struct_added_finding(st.name)], ad);
            assert(names_missing(names, on) =~= names_missing(names.drop_last(), on).push(st.name));
        }
    }
}

/// Comparing in both directions: the structs reported removed from `a` to
/// `b` (as "Struct Removed", or "Event Definition Removed" for an event
/// type) are those reported added from `b` to `a`, one finding each, in the
/// same order, each naming its struct. They are the structs of `a` that `b`
/// lacks (`lemma_names_missing` gives the membership), each once when `a`
/// is well formed.
pub proof fn law_struct_removals_mirror_additions(a: ContractSpecView, b: ContractSpecView)
    ensures
        ({
            let m = names_missing(struct_names(a.structs), struct_names(b.structs));
            let r = findings_in(struct_findings(a, b), struct_removal_categories());
            let s = findings_in(struct_findings(b, a), set!["Struct Added"@]);
            &&& r.len() == m.len()
            &&& s.len() == m.len()
            &&& forall|k: int|
                0 <= k < m.len() ==> r[k] == struct_removed_finding(crate::text::is_event_name(#[trigger] m[k]), m[k])
                    && s[k] == struct_added_finding(m[k])
            &&& a.wf() ==> m.no_duplicates()
        }),
{
    lemma_struct_categories_apart();
    let rm = struct_removal_categories();
    let ad = set!["Struct Added"@];
    lemma_structs_mirror(a, b, a.structs.len());
    assert(struct_names(a.structs).take(a.structs.len() as int) =~= struct_names(a.structs));
    lemma_names_missing(struct_names(a.structs), struct_names(b.structs));
    lemma_struct_sides_within(a, b, 0, b.structs.len());
    lemma_struct_sides_within(b, a, b.structs.len(), 0);
    let x = added_structs(b.structs, a, b.structs.len());
    let y = removed_or_changed_structs(b.structs, a, b.structs.len());
    let c = field_categories().insert("Struct Removed"@).insert("Event Definition Removed"@);
    lemma_findings_in_none(x, rm, set!["Struct Added"@]);
    lemma_findings_in_none(y, ad, c);
    lemma_findings_in_add(removed_or_changed_structs(a.structs, b, a.structs.len()), x, rm);
    lemma_findings_in_add(y, added_structs(a.structs, b, a.structs.len()), ad);
    assert(findings_in(removed_or_changed_structs(a.structs, b, a.structs.len()), rm) + Seq::<FindingView>::empty()
        =~= findings_in(removed_or_changed_structs(a.structs, b, a.structs.len()), rm));
    assert(Seq::<FindingView>::empty() + findings_in(added_structs(a.structs, b, a.structs.len()), ad)
        =~= findings_in(added_structs(a.structs, b, a.structs.len()), ad));
}

/// The categories of findings about an enum kept with other cases.
pub open spec fn case_categories() -> Set<Seq<char>> {
    set![
        "Event Enum Case Removed"@,
        "Enum Case Removed"@,
        "Event Enum Case Value Changed"@,
        "Enum Case Value Changed"@,
        "Event Enum Case Added"@,
        "Enum Case Added"@,
    ]
}

/// The categories of enum removals.
pub open spec fn enum_removal_categories() -> Set<Seq<char>> {
    set!["Enum Removed"@, "Event Enum Removed"@]
}

proof fn lemma_cases_within(name: Seq<char>, e: EnumView, f: EnumView, n: nat, m: nat)
    ensures
        categories_within(removed_or_changed_cases(crate::text::is_event_name(name), name, e.cases, f.cases, n), case_categories()),
        categories_within(added_cases(crate::text::is_event_name(name), name, e.cases, f.cases, m), case_categories()),
    decreases n + m,
{
    let c = case_categories();
    let evt = crate::text::is_event_name(name);
    let a = e.cases;
    let b = f.cases;
    lemma_within_one(crate::finding::case_added_finding(evt, name, name, 0), c);
    if n > 0 {
        lemma_cases_within(name, e, f, (n - 1) as nat, m);
        let cs = a[n - 1];
        let x = match crate::diff::first_case_named(b, cs.name) {
            None => seq![crate::finding::case_removed_finding(evt, name, cs.name, cs.value as nat)],
            Some(d) => if cs.value != d.value {
                seq![crate::finding::case_value_changed_finding(evt, name, cs.name, cs.value as nat, d.value as nat)]
            } else {
                Seq::empty()
            },
        };
        lemma_within_one(crate::finding::case_removed_finding(evt, name, cs.name, cs.value as nat), c);
        match crate::diff::first_case_named(b, cs.name) {
            None => {},
            Some(d) => {
                lemma_within_one(
                    crate::finding::case_value_changed_finding(evt, name, cs.name, cs.value as nat, d.value as nat),
                    c,
                );
            },
        }
        lemma_within_add(removed_or_changed_cases(evt, name, a, b, (n - 1) as nat), x, c);
    }
    if m > 0 {
        lemma_cases_within(name, e, f, n, (m - 1) as nat);
        let d = b[m - 1];
        lemma_within_one(crate::finding::case_added_finding(evt, name, d.name, d.value as nat), c);
        let x = if !crate::diff::case_names(a).contains(d.name) {
            seq![crate::finding::case_added_finding(evt, name, d.name, d.value as nat)]
        } else {
            Seq::<FindingView>::empty()
        };
        lemma_within_add(added_cases(evt, name, a, b, (m - 1) as nat), x, c);
    }
}

/// The categories of the enums found on one side only.
proof fn lemma_enum_sides_within(a: ContractSpecView, b: ContractSpecView, n: nat, m: nat)
    ensures
        categories_within(
            removed_or_changed_enums(a.enums, b, n),
            case_categories().insert("Enum Removed"@).insert("Event Enum Removed"@),
        ),
        categories_within(added_enums(b.enums, a, m), set!["Enum Added"@]),
    decreases n + m,
{
    let c = case_categories().insert("Enum Removed"@).insert("Event Enum Removed"@);
    if n > 0 {
        lemma_enum_sides_within(a, b, (n - 1) as nat, m);
        let e = a.enums[n - 1];
        lemma_within_one(crate::finding::enum_removed_finding(crate::text::is_event_name(e.name), e.name), c);
        match b.enum_def(e.name) {
            None => {},
            Some(f) => {
                let evt = crate::text::is_event_name(e.name);
                lemma_cases_within(e.name, e, f, e.cases.len(), f.cases.len());
                lemma_within_add(
                    removed_or_changed_cases(evt, e.name, e.cases, f.cases, e.cases.len()),
                    added_cases(evt, e.name, e.cases, f.cases, f.cases.len()),
                    case_categories(),
                );
                lemma_within_grow(enum_case_findings(e.name, e, f), case_categories(), c);
            },
        }
        lemma_within_add(removed_or_changed_enums(a.enums, b, (n - 1) as nat), old_enum_findings(e, b), c);
    } else {
        lemma_within_one(crate::finding::enum_removed_finding(false, Seq::empty()), c);
    }
    if m > 0 {
        lemma_enum_sides_within(a, b, n, (m - 1) as nat);
        let f = b.enums[m - 1];
        lemma_within_one(crate::finding::enum_added_finding(f.name), set!["Enum Added"@]);
        let x = if a.enum_def(f.name) is None {
            seq![crate::finding::enum_added_finding(f.name)]
        } else {
            Seq::<FindingView>::empty()
        };
        lemma_within_add(added_enums(b.enums, a, (m - 1) as nat), x, set!["Enum Added"@]);
    } else {
        lemma_within_one(crate::finding::enum_added_finding(Seq::empty()), set!["Enum Added"@]);
    }
}

/// The categories of enum findings that the two directions keep apart.
proof fn lemma_enum_categories_apart()
    ensures
        case_categories().disjoint(enum_removal_categories()),
        set!["Enum Added"@].disjoint(enum_removal_categories()),
        case_categories().insert("Enum Removed"@).insert("Event Enum Removed"@).disjoint(set!["Enum Added"@]),
{
    crate::finding::lemma_category_literals();
}

proof fn lemma_enums_mirror(a: ContractSpecView, b: ContractSpecView, n: nat)
    requires
        n <= a.enums.len(),
    ensures
        ({
            let m = names_missing(enum_names(a.enums).take(n as int), enum_names(b.enums));
            let r = findings_in(removed_or_changed_enums(a.enums, b, n), enum_removal_categories());
            let s = findings_in(added_enums(a.enums, b, n), set!["Enum Added"@]);
            &&& r.len() == m.len()
            &&& s.len() == m.len()
            &&& forall|k: int|
                0 <= k < m.len() ==> r[k] == enum_removed_finding(crate::text::is_event_name(#[trigger] m[k]), m[k])
                    && s[k] == enum_added_finding(m[k])
        }),
    decreases n,
{
    lemma_enum_categories_apart();
    let rm = enum_removal_categories();
    let ad = set!["Enum Added"@];
    let names = enum_names(a.enums).take(n as int);
    let on = enum_names(b.enums);
    if n == 0 {
        assert(names =~= Seq::<Seq<char>>::empty());
    } else {
        lemma_enums_mirror(a, b, (n - 1) as nat);
        let e = a.enums[n - 1];
        assert(names.drop_last() =~= enum_names(a.enums).take(n - 1));
        assert(names.last() == e.name);
        let pr = removed_or_changed_enums(a.enums, b, (n - 1) as nat);
        let pa = added_enums(a.enums, b, (n - 1) as nat);
        lemma_findings_in_add(pr, old_enum_findings(e, b), rm);
        if on.contains(e.name) {
            let f = b.enum_def(e.name).unwrap();
            let evt = crate::text::is_event_name(e.name);
            lemma_cases_within(e.name, e, f, e.cases.len(), f.cases.len());
            lemma_within_add(
                removed_or_changed_cases(evt, e.name, e.cases, f.cases, e.cases.len()),
                added_cases(evt, e.name, e.cases, f.cases, f.cases.len()),
                case_categories(),
            );
            lemma_findings_in_none(enum_case_findings(e.name, e, f), rm, case_categories());
            lemma_findings_in_add(pa, Seq::<FindingView>::empty(), ad);
            assert(pa + Seq::<FindingView>::empty() =~= pa);
            assert(names_missing(names, on) =~= names_missing(names.drop_last(), on));
            assert(findings_in(Seq::<FindingView>::empty(), ad) =~= Seq::<FindingView>::empty());
            assert(findings_in(pr, rm) + Seq::<FindingView>::empty() =~= findings_in(pr, rm));
            assert(findings_in(pa, ad) + Seq::<FindingView>::empty() =~= findings_in(pa, ad));
        } else {
            lemma_findings_in_one(enum_removed_finding(crate::text::is_event_name(e.name), e.name), rm);
            lemma_findings_in_one(enum_added_finding(e.name), ad);
            lemma_findings_in_add(pa, seq![enum_added_finding(e.name)], ad);
            assert(names_missing(names, on) =~= names_missing(names.drop_last(), on).push(e.name));
        }
    }
}

/// Comparing in both directions: the enums reported removed from `a` to
/// `b` (as "Enum Removed", or "Event Enum Removed" for an event type) are
/// those reported added from `b` to `a`, one finding each, in the same
/// order, each naming its enum. They are the enums of `a` that `b` lacks
/// (`lemma_names_missing` gives the membership), each once when `a` is well
/// formed.
pub proof fn law_enum_removals_mirror_additions(a: ContractSpecView, b: ContractSpecView)
    ensures
        ({
            let m = names_missing(enum_names(a.enums), enum_names(b.enums));
            let r = findings_in(enum_findings(a, b), enum_removal_categories());
            let s = findings_in(enum_findings(b, a), set!["Enum Added"@]);
            &&& r.len() == m.len()
            &&& s.len() == m.len()
            &&& forall|k: int|
                0 <= k < m.len() ==> r[k] == enum_removed_finding(crate::text::is_event_name(#[trigger] m[k]), m[k])
                    && s[k] == enum_added_finding(m[k])
            &&& a.wf() ==> m.no_duplicates()
        }),
{
    lemma_enum_categories_apart();
    let rm = enum_removal_categories();
    let ad = set!["Enum Added"@];
    lemma_enums_mirror(a, b, a.enums.len());
    assert(enum_names(a.enums).take(a.enums.len() as int) =~= enum_names(a.enums));
    lemma_names_missing(enum_names(a.enums), enum_names(b.enums));
    lemma_enum_sides_within(a, b, 0, b.enums.len());
    lemma_enum_sides_within(b, a, b.enums.len(), 0);
    let x = added_enums(b.enums, a, b.enums.len());
    let y = removed_or_changed_enums(b.enums, a, b.enums.len());
    let c = case_categories().insert("Enum Removed"@).insert("Event Enum Removed"@);
    lemma_findings_in_none(x, rm, set!["Enum Added"@]);
    lemma_findings_in_none(y, ad, c);
    lemma_findings_in_add(removed_or_changed_enums(a.enums, b, a.enums.len()), x, rm);
    lemma_findings_in_add(y, added_enums(a.enums, b, a.enums.len()), ad);
    assert(findings_in(removed_or_changed_enums(a.enums, b, a.enums.len()), rm) + Seq::<FindingView>::empty()
        =~= findings_in(removed_or_changed_enums(a.enums, b, a.enums.len()), rm));
    assert(Seq::<FindingView>::empty() + findings_in(added_enums(a.enums, b, a.enums.len()), ad)
        =~= findings_in(added_enums(a.enums, b, a.enums.len()), ad));
}

// ---------------------------------------------------------------------------
// The types that findings name exist
// ---------------------------------------------------------------------------

/// `n` is a struct or enum of either interface, or a union of the old one.
pub open spec fn known_type(old: ContractSpecView, new: ContractSpecView, n: Seq<char>) -> bool {
    ||| struct_names(old.structs).contains(n)
    ||| struct_names(new.structs).contains(n)
    ||| enum_names(old.enums).contains(n)
    ||| enum_names(new.enums).contains(n)
    ||| union_names(old.unions).contains(n)
}

/// Every finding of `fs` that names a type names a known one.
pub open spec fn names_known(fs: Seq<FindingView>, old: ContractSpecView, new: ContractSpecView) -> bool {
    forall|k: int|
        0 <= k < fs.len() && (#[trigger] fs[k]).affected_type is Some ==> known_type(old, new, fs[k].affected_type.unwrap())
}

/// Every finding of `fs` names the type `n`.
pub open spec fn all_name(fs: Seq<FindingView>, n: Seq<char>) -> bool {
    forall|k: int| 0 <= k < fs.len() ==> (#[trigger] fs[k]).affected_type == Some(n)
}

proof fn lemma_known_add(a: Seq<FindingView>, b: Seq<FindingView>, old: ContractSpecView, new: ContractSpecView)
    requires
        names_known(a, old, new),
        names_known(b, old, new),
    ensures
        names_known(a + b, old, new),
{
    assert forall|k: int| 0 <= k < (a + b).len() && (#[trigger] (a + b)[k]).affected_type is Some implies known_type(
        old,
        new,
        (a + b)[k].affected_type.unwrap(),
    ) by {
        if k < a.len() {
            assert((a + b)[k] == a[k]);
        } else {
            assert((a + b)[k] == b[k - a.len()]);
        }
    }
}

proof fn lemma_all_name_add(a: Seq<FindingView>, b: Seq<FindingView>, n: Seq<char>)
    requires
        all_name(a, n),
        all_name(b, n),
    ensures
        all_name(a + b, n),
{
    assert forall|k: int| 0 <= k < (a + b).len() implies (#[trigger] (a + b)[k]).affected_type == Some(n) by {
        if k < a.len() {
            assert((a + b)[k] == a[k]);
        } else {
            assert((a + b)[k] == b[k - a.len()]);
        }
    }
}

proof fn lemma_all_name_one(f: FindingView, n: Seq<char>)
    requires
        f.affected_type == Some(n),
    ensures
        all_name(seq![f], n),
        all_name(Seq::<FindingView>::empty(), n),
{
    assert(seq![f][0] == f);
}

proof fn lemma_all_name_known(fs: Seq<FindingView>, n: Seq<char>, old: ContractSpecView, new: ContractSpecView)
    requires
        all_name(fs, n),
        known_type(old, new, n),
    ensures
        names_known(fs, old, new),
{
    assert forall|k: int| 0 <= k < fs.len() && (#[trigger] fs[k]).affected_type is Some implies known_type(
        old,
        new,
        fs[k].affected_type.unwrap(),
    ) by {
        assert(fs[k].affected_type == Some(n));
    }
}

proof fn lemma_fields_name(name: Seq<char>, a: Seq<StructFieldView>, b: Seq<StructFieldView>, from: nat, n: nat)
    ensures
        all_name(removed_fields(crate::text::is_event_name(name), name, a, b, n), name),
        all_name(positional_fields(crate::text::is_event_name(name), name, a, b, n), name),
        all_name(appended_fields(name, b, from, n), name),
    decreases n,
{
    let evt = crate::text::is_event_name(name);
    lemma_all_name_one(crate::finding::field_added_finding(name, name), name);
    if n > 0 {
        let i = (n - 1) as nat;
        lemma_fields_name(name, a, b, from, i);
        lemma_all_name_one(crate::finding::field_removed_finding(evt, name, a[i as int].name), name);
        let x = if !crate::diff::field_names(b).contains(a[i as int].name) {
            seq![crate::finding::field_removed_finding(evt, name, a[i as int].name)]
        } else {
            Seq::<FindingView>::empty()
        };
        lemma_all_name_add(removed_fields(evt, name, a, b, i), x, name);
        lemma_all_name_one(crate::finding::field_reordered_finding(evt, name, i, a[i as int].name, b[i as int].name), name);
        lemma_all_name_one(
            crate::finding::field_type_changed_finding(evt, name, a[i as int].name, i, a[i as int].ty, b[i as int].ty),
            name,
        );
        let y = if a[i as int].name != b[i as int].name {
            seq![crate::finding::field_reordered_finding(evt, name, i, a[i as int].name, b[i as int].name)]
        } else {
            Seq::<FindingView>::empty()
        };
        let z = if a[i as int].ty != b[i as int].ty {
            seq![crate::finding::field_type_changed_finding(evt, name, a[i as int].name, i, a[i as int].ty, b[i as int].ty)]
        } else {
            Seq::<FindingView>::empty()
        };
        lemma_all_name_add(positional_fields(evt, name, a, b, i), y, name);
        lemma_all_name_add(positional_fields(evt, name, a, b, i) + y, z, name);
        lemma_all_name_one(crate::finding::field_added_finding(name, b[i as int].name), name);
        if n > from {
            lemma_all_name_add(appended_fields(name, b, from, i), seq![crate::finding::field_added_finding(name, b[i as int].name)], name);
        }
    }
}

proof fn lemma_cases_name(name: Seq<char>, e: EnumView, f: EnumView, n: nat, m: nat)
    ensures
        all_name(removed_or_changed_cases(crate::text::is_event_name(name), name, e.cases, f.cases, n), name),
        all_name(added_cases(crate::text::is_event_name(name), name, e.cases, f.cases, m), name),
    decreases n + m,
{
    let evt = crate::text::is_event_name(name);
    let a = e.cases;
    let b = f.cases;
    lemma_all_name_one(crate::finding::case_added_finding(evt, name, name, 0), name);
    if n > 0 {
        lemma_cases_name(name, e, f, (n - 1) as nat, m);
        let cs = a[n - 1];
        let x = match crate::diff::first_case_named(b, cs.name) {
            None => seq![crate::finding::case_removed_finding(evt, name, cs.name, cs.value as nat)],
            Some(d) => if cs.value != d.value {
                seq![crate::finding::case_value_changed_finding(evt, name, cs.name, cs.value as nat, d.value as nat)]
            } else {
                Seq::empty()
            },
        };
        lemma_all_name_one(crate::finding::case_removed_finding(evt, name, cs.name, cs.value as nat), name);
        match crate::diff::first_case_named(b, cs.name) {
            None => {},
            Some(d) => {
                lemma_all_name_one(
                    crate::finding::case_value_changed_finding(evt, name, cs.name, cs.value as nat, d.value as nat),
                    name,
                );
            },
        }
        lemma_all_name_add(removed_or_changed_cases(evt, name, a, b, (n - 1) as nat), x, name);
    }
    if m > 0 {
        lemma_cases_name(name, e, f, n, (m - 1) as nat);
        let d = b[m - 1];
        lemma_all_name_one(crate::finding::case_added_finding(evt, name, d.name, d.value as nat), name);
        let x = if !crate::diff::case_names(a).contains(d.name) {
            seq![crate::finding::case_added_finding(evt, name, d.name, d.value as nat)]
        } else {
            Seq::<FindingView>::empty()
        };
        lemma_all_name_add(added_cases(evt, name, a, b, (m - 1) as nat), x, name);
    }
}

proof fn lemma_structs_known(old: ContractSpecView, new: ContractSpecView, n: nat, m: nat)
    requires
        n <= old.structs.len(),
        m <= new.structs.len(),
    ensures
        names_known(removed_or_changed_structs(old.structs, new, n), old, new),
        names_known(added_structs(new.structs, old, m), old, new),
    decreases n + m,
{
    if n > 0 {
        lemma_structs_known(old, new, (n - 1) as nat, m);
        let st = old.structs[n - 1];
        assert(struct_names(old.structs)[n - 1] == st.name);
        assert(known_type(old, new, st.name));
        match new.struct_def(st.name) {
            None => {
                lemma_all_name_one(crate::finding::struct_removed_finding(crate::text::is_event_name(st.name), st.name), st.name);
            },
            Some(t) => {
                let evt = crate::text::is_event_name(st.name);
                let a = st.fields;
                let b = t.fields;
                let k = if a.len() <= b.len() { a.len() } else { b.len() };
                lemma_fields_name(st.name, a, b, a.len(), a.len());
                lemma_fields_name(st.name, a, b, a.len(), k);
                lemma_fields_name(st.name, a, b, a.len(), b.len());
                lemma_all_name_one(crate::finding::field_added_finding(st.name, st.name), st.name);
                let r = if b.len() > a.len() {
                    appended_fields(st.name, b, a.len(), b.len())
                } else {
                    Seq::<FindingView>::empty()
                };
                lemma_all_name_add(removed_fields(evt, st.name, a, b, a.len()), positional_fields(evt, st.name, a, b, k), st.name);
                lemma_all_name_add(removed_fields(evt, st.name, a, b, a.len()) + positional_fields(evt, st.name, a, b, k), r, st.name);
            },
        }
        lemma_all_name_known(old_struct_findings(st, new), st.name, old, new);
        lemma_known_add(removed_or_changed_structs(old.structs, new, (n - 1) as nat), old_struct_findings(st, new), old, new);
    }
    if m > 0 {
        lemma_structs_known(old, new, n, (m - 1) as nat);
        let t = new.structs[m - 1];
        assert(struct_names(new.structs)[m - 1] == t.name);
        lemma_all_name_one(crate::finding::struct_added_finding(t.name), t.name);
        let x = if old.struct_def(t.name) is None {
            seq![crate::finding::struct_added_finding(t.name)]
        } else {
            Seq::<FindingView>::empty()
        };
        lemma_all_name_known(x, t.name, old, new);
        lemma_known_add(added_structs(new.structs, old, (m - 1) as nat), x, old, new);
    }
}

proof fn lemma_enums_known(old: ContractSpecView, new: ContractSpecView, n: nat, m: nat)
    requires
        n <= old.enums.len(),
        m <= new.enums.len(),
    ensures
        names_known(removed_or_changed_enums(old.enums, new, n), old, new),
        names_known(added_enums(new.enums, old, m), old, new),
    decreases n + m,
{
    if n > 0 {
        lemma_enums_known(old, new, (n - 1) as nat, m);
        let e = old.enums[n - 1];
        assert(enum_names(old.enums)[n - 1] == e.name);
        assert(known_type(old, new, e.name));
        match new.enum_def(e.name) {
            None => {
                lemma_all_name_one(crate::finding::enum_removed_finding(crate::text::is_event_name(e.name), e.name), e.name);
            },
            Some(f) => {
                let evt = crate::text::is_event_name(e.name);
                lemma_cases_name(e.name, e, f, e.cases.len(), f.cases.len());
                lemma_all_name_add(
                    removed_or_changed_cases(evt, e.name, e.cases, f.cases, e.cases.len()),
                    added_cases(evt, e.name, e.cases, f.cases, f.cases.len()),
                    e.name,
                );
            },
        }
        lemma_all_name_known(old_enum_findings(e, new), e.name, old, new);
        lemma_known_add(removed_or_changed_enums(old.enums, new, (n - 1) as nat), old_enum_findings(e, new), old, new);
    }
    if m > 0 {
        lemma_enums_known(old, new, n, (m - 1) as nat);
        let f = new.enums[m - 1];
        assert(enum_names(new.enums)[m - 1] == f.name);
        lemma_all_name_one(crate::finding::enum_added_finding(f.name), f.name);
        let x = if old.enum_def(f.name) is None {
            seq![crate::finding::enum_added_finding(f.name)]
        } else {
            Seq::<FindingView>::empty()
        };
        lemma_all_name_known(x, f.name, old, new);
        lemma_known_add(added_enums(new.enums, old, (m - 1) as nat), x, old, new);
    }
}

/// Findings about functions name no type.
proof fn lemma_functions_unnamed(old: ContractSpecView, new: ContractSpecView)
    ensures
        names_known(function_findings(old, new), old, new),
{
    lemma_functions_wc(old, new, old.functions.len(), new.functions.len());
    lemma_function_sides_within(old, new, old.functions.len(), new.functions.len());
    let fs = function_findings(old, new);
    let x = removed_or_changed_functions(old.functions, new, old.functions.len());
    let y = added_functions(new.functions, old, new.functions.len());
    lemma_wc_add(x, y);
    lemma_within_grow(x, signature_categories().insert("Function Removed"@), signature_categories().insert("Function Removed"@).insert("Function Added"@));
    lemma_within_grow(y, set!["Function Added"@], signature_categories().insert("Function Removed"@).insert("Function Added"@));
    lemma_within_add(x, y, signature_categories().insert("Function Removed"@).insert("Function Added"@));
    assert forall|k: int| 0 <= k < fs.len() && (#[trigger] fs[k]).affected_type is Some implies known_type(
        old,
        new,
        fs[k].affected_type.unwrap(),
    ) by {
        assert(signature_categories().insert("Function Removed"@).insert("Function Added"@).contains(fs[k].category));
        assert(is_function_category(fs[k].category));
        assert(well_classified(fs[k]));
    }
}

/// The owner of a dependency is a struct or union of the interface.
proof fn lemma_dependent_owner_known(spec: ContractSpecView, d: Seq<char>, o: Seq<char>)
    requires
        crate::mapper::is_dependent(spec, d, o),
    ensures
        struct_names(spec.structs).contains(o) || union_names(spec.unions).contains(o),
{
    let ow = crate::mapper::owned_member_types(spec);
    let k = choose|k: int| 0 <= k < ow.len() && #[trigger] ow[k].0 == o && crate::mapper::depends_on(spec, ow[k].1, d);
    let fs = |s: StructView| crate::mapper::struct_owned(s);
    let fu = |u: crate::model::UnionView| crate::mapper::union_owned(u);
    let a = spec.structs.flat_map(fs);
    let b = spec.unions.flat_map(fu);
    assert(ow == a + b);
    let e = ow[k];
    if k < a.len() {
        assert(a[k] == e);
        assert(a.contains(e));
        let i = crate::mapper::lemma_flat_map_contains_inv(spec.structs, fs, e);
        let so = crate::mapper::struct_owned(spec.structs[i]);
        let j = choose|j: int| 0 <= j < so.len() && so[j] == e;
        assert(so[j].0 == spec.structs[i].name);
        assert(struct_names(spec.structs)[i] == o);
    } else {
        assert(b[k - a.len()] == e);
        assert(b.contains(e));
        let i = crate::mapper::lemma_flat_map_contains_inv(spec.unions, fu, e);
        let uo = crate::mapper::union_owned(spec.unions[i]);
        let j = choose|j: int| 0 <= j < uo.len() && uo[j] == e;
        assert(uo[j].0 == spec.unions[i].name);
        assert(union_names(spec.unions)[i] == o);
    }
}

/// Every type a comparison report names exists: a finding about a struct or
/// enum names a struct or enum of the old or the new interface, and a
/// cascading break names a struct or union of the old interface.
pub proof fn law_named_types_exist(old: ContractSpecView, new: ContractSpecView, report: Seq<FindingView>)
    requires
        cascade_extends(old, direct_findings(old, new), report),
    ensures
        forall|k: int|
            0 <= k < report.len() && (#[trigger] report[k]).affected_type is Some ==> known_type(
                old,
                new,
                report[k].affected_type.unwrap(),
            ),
{
    lemma_functions_unnamed(old, new);
    lemma_structs_known(old, new, old.structs.len(), new.structs.len());
    lemma_enums_known(old, new, old.enums.len(), new.enums.len());
    lemma_known_add(
        removed_or_changed_structs(old.structs, new, old.structs.len()),
        added_structs(new.structs, old, new.structs.len()),
        old,
        new,
    );
    lemma_known_add(
        removed_or_changed_enums(old.enums, new, old.enums.len()),
        added_enums(new.enums, old, new.enums.len()),
        old,
        new,
    );
    lemma_known_add(function_findings(old, new), struct_findings(old, new), old, new);
    lemma_known_add(function_findings(old, new) + struct_findings(old, new), enum_findings(old, new), old, new);
    let before = direct_findings(old, new);
    let added = report.skip(before.len() as int);
    assert forall|k: int| 0 <= k < added.len() && (#[trigger] added[k]).affected_type is Some implies known_type(
        old,
        new,
        added[k].affected_type.unwrap(),
    ) by {
        assert(cascade_step(old, before, added, k));
        let (t, p) = choose|t: Seq<char>, p: Seq<char>|
            #[trigger] cascading_break_finding(t, p) == added[k] && crate::mapper::is_dependent(old, p, t) && (
            crate::diff::is_broken(before, p) || exists|j: int| 0 <= j < k && #[trigger] added[j].affected_type == Some(p));
        lemma_dependent_owner_known(old, p, t);
    }
    assert(report =~= before + added);
    lemma_known_add(before, added, old, new);
}

} // verus!
