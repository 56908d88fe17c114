use vstd::prelude::*;

use crate::contract::ContractSpecView;
use crate::diff::{
    added_cases, added_enums, added_functions, added_structs, appended_fields, case_names, cascade_extends,
    direct_findings, enum_case_findings, enum_findings, field_names, first_case_named, function_findings,
    old_enum_findings, old_function_findings, old_struct_findings, param_findings, positional_fields,
    removed_fields, removed_or_changed_cases, removed_or_changed_enums, removed_or_changed_functions,
    removed_or_changed_structs, return_findings, signature_findings, struct_field_findings, struct_findings,
};
use crate::finding::{
    case_added_finding, case_removed_finding, case_value_changed_finding, enum_added_finding,
    enum_removed_finding, field_added_finding, field_removed_finding, field_reordered_finding,
    field_type_changed_finding, function_added_finding, function_removed_finding, param_count_changed_finding,
    param_renamed_finding, param_type_changed_finding, return_count_changed_finding,
    return_type_changed_finding, struct_added_finding, struct_removed_finding, FindingView,
};
use crate::diff::{cascade_reaches, cascade_step, is_broken, is_dependent_chain};
use crate::finding::{cascading_break_finding, Severity};
use crate::mapper::{
    depends_on, is_dependent, is_ref_chain, lemma_flat_map_contains, lemma_flat_map_contains_inv, member_refs,
    member_types, owned_member_types, struct_field_types, struct_owned, type_string, udt_refs, udt_refs_all, union_case_types,
};
use crate::model::{EnumView, FunctionView, StructView, TypeView};
use crate::text::is_event_name;

verus! {

// ---------------------------------------------------------------------------
// Every detection rule fires: each change of the interface is reported
// ---------------------------------------------------------------------------

/// A sequence built piece after piece holds every element of every piece.
proof fn lemma_piece_in_whole(
    whole: spec_fn(nat) -> Seq<FindingView>,
    piece: spec_fn(nat) -> Seq<FindingView>,
    n: nat,
    i: nat,
    x: FindingView,
)
    requires
        forall|m: nat| 0 < m <= n ==> #[trigger] whole(m) == whole((m - 1) as nat) + piece((m - 1) as nat),
        i < n,
        piece(i).contains(x),
    ensures
        whole(n).contains(x),
    decreases n,
{
    let prev = whole((n - 1) as nat);
    assert(whole(n) == prev + piece((n - 1) as nat));
    if i == n - 1 {
        let k = choose|k: int| 0 <= k < piece(i).len() && #[trigger] piece(i)[k] == x;
        assert(whole(n)[prev.len() + k] == x);
    } else {
        lemma_piece_in_whole(whole, piece, (n - 1) as nat, i, x);
        let k = choose|k: int| 0 <= k < prev.len() && #[trigger] prev[k] == x;
        assert(whole(n)[k] == x);
    }
}

proof fn lemma_in_left(a: Seq<FindingView>, b: Seq<FindingView>, x: FindingView)
    requires
        a.contains(x),
    ensures
        (a + b).contains(x),
{
    let k = choose|k: int| 0 <= k < a.len() && a[k] == x;
    assert((a + b)[k] == x);
}

proof fn lemma_in_right(a: Seq<FindingView>, b: Seq<FindingView>, x: FindingView)
    requires
        b.contains(x),
    ensures
        (a + b).contains(x),
{
    let k = choose|k: int| 0 <= k < b.len() && b[k] == x;
    assert((a + b)[a.len() + k] == x);
}

proof fn lemma_in_one(x: FindingView)
    ensures
        seq![x].contains(x),
{
    assert(seq![x][0] == x);
}

/// A direct finding is in the report.
proof fn lemma_direct_in_report(old: ContractSpecView, new: ContractSpecView, report: Seq<FindingView>, x: FindingView)
    requires
        cascade_extends(old, direct_findings(old, new), report),
        function_findings(old, new).contains(x) || struct_findings(old, new).contains(x) || enum_findings(
            old,
            new,
        ).contains(x),
    ensures
        report.contains(x),
{
    let d = direct_findings(old, new);
    if function_findings(old, new).contains(x) {
        lemma_in_left(function_findings(old, new), struct_findings(old, new), x);
        lemma_in_left(function_findings(old, new) + struct_findings(old, new), enum_findings(old, new), x);
    } else if struct_findings(old, new).contains(x) {
        lemma_in_right(function_findings(old, new), struct_findings(old, new), x);
        lemma_in_left(function_findings(old, new) + struct_findings(old, new), enum_findings(old, new), x);
    } else {
        lemma_in_right(function_findings(old, new) + struct_findings(old, new), enum_findings(old, new), x);
    }
    let k = choose|k: int| 0 <= k < d.len() && d[k] == x;
    assert(report.take(d.len() as int)[k] == x);
    assert(report[k] == x);
}

/// The findings for the `i`-th old function are among the function findings.
proof fn lemma_old_function_in(old: ContractSpecView, new: ContractSpecView, i: nat, x: FindingView)
    requires
        i < old.functions.len(),
        old_function_findings(old.functions[i as int], new).contains(x),
    ensures
        function_findings(old, new).contains(x),
{
    let whole = |m: nat| removed_or_changed_functions(old.functions, new, m);
    let piece = |m: nat| old_function_findings(old.functions[m as int], new);
    lemma_piece_in_whole(whole, piece, old.functions.len(), i, x);
    lemma_in_left(
        removed_or_changed_functions(old.functions, new, old.functions.len()),
        added_functions(new.functions, old, new.functions.len()),
        x,
    );
}

/// A function of the old interface that the new one lacks is reported removed.
pub proof fn law_removed_function_reported(old: ContractSpecView, new: ContractSpecView, report: Seq<FindingView>, i: int)
    requires
        cascade_extends(old, direct_findings(old, new), report),
        0 <= i < old.functions.len(),
        new.function(old.functions[i].name) is None,
    ensures
        report.contains(function_removed_finding(old.functions[i].name)),
{
    let x = function_removed_finding(old.functions[i].name);
    lemma_in_one(x);
    lemma_old_function_in(old, new, i as nat, x);
    lemma_direct_in_report(old, new, report, x);
}

/// A function of the new interface that the old one lacks is reported added.
pub proof fn law_added_function_reported(old: ContractSpecView, new: ContractSpecView, report: Seq<FindingView>, j: int)
    requires
        cascade_extends(old, direct_findings(old, new), report),
        0 <= j < new.functions.len(),
        old.function(new.functions[j].name) is None,
    ensures
        report.contains(function_added_finding(new.functions[j].name)),
{
    let x = function_added_finding(new.functions[j].name);
    lemma_in_one(x);
    let whole = |m: nat| added_functions(new.functions, old, m);
    let piece = |m: nat|
        if old.function(new.functions[m as int].name) is None {
            seq![function_added_finding(new.functions[m as int].name)]
        } else {
            Seq::<FindingView>::empty()
        };
    lemma_piece_in_whole(whole, piece, new.functions.len(), j as nat, x);
    lemma_in_right(
        removed_or_changed_functions(old.functions, new, old.functions.len()),
        added_functions(new.functions, old, new.functions.len()),
        x,
    );
    lemma_direct_in_report(old, new, report, x);
}

/// A kept function whose parameter count changed, either way, is reported
/// with both counts.
pub proof fn law_parameter_count_change_reported(
    old: ContractSpecView,
    new: ContractSpecView,
    report: Seq<FindingView>,
    i: int,
    g: FunctionView,
)
    requires
        cascade_extends(old, direct_findings(old, new), report),
        0 <= i < old.functions.len(),
        new.function(old.functions[i].name) == Some(g),
        old.functions[i].inputs.len() != g.inputs.len(),
    ensures
        report.contains(
            param_count_changed_finding(old.functions[i].name, old.functions[i].inputs.len(), g.inputs.len()),
        ),
{
    let f = old.functions[i];
    let x = param_count_changed_finding(f.name, f.inputs.len(), g.inputs.len());
    lemma_in_one(x);
    lemma_old_function_in(old, new, i as nat, x);
    lemma_direct_in_report(old, new, report, x);
}

/// For a kept function with as many parameters as before, a parameter whose
/// name changed is reported renamed, and one whose type changed is reported
/// retyped.
pub proof fn law_parameter_changes_reported(
    old: ContractSpecView,
    new: ContractSpecView,
    report: Seq<FindingView>,
    i: int,
    g: FunctionView,
    p: int,
)
    requires
        cascade_extends(old, direct_findings(old, new), report),
        0 <= i < old.functions.len(),
        new.function(old.functions[i].name) == Some(g),
        old.functions[i].inputs.len() == g.inputs.len(),
        0 <= p < g.inputs.len(),
    ensures
        ({
            let f = old.functions[i];
            &&& f.inputs[p].name != g.inputs[p].name ==> report.contains(
                param_renamed_finding(f.name, p as nat, f.inputs[p].name, g.inputs[p].name),
            )
            &&& f.inputs[p].ty != g.inputs[p].ty ==> report.contains(
                param_type_changed_finding(f.name, p as nat, f.inputs[p].name, f.inputs[p].ty, g.inputs[p].ty),
            )
        }),
{
    let f = old.functions[i];
    let whole = |m: nat| param_findings(f.name, f.inputs, g.inputs, m);
    let piece = |m: nat|
        (if f.inputs[m as int].name != g.inputs[m as int].name {
            seq![param_renamed_finding(f.name, m, f.inputs[m as int].name, g.inputs[m as int].name)]
        } else {
            Seq::<FindingView>::empty()
        }) + (if f.inputs[m as int].ty != g.inputs[m as int].ty {
            seq![param_type_changed_finding(f.name, m, f.inputs[m as int].name, f.inputs[m as int].ty, g.inputs[m as int].ty)]
        } else {
            Seq::<FindingView>::empty()
        });
    assert forall|m: nat| 0 < m <= f.inputs.len() implies #[trigger] whole(m) == whole((m - 1) as nat) + piece(
        (m - 1) as nat,
    ) by {
        let j = (m - 1) as nat;
        let x = if f.inputs[j as int].name != g.inputs[j as int].name {
            seq![param_renamed_finding(f.name, j, f.inputs[j as int].name, g.inputs[j as int].name)]
        } else {
            Seq::<FindingView>::empty()
        };
        let y = if f.inputs[j as int].ty != g.inputs[j as int].ty {
            seq![param_type_changed_finding(f.name, j, f.inputs[j as int].name, f.inputs[j as int].ty, g.inputs[j as int].ty)]
        } else {
            Seq::<FindingView>::empty()
        };
        assert(whole(m) == whole(j) + x + y);
        assert(whole(j) + x + y =~= whole(j) + (x + y));
    }
    let rest = if f.outputs.len() != g.outputs.len() {
        seq![return_count_changed_finding(f.name, f.outputs.len(), g.outputs.len())]
    } else {
        return_findings(f.name, f.outputs, g.outputs, f.outputs.len())
    };
    assert(signature_findings(f.name, f, g) == whole(f.inputs.len()) + rest);
    let pp = (if f.inputs[p].name != g.inputs[p].name {
        seq![param_renamed_finding(f.name, p as nat, f.inputs[p].name, g.inputs[p].name)]
    } else {
        Seq::<FindingView>::empty()
    });
    let pq = (if f.inputs[p].ty != g.inputs[p].ty {
        seq![param_type_changed_finding(f.name, p as nat, f.inputs[p].name, f.inputs[p].ty, g.inputs[p].ty)]
    } else {
        Seq::<FindingView>::empty()
    });
    assert(piece(p as nat) == pp + pq);
    if f.inputs[p].name != g.inputs[p].name {
        let x = param_renamed_finding(f.name, p as nat, f.inputs[p].name, g.inputs[p].name);
        lemma_in_one(x);
        lemma_in_left(pp, pq, x);
        lemma_piece_in_whole(whole, piece, f.inputs.len(), p as nat, x);
        lemma_in_left(whole(f.inputs.len()), rest, x);
        lemma_old_function_in(old, new, i as nat, x);
        lemma_direct_in_report(old, new, report, x);
    }
    if f.inputs[p].ty != g.inputs[p].ty {
        let x = param_type_changed_finding(f.name, p as nat, f.inputs[p].name, f.inputs[p].ty, g.inputs[p].ty);
        lemma_in_one(x);
        lemma_in_right(pp, pq, x);
        lemma_piece_in_whole(whole, piece, f.inputs.len(), p as nat, x);
        lemma_in_left(whole(f.inputs.len()), rest, x);
        lemma_old_function_in(old, new, i as nat, x);
        lemma_direct_in_report(old, new, report, x);
    }
}

/// For a kept function with as many parameters as before, a change in the
/// number of return values is reported with both counts; with as many
/// return values, a return value whose type changed is reported.
pub proof fn law_return_changes_reported(
    old: ContractSpecView,
    new: ContractSpecView,
    report: Seq<FindingView>,
    i: int,
    g: FunctionView,
    p: int,
)
    requires
        cascade_extends(old, direct_findings(old, new), report),
        0 <= i < old.functions.len(),
        new.function(old.functions[i].name) == Some(g),
        old.functions[i].inputs.len() == g.inputs.len(),
    ensures
        ({
            let f = old.functions[i];
            &&& f.outputs.len() != g.outputs.len() ==> report.contains(
                return_count_changed_finding(f.name, f.outputs.len(), g.outputs.len()),
            )
            &&& (f.outputs.len() == g.outputs.len() && 0 <= p < g.outputs.len() && f.outputs[p] != g.outputs[p])
                ==> report.contains(return_type_changed_finding(f.name, p as nat, f.outputs[p], g.outputs[p]))
        }),
{
    let f = old.functions[i];
    let params = param_findings(f.name, f.inputs, g.inputs, f.inputs.len());
    if f.outputs.len() != g.outputs.len() {
        let x = return_count_changed_finding(f.name, f.outputs.len(), g.outputs.len());
        lemma_in_one(x);
        lemma_in_right(params, seq![x], x);
        lemma_old_function_in(old, new, i as nat, x);
        lemma_direct_in_report(old, new, report, x);
    }
    if f.outputs.len() == g.outputs.len() && 0 <= p < g.outputs.len() && f.outputs[p] != g.outputs[p] {
        let x = return_type_changed_finding(f.name, p as nat, f.outputs[p], g.outputs[p]);
        lemma_in_one(x);
        let whole = |m: nat| return_findings(f.name, f.outputs, g.outputs, m);
        let piece = |m: nat|
            if f.outputs[m as int] != g.outputs[m as int] {
                seq![return_type_changed_finding(f.name, m, f.outputs[m as int], g.outputs[m as int])]
            } else {
                Seq::<FindingView>::empty()
            };
        lemma_piece_in_whole(whole, piece, f.outputs.len(), p as nat, x);
        lemma_in_right(params, whole(f.outputs.len()), x);
        lemma_old_function_in(old, new, i as nat, x);
        lemma_direct_in_report(old, new, report, x);
    }
}

/// The findings for the `i`-th old struct are among the struct findings.
proof fn lemma_old_struct_in(old: ContractSpecView, new: ContractSpecView, i: nat, x: FindingView)
    requires
        i < old.structs.len(),
        old_struct_findings(old.structs[i as int], new).contains(x),
    ensures
        struct_findings(old, new).contains(x),
{
    let whole = |m: nat| removed_or_changed_structs(old.structs, new, m);
    let piece = |m: nat| old_struct_findings(old.structs[m as int], new);
    lemma_piece_in_whole(whole, piece, old.structs.len(), i, x);
    lemma_in_left(
        removed_or_changed_structs(old.structs, new, old.structs.len()),
        added_structs(new.structs, old, new.structs.len()),
        x,
    );
}

/// A struct of the old interface that the new one lacks is reported removed
/// (with the event wording for an event type).
pub proof fn law_removed_struct_reported(old: ContractSpecView, new: ContractSpecView, report: Seq<FindingView>, i: int)
    requires
        cascade_extends(old, direct_findings(old, new), report),
        0 <= i < old.structs.len(),
        new.struct_def(old.structs[i].name) is None,
    ensures
        report.contains(struct_removed_finding(is_event_name(old.structs[i].name), old.structs[i].name)),
{
    let x = struct_removed_finding(is_event_name(old.structs[i].name), old.structs[i].name);
    lemma_in_one(x);
    lemma_old_struct_in(old, new, i as nat, x);
    lemma_direct_in_report(old, new, report, x);
}

/// A struct of the new interface that the old one lacks is reported added.
pub proof fn law_added_struct_reported(old: ContractSpecView, new: ContractSpecView, report: Seq<FindingView>, j: int)
    requires
        cascade_extends(old, direct_findings(old, new), report),
        0 <= j < new.structs.len(),
        old.struct_def(new.structs[j].name) is None,
    ensures
        report.contains(struct_added_finding(new.structs[j].name)),
{
    let x = struct_added_finding(new.structs[j].name);
    lemma_in_one(x);
    let whole = |m: nat| added_structs(new.structs, old, m);
    let piece = |m: nat|
        if old.struct_def(new.structs[m as int].name) is None {
            seq![struct_added_finding(new.structs[m as int].name)]
        } else {
            Seq::<FindingView>::empty()
        };
    lemma_piece_in_whole(whole, piece, new.structs.len(), j as nat, x);
    lemma_in_right(
        removed_or_changed_structs(old.structs, new, old.structs.len()),
        added_structs(new.structs, old, new.structs.len()),
        x,
    );
    lemma_direct_in_report(old, new, report, x);
}

/// For a struct kept under its name: an old field whose name no new field
/// has is reported removed; at a position both versions have, a different
/// field name is reported as a reordering and a different field type (any
/// two different types, user-defined ones included) as a type change; a new
/// field past the old fields is reported appended.
pub proof fn law_struct_field_changes_reported(
    old: ContractSpecView,
    new: ContractSpecView,
    report: Seq<FindingView>,
    i: int,
    t: StructView,
    p: int,
)
    requires
        cascade_extends(old, direct_findings(old, new), report),
        0 <= i < old.structs.len(),
        new.struct_def(old.structs[i].name) == Some(t),
    ensures
        ({
            let s = old.structs[i];
            let evt = is_event_name(s.name);
            &&& (0 <= p < s.fields.len() && !field_names(t.fields).contains(s.fields[p].name)) ==> report.contains(
                field_removed_finding(evt, s.name, s.fields[p].name),
            )
            &&& (0 <= p < s.fields.len() && p < t.fields.len() && s.fields[p].name != t.fields[p].name)
                ==> report.contains(field_reordered_finding(evt, s.name, p as nat, s.fields[p].name, t.fields[p].name))
            &&& (0 <= p < s.fields.len() && p < t.fields.len() && s.fields[p].ty != t.fields[p].ty) ==> report.contains(
                field_type_changed_finding(evt, s.name, s.fields[p].name, p as nat, s.fields[p].ty, t.fields[p].ty),
            )
            &&& (s.fields.len() <= p < t.fields.len()) ==> report.contains(field_added_finding(s.name, t.fields[p].name))
        }),
{
    let s = old.structs[i];
    let evt = is_event_name(s.name);
    let a = s.fields;
    let b = t.fields;
    let k = if a.len() <= b.len() { a.len() } else { b.len() };
    let rf = removed_fields(evt, s.name, a, b, a.len());
    let pf = positional_fields(evt, s.name, a, b, k);
    let af = if b.len() > a.len() {
        appended_fields(s.name, b, a.len(), b.len())
    } else {
        Seq::<FindingView>::empty()
    };
    assert(old_struct_findings(s, new) == rf + pf + af);
    if 0 <= p < a.len() && !field_names(b).contains(a[p].name) {
        let x = field_removed_finding(evt, s.name, a[p].name);
        lemma_in_one(x);
        let whole = |m: nat| removed_fields(evt, s.name, a, b, m);
        let piece = |m: nat|
            if !field_names(b).contains(a[m as int].name) {
                seq![field_removed_finding(evt, s.name, a[m as int].name)]
            } else {
                Seq::<FindingView>::empty()
            };
        lemma_piece_in_whole(whole, piece, a.len(), p as nat, x);
        lemma_in_left(rf, pf, x);
        lemma_in_left(rf + pf, af, x);
        lemma_old_struct_in(old, new, i as nat, x);
        lemma_direct_in_report(old, new, report, x);
    }
    if 0 <= p < a.len() && p < b.len() {
        let whole = |m: nat| positional_fields(evt, s.name, a, b, m);
        let piece = |m: nat|
            (if a[m as int].name != b[m as int].name {
                seq![field_reordered_finding(evt, s.name, m, a[m as int].name, b[m as int].name)]
            } else {
                Seq::<FindingView>::empty()
            }) + (if a[m as int].ty != b[m as int].ty {
                seq![field_type_changed_finding(evt, s.name, a[m as int].name, m, a[m as int].ty, b[m as int].ty)]
            } else {
                Seq::<FindingView>::empty()
            });
        assert forall|m: nat| 0 < m <= k implies #[trigger] whole(m) == whole((m - 1) as nat) + piece((m - 1) as nat) by {
            let j = (m - 1) as nat;
            let x = if a[j as int].name != b[j as int].name {
                seq![field_reordered_finding(evt, s.name, j, a[j as int].name, b[j as int].name)]
            } else {
                Seq::<FindingView>::empty()
            };
            let y = if a[j as int].ty != b[j as int].ty {
                seq![field_type_changed_finding(evt, s.name, a[j as int].name, j, a[j as int].ty, b[j as int].ty)]
            } else {
                Seq::<FindingView>::empty()
            };
            assert(whole(m) == whole(j) + x + y);
            assert(whole(j) + x + y =~= whole(j) + (x + y));
        }
        let pp = if a[p].name != b[p].name {
            seq![field_reordered_finding(evt, s.name, p as nat, a[p].name, b[p].name)]
        } else {
            Seq::<FindingView>::empty()
        };
        let pq = if a[p].ty != b[p].ty {
            seq![field_type_changed_finding(evt, s.name, a[p].name, p as nat, a[p].ty, b[p].ty)]
        } else {
            Seq::<FindingView>::empty()
        };
        assert(piece(p as nat) == pp + pq);
        if a[p].name != b[p].name {
            let x = field_reordered_finding(evt, s.name, p as nat, a[p].name, b[p].name);
            lemma_in_one(x);
            lemma_in_left(pp, pq, x);
            lemma_piece_in_whole(whole, piece, k, p as nat, x);
            lemma_in_right(rf, pf, x);
            lemma_in_left(rf + pf, af, x);
            lemma_old_struct_in(old, new, i as nat, x);
            lemma_direct_in_report(old, new, report, x);
        }
        if a[p].ty != b[p].ty {
            let x = field_type_changed_finding(evt, s.name, a[p].name, p as nat, a[p].ty, b[p].ty);
            lemma_in_one(x);
            lemma_in_right(pp, pq, x);
            lemma_piece_in_whole(whole, piece, k, p as nat, x);
            lemma_in_right(rf, pf, x);
            lemma_in_left(rf + pf, af, x);
            lemma_old_struct_in(old, new, i as nat, x);
            lemma_direct_in_report(old, new, report, x);
        }
    }
    if a.len() <= p < b.len() {
        let x = field_added_finding(s.name, b[p].name);
        lemma_in_one(x);
        let whole = |m: nat| appended_fields(s.name, b, a.len(), m);
        let piece = |m: nat|
            if m >= a.len() {
                seq![field_added_finding(s.name, b[m as int].name)]
            } else {
                Seq::<FindingView>::empty()
            };
        assert forall|m: nat| 0 < m <= b.len() implies #[trigger] whole(m) == whole((m - 1) as nat) + piece((m - 1) as nat) by {
            if m <= a.len() {
                assert(whole(m) == Seq::<FindingView>::empty());
                assert(whole((m - 1) as nat) == Seq::<FindingView>::empty());
                assert(whole(m) =~= whole((m - 1) as nat) + piece((m - 1) as nat));
            }
        }
        lemma_piece_in_whole(whole, piece, b.len(), p as nat, x);
        lemma_in_right(rf + pf, af, x);
        lemma_old_struct_in(old, new, i as nat, x);
        lemma_direct_in_report(old, new, report, x);
    }
}

/// The findings for the `i`-th old enum are among the enum findings.
proof fn lemma_old_enum_in(old: ContractSpecView, new: ContractSpecView, i: nat, x: FindingView)
    requires
        i < old.enums.len(),
        old_enum_findings(old.enums[i as int], new).contains(x),
    ensures
        enum_findings(old, new).contains(x),
{
    let whole = |m: nat| removed_or_changed_enums(old.enums, new, m);
    let piece = |m: nat| old_enum_findings(old.enums[m as int], new);
    lemma_piece_in_whole(whole, piece, old.enums.len(), i, x);
    lemma_in_left(
        removed_or_changed_enums(old.enums, new, old.enums.len()),
        added_enums(new.enums, old, new.enums.len()),
        x,
    );
}

/// An enum of the old interface that the new one lacks is reported removed
/// (with the event wording for an event type).
pub proof fn law_removed_enum_reported(old: ContractSpecView, new: ContractSpecView, report: Seq<FindingView>, i: int)
    requires
        cascade_extends(old, direct_findings(old, new), report),
        0 <= i < old.enums.len(),
        new.enum_def(old.enums[i].name) is None,
    ensures
        report.contains(enum_removed_finding(is_event_name(old.enums[i].name), old.enums[i].name)),
{
    let x = enum_removed_finding(is_event_name(old.enums[i].name), old.enums[i].name);
    lemma_in_one(x);
    lemma_old_enum_in(old, new, i as nat, x);
    lemma_direct_in_report(old, new, report, x);
}

/// An enum of the new interface that the old one lacks is reported added.
pub proof fn law_added_enum_reported(old: ContractSpecView, new: ContractSpecView, report: Seq<FindingView>, j: int)
    requires
        cascade_extends(old, direct_findings(old, new), report),
        0 <= j < new.enums.len(),
        old.enum_def(new.enums[j].name) is None,
    ensures
        report.contains(enum_added_finding(new.enums[j].name)),
{
    let x = enum_added_finding(new.enums[j].name);
    lemma_in_one(x);
    let whole = |m: nat| added_enums(new.enums, old, m);
    let piece = |m: nat|
        if old.enum_def(new.enums[m as int].name) is None {
            seq![enum_added_finding(new.enums[m as int].name)]
        } else {
            Seq::<FindingView>::empty()
        };
    lemma_piece_in_whole(whole, piece, new.enums.len(), j as nat, x);
    lemma_in_right(
        removed_or_changed_enums(old.enums, new, old.enums.len()),
        added_enums(new.enums, old, new.enums.len()),
        x,
    );
    lemma_direct_in_report(old, new, report, x);
}

/// The first case of `cs` with a given name, in distinct names, is the one
/// at its position.
proof fn lemma_first_case_at(cs: Seq<crate::model::EnumCaseView>, q: int)
    requires
        case_names(cs).no_duplicates(),
        0 <= q < cs.len(),
    ensures
        first_case_named(cs, cs[q].name) == Some(cs[q]),
{
    crate::diff::lemma_first_case_named_distinct(cs, q);
}

/// For an enum kept under its name (with distinct case names in the new
/// version): an old case whose name no new case has is reported removed; an
/// old case whose new namesake has another value, higher or lower, is
/// reported with both values; a new case whose name no old case has is
/// reported added, whatever the two case counts are.
pub proof fn law_enum_case_changes_reported(
    old: ContractSpecView,
    new: ContractSpecView,
    report: Seq<FindingView>,
    i: int,
    f: EnumView,
    p: int,
    q: int,
)
    requires
        cascade_extends(old, direct_findings(old, new), report),
        0 <= i < old.enums.len(),
        new.enum_def(old.enums[i].name) == Some(f),
        case_names(f.cases).no_duplicates(),
    ensures
        ({
            let e = old.enums[i];
            let evt = is_event_name(e.name);
            &&& (0 <= p < e.cases.len() && !case_names(f.cases).contains(e.cases[p].name)) ==> report.contains(
                case_removed_finding(evt, e.name, e.cases[p].name, e.cases[p].value as nat),
            )
            &&& (0 <= p < e.cases.len() && 0 <= q < f.cases.len() && e.cases[p].name == f.cases[q].name
                && e.cases[p].value != f.cases[q].value) ==> report.contains(
                case_value_changed_finding(
                    evt,
                    e.name,
                    e.cases[p].name,
                    e.cases[p].value as nat,
                    f.cases[q].value as nat,
                ),
            )
            &&& (0 <= q < f.cases.len() && !case_names(e.cases).contains(f.cases[q].name)) ==> report.contains(
                case_added_finding(evt, e.name, f.cases[q].name, f.cases[q].value as nat),
            )
        }),
{
    let e = old.enums[i];
    let evt = is_event_name(e.name);
    let a = e.cases;
    let b = f.cases;
    let rc = removed_or_changed_cases(evt, e.name, a, b, a.len());
    let ac = added_cases(evt, e.name, a, b, b.len());
    assert(old_enum_findings(e, new) == rc + ac);
    let whole = |m: nat| removed_or_changed_cases(evt, e.name, a, b, m);
    let piece = |m: nat|
        match first_case_named(b, a[m as int].name) {
            None => seq![case_removed_finding(evt, e.name, a[m as int].name, a[m as int].value as nat)],
            Some(d) => if a[m as int].value != d.value {
                seq![case_value_changed_finding(evt, e.name, a[m as int].name, a[m as int].value as nat, d.value as nat)]
            } else {
                Seq::<FindingView>::empty()
            },
        };
    if 0 <= p < a.len() && !case_names(b).contains(a[p].name) {
        let x = case_removed_finding(evt, e.name, a[p].name, a[p].value as nat);
        lemma_first_case_none(b, a[p].name);
        lemma_in_one(x);
        lemma_piece_in_whole(whole, piece, a.len(), p as nat, x);
        lemma_in_left(rc, ac, x);
        lemma_old_enum_in(old, new, i as nat, x);
        lemma_direct_in_report(old, new, report, x);
    }
    if 0 <= p < a.len() && 0 <= q < b.len() && a[p].name == b[q].name && a[p].value != b[q].value {
        let x = case_value_changed_finding(evt, e.name, a[p].name, a[p].value as nat, b[q].value as nat);
        lemma_first_case_at(b, q);
        lemma_in_one(x);
        lemma_piece_in_whole(whole, piece, a.len(), p as nat, x);
        lemma_in_left(rc, ac, x);
        lemma_old_enum_in(old, new, i as nat, x);
        lemma_direct_in_report(old, new, report, x);
    }
    if 0 <= q < b.len() && !case_names(a).contains(b[q].name) {
        let x = case_added_finding(evt, e.name, b[q].name, b[q].value as nat);
        lemma_in_one(x);
        let w = |m: nat| added_cases(evt, e.name, a, b, m);
        let pc = |m: nat|
            if !case_names(a).contains(b[m as int].name) {
                seq![case_added_finding(evt, e.name, b[m as int].name, b[m as int].value as nat)]
            } else {
                Seq::<FindingView>::empty()
            };
        lemma_piece_in_whole(w, pc, b.len(), q as nat, x);
        lemma_in_right(rc, ac, x);
        lemma_old_enum_in(old, new, i as nat, x);
        lemma_direct_in_report(old, new, report, x);
    }
}

/// No case of `cs` is named `n` when no case name is `n`.
proof fn lemma_first_case_none(cs: Seq<crate::model::EnumCaseView>, n: Seq<char>)
    requires
        !case_names(cs).contains(n),
    ensures
        first_case_named(cs, n) is None,
    decreases cs.len(),
{
    if cs.len() > 0 {
        assert(case_names(cs)[0] == cs[0].name);
        assert(case_names(cs.drop_first()) =~= case_names(cs).drop_first());
        assert forall|k: int| 0 <= k < case_names(cs.drop_first()).len() implies case_names(cs.drop_first())[k] != n by {
            assert(case_names(cs.drop_first())[k] == case_names(cs)[k + 1]);
        }
        lemma_first_case_none(cs.drop_first(), n);
    }
}

// ---------------------------------------------------------------------------
// What a type depends on follows its structure
// ---------------------------------------------------------------------------

proof fn lemma_names_in_add(a: Seq<Seq<char>>, b: Seq<Seq<char>>, x: Seq<char>)
    ensures
        (a + b).contains(x) <==> a.contains(x) || b.contains(x),
{
    if (a + b).contains(x) {
        let k = choose|k: int| 0 <= k < (a + b).len() && (a + b)[k] == x;
        if k < a.len() {
            assert(a[k] == x);
        } else {
            assert(b[k - a.len()] == x);
        }
    }
    if a.contains(x) {
        let k = choose|k: int| 0 <= k < a.len() && a[k] == x;
        assert((a + b)[k] == x);
    }
    if b.contains(x) {
        let k = choose|k: int| 0 <= k < b.len() && b[k] == x;
        assert((a + b)[a.len() + k] == x);
    }
}

/// A type whose references include those of `u` depends on all `u` depends on.
proof fn lemma_depends_via(spec: ContractSpecView, t: TypeView, u: TypeView, n: Seq<char>)
    requires
        forall|x: Seq<char>| udt_refs(u).contains(x) ==> udt_refs(t).contains(x),
        depends_on(spec, u, n),
    ensures
        depends_on(spec, t, n),
{
    let p = choose|p: Seq<Seq<char>>| #[trigger] is_ref_chain(spec, p) && udt_refs(u).contains(p[0]) && p.last() == n;
    assert(is_ref_chain(spec, p) && udt_refs(t).contains(p[0]) && p.last() == n);
}

/// A type whose references are among those of `u` or `v` depends only on
/// what `u` or `v` depends on.
proof fn lemma_depends_split(spec: ContractSpecView, t: TypeView, u: TypeView, v: TypeView, n: Seq<char>)
    requires
        forall|x: Seq<char>| udt_refs(t).contains(x) ==> udt_refs(u).contains(x) || udt_refs(v).contains(x),
        depends_on(spec, t, n),
    ensures
        depends_on(spec, u, n) || depends_on(spec, v, n),
{
    let p = choose|p: Seq<Seq<char>>| #[trigger] is_ref_chain(spec, p) && udt_refs(t).contains(p[0]) && p.last() == n;
    if udt_refs(u).contains(p[0]) {
        assert(is_ref_chain(spec, p) && udt_refs(u).contains(p[0]) && p.last() == n);
    } else {
        assert(is_ref_chain(spec, p) && udt_refs(v).contains(p[0]) && p.last() == n);
    }
}

proof fn lemma_refs_all(ts: Seq<TypeView>, x: Seq<char>)
    ensures
        udt_refs_all(ts).contains(x) <==> exists|i: int| 0 <= i < ts.len() && #[trigger] udt_refs(ts[i]).contains(x),
    decreases ts.len(),
{
    if ts.len() > 0 {
        let p = ts.drop_last();
        lemma_refs_all(p, x);
        lemma_names_in_add(udt_refs_all(p), udt_refs(ts.last()), x);
        if exists|i: int| 0 <= i < ts.len() && #[trigger] udt_refs(ts[i]).contains(x) {
            let i = choose|i: int| 0 <= i < ts.len() && #[trigger] udt_refs(ts[i]).contains(x);
            if i < ts.len() - 1 {
                assert(p[i] == ts[i]);
            }
        }
        if exists|i: int| 0 <= i < p.len() && #[trigger] udt_refs(p[i]).contains(x) {
            let i = choose|i: int| 0 <= i < p.len() && #[trigger] udt_refs(p[i]).contains(x);
            assert(p[i] == ts[i]);
        }
    }
}

/// What a type depends on follows its structure: a map depends on what its
/// key or its value type depends on, a result on what its value or its error
/// type depends on, an option or a vector on what its element depends on, a
/// tuple on what any of its element types depends on; a scalar depends on
/// nothing; a named type depends on itself and on whatever its members (the
/// fields of a struct, the case values of a union) depend on.
pub proof fn law_dependencies_follow_type_structure(
    spec: ContractSpecView,
    a: TypeView,
    b: TypeView,
    ts: Seq<TypeView>,
    scalar: TypeView,
    m: Seq<char>,
    n: Seq<char>,
)
    requires
        !(scalar is OptionOf || scalar is ResultOf || scalar is VecOf || scalar is MapOf || scalar is TupleOf
            || scalar is Udt),
    ensures
        depends_on(spec, TypeView::MapOf(Box::new(a), Box::new(b)), n) <==> depends_on(spec, a, n) || depends_on(spec, b, n),
        depends_on(spec, TypeView::ResultOf(Box::new(a), Box::new(b)), n) <==> depends_on(spec, a, n) || depends_on(spec, b, n),
        depends_on(spec, TypeView::OptionOf(Box::new(a)), n) <==> depends_on(spec, a, n),
        depends_on(spec, TypeView::VecOf(Box::new(a)), n) <==> depends_on(spec, a, n),
        depends_on(spec, TypeView::TupleOf(ts), n) <==> exists|i: int| 0 <= i < ts.len() && #[trigger] depends_on(spec, ts[i], n),
        !depends_on(spec, scalar, n),
        depends_on(spec, TypeView::Udt(m), n) <==> (n == m || exists|k: int|
            0 <= k < member_types(spec, m).len() && #[trigger] depends_on(spec, member_types(spec, m)[k], n)),
{
    let map = TypeView::MapOf(Box::new(a), Box::new(b));
    let res = TypeView::ResultOf(Box::new(a), Box::new(b));
    let opt = TypeView::OptionOf(Box::new(a));
    let vec = TypeView::VecOf(Box::new(a));
    let tup = TypeView::TupleOf(ts);
    let udt = TypeView::Udt(m);
    assert forall|x: Seq<char>| udt_refs(map).contains(x) <==> udt_refs(a).contains(x) || udt_refs(b).contains(x) by {
        lemma_names_in_add(udt_refs(a), udt_refs(b), x);
    }
    assert forall|x: Seq<char>| udt_refs(res).contains(x) <==> udt_refs(a).contains(x) || udt_refs(b).contains(x) by {
        lemma_names_in_add(udt_refs(a), udt_refs(b), x);
    }
    if depends_on(spec, a, n) {
        lemma_depends_via(spec, map, a, n);
        lemma_depends_via(spec, res, a, n);
        lemma_depends_via(spec, opt, a, n);
        lemma_depends_via(spec, vec, a, n);
    }
    if depends_on(spec, b, n) {
        lemma_depends_via(spec, map, b, n);
        lemma_depends_via(spec, res, b, n);
    }
    if depends_on(spec, map, n) {
        lemma_depends_split(spec, map, a, b, n);
    }
    if depends_on(spec, res, n) {
        lemma_depends_split(spec, res, a, b, n);
    }
    if depends_on(spec, opt, n) {
        lemma_depends_split(spec, opt, a, a, n);
    }
    if depends_on(spec, vec, n) {
        lemma_depends_split(spec, vec, a, a, n);
    }
    // Tuples.
    if depends_on(spec, tup, n) {
        let p = choose|p: Seq<Seq<char>>| #[trigger] is_ref_chain(spec, p) && udt_refs(tup).contains(p[0]) && p.last() == n;
        lemma_refs_all(ts, p[0]);
        let i = choose|i: int| 0 <= i < ts.len() && #[trigger] udt_refs(ts[i]).contains(p[0]);
        assert(is_ref_chain(spec, p) && udt_refs(ts[i]).contains(p[0]) && p.last() == n);
        assert(depends_on(spec, ts[i], n));
    }
    if exists|i: int| 0 <= i < ts.len() && #[trigger] depends_on(spec, ts[i], n) {
        let i = choose|i: int| 0 <= i < ts.len() && #[trigger] depends_on(spec, ts[i], n);
        assert forall|x: Seq<char>| udt_refs(ts[i]).contains(x) implies udt_refs(tup).contains(x) by {
            lemma_refs_all(ts, x);
        }
        lemma_depends_via(spec, tup, ts[i], n);
    }
    // Scalars.
    assert(udt_refs(scalar) == Seq::<Seq<char>>::empty());
    // Named types.
    let mt = member_types(spec, m);
    let f = |t: TypeView| udt_refs(t);
    if depends_on(spec, udt, n) {
        let p = choose|p: Seq<Seq<char>>| #[trigger] is_ref_chain(spec, p) && udt_refs(udt).contains(p[0]) && p.last() == n;
        assert(udt_refs(udt) == seq![m]);
        assert(p[0] == m);
        if p.len() > 1 {
            assert(member_refs(spec, p[0]).contains(p[1]));
            assert(member_refs(spec, m) == mt.flat_map(f));
            let k = lemma_flat_map_contains_inv(mt, f, p[1]);
            let q = p.drop_first();
            assert forall|j: int| 0 <= j < q.len() - 1 implies #[trigger] member_refs(spec, q[j]).contains(q[j + 1]) by {
                let jj = j + 1;
                assert(q[j] == p[jj] && q[j + 1] == p[jj + 1]);
                assert(0 <= jj < p.len() - 1);
                assert(member_refs(spec, p[jj]).contains(p[jj + 1]));
            }
            assert(is_ref_chain(spec, q) && udt_refs(mt[k]).contains(q[0]) && q.last() == n);
            assert(depends_on(spec, mt[k], n));
        }
    }
    if n == m {
        let p = seq![m];
        assert(udt_refs(udt) == seq![m]);
        assert(udt_refs(udt)[0] == m);
        assert(is_ref_chain(spec, p) && udt_refs(udt).contains(p[0]) && p.last() == n);
    }
    if exists|k: int| 0 <= k < mt.len() && #[trigger] depends_on(spec, mt[k], n) {
        let k = choose|k: int| 0 <= k < mt.len() && #[trigger] depends_on(spec, mt[k], n);
        let q = choose|q: Seq<Seq<char>>| #[trigger] is_ref_chain(spec, q) && udt_refs(mt[k]).contains(q[0]) && q.last() == n;
        lemma_flat_map_contains(mt, f, k, q[0]);
        assert(member_refs(spec, m) == mt.flat_map(f));
        let p = seq![m] + q;
        assert forall|j: int| 0 <= j < p.len() - 1 implies #[trigger] member_refs(spec, p[j]).contains(p[j + 1]) by {
            if j == 0 {
                assert(p[0] == m && p[1] == q[0]);
            } else {
                let jj = j - 1;
                assert(p[j] == q[jj] && p[j + 1] == q[jj + 1]);
                assert(0 <= jj < q.len() - 1);
                assert(member_refs(spec, q[jj]).contains(q[jj + 1]));
            }
        }
        assert(udt_refs(udt) == seq![m]);
        assert(udt_refs(udt)[0] == m);
        assert(p[0] == m);
        assert(p.last() == q.last());
        assert(is_ref_chain(spec, p) && udt_refs(udt).contains(p[0]) && p.last() == n);
    }
}

// ---------------------------------------------------------------------------
// A break cascades to every type that embeds the broken one
// ---------------------------------------------------------------------------

/// When a member type of the struct or union `owner` depends on `t`, and the
/// direct findings report `t` broken, the report has a critical cascading
/// layout break for `owner`.
proof fn lemma_owner_cascades(
    old: ContractSpecView,
    new: ContractSpecView,
    report: Seq<FindingView>,
    owner: Seq<char>,
    ty: TypeView,
    t: Seq<char>,
)
    requires
        cascade_extends(old, direct_findings(old, new), report),
        owned_member_types(old).contains((owner, ty)),
        depends_on(old, ty, t),
        is_broken(direct_findings(old, new), t),
    ensures
        exists|k: int|
            0 <= k < report.len() && (#[trigger] report[k]).severity == Severity::Critical && report[k].category
                == "Cascading Layout Break"@ && report[k].affected_type == Some(owner),
{
    let ow = owned_member_types(old);
    let k0 = choose|k: int| 0 <= k < ow.len() && ow[k] == (owner, ty);
    assert(ow[k0].0 == owner && depends_on(old, ow[k0].1, t));
    assert(is_dependent(old, t, owner));
    let c = seq![t, owner];
    assert(is_dependent(old, c[0], c[1]));
    assert(is_dependent_chain(old, c));
    assert(c.last() == owner);
    assert(cascade_reaches(old, direct_findings(old, new), owner));
    let before = direct_findings(old, new);
    let added = report.skip(before.len() as int);
    let k = choose|k: int| 0 <= k < added.len() && (#[trigger] added[k]).affected_type == Some(owner);
    assert(cascade_step(old, before, added, k));
    let (x, y) = choose|x: Seq<char>, y: Seq<char>|
        #[trigger] cascading_break_finding(x, y) == added[k] && is_dependent(old, y, x) && (is_broken(before, y)
            || exists|j: int| 0 <= j < k && #[trigger] added[j].affected_type == Some(y));
    assert(report[before.len() + k] == added[k]);
}

/// A struct of the old interface with a field whose type depends, directly or
/// through other types and at any depth (inside options, vectors, maps,
/// results, tuples and other structs or unions), on a type that the
/// comparison reports broken, is reported as a critical cascading layout
/// break.
pub proof fn law_struct_embedding_a_broken_type_cascades(
    old: ContractSpecView,
    new: ContractSpecView,
    report: Seq<FindingView>,
    i: int,
    p: int,
    t: Seq<char>,
)
    requires
        cascade_extends(old, direct_findings(old, new), report),
        0 <= i < old.structs.len(),
        0 <= p < old.structs[i].fields.len(),
        depends_on(old, old.structs[i].fields[p].ty, t),
        is_broken(direct_findings(old, new), t),
    ensures
        exists|k: int|
            0 <= k < report.len() && (#[trigger] report[k]).severity == Severity::Critical && report[k].category
                == "Cascading Layout Break"@ && report[k].affected_type == Some(old.structs[i].name),
{
    let s = old.structs[i];
    let ty = s.fields[p].ty;
    let fs = |x: StructView| struct_owned(x);
    let fu = |u: crate::model::UnionView| crate::mapper::union_owned(u);
    assert(struct_field_types(s)[p] == ty);
    assert(struct_owned(s)[p] == (s.name, ty));
    assert(struct_owned(s).contains((s.name, ty)));
    lemma_flat_map_contains(old.structs, fs, i, (s.name, ty));
    let a = old.structs.flat_map(fs);
    let b = old.unions.flat_map(fu);
    let k = choose|k: int| 0 <= k < a.len() && a[k] == (s.name, ty);
    assert(owned_member_types(old) == a + b);
    assert((a + b)[k] == (s.name, ty));
    lemma_owner_cascades(old, new, report, s.name, ty, t);
}

/// A union of the old interface with a case value type that depends, at any
/// depth, on a type that the comparison reports broken, is reported as a
/// critical cascading layout break.
pub proof fn law_union_embedding_a_broken_type_cascades(
    old: ContractSpecView,
    new: ContractSpecView,
    report: Seq<FindingView>,
    i: int,
    p: int,
    t: Seq<char>,
)
    requires
        cascade_extends(old, direct_findings(old, new), report),
        0 <= i < old.unions.len(),
        0 <= p < union_case_types(old.unions[i].cases).len(),
        depends_on(old, union_case_types(old.unions[i].cases)[p], t),
        is_broken(direct_findings(old, new), t),
    ensures
        exists|k: int|
            0 <= k < report.len() && (#[trigger] report[k]).severity == Severity::Critical && report[k].category
                == "Cascading Layout Break"@ && report[k].affected_type == Some(old.unions[i].name),
{
    let u = old.unions[i];
    let ty = union_case_types(u.cases)[p];
    let fs = |x: StructView| struct_owned(x);
    let fu = |x: crate::model::UnionView| crate::mapper::union_owned(x);
    assert(crate::mapper::union_owned(u)[p] == (u.name, ty));
    assert(crate::mapper::union_owned(u).contains((u.name, ty)));
    lemma_flat_map_contains(old.unions, fu, i, (u.name, ty));
    let a = old.structs.flat_map(fs);
    let b = old.unions.flat_map(fu);
    let k = choose|k: int| 0 <= k < b.len() && b[k] == (u.name, ty);
    assert(owned_member_types(old) == a + b);
    assert((a + b)[a.len() + k] == (u.name, ty));
    lemma_owner_cascades(old, new, report, u.name, ty, t);
}

// ---------------------------------------------------------------------------
// Distinct scalar types are spelled apart
// ---------------------------------------------------------------------------

/// The spellings of the scalar types, letter by letter.
proof fn lemma_scalar_spellings()
    ensures
        "Val"@ == seq!['V', 'a', 'l'],
        "bool"@ == seq!['b', 'o', 'o', 'l'],
        "()"@ == seq!['(', ')'],
        "Error"@ == seq!['E', 'r', 'r', 'o', 'r'],
        "u32"@ == seq!['u', '3', '2'],
        "i32"@ == seq!['i', '3', '2'],
        "u64"@ == seq!['u', '6', '4'],
        "i64"@ == seq!['i', '6', '4'],
        "Timepoint"@ == seq!['T', 'i', 'm', 'e', 'p', 'o', 'i', 'n', 't'],
        "Duration"@ == seq!['D', 'u', 'r', 'a', 't', 'i', 'o', 'n'],
        "u128"@ == seq!['u', '1', '2', '8'],
        "i128"@ == seq!['i', '1', '2', '8'],
        "u256"@ == seq!['u', '2', '5', '6'],
        "i256"@ == seq!['i', '2', '5', '6'],
        "Bytes"@ == seq!['B', 'y', 't', 'e', 's'],
        "String"@ == seq!['S', 't', 'r', 'i', 'n', 'g'],
        "Symbol"@ == seq!['S', 'y', 'm', 'b', 'o', 'l'],
        "Address"@ == seq!['A', 'd', 'd', 'r', 'e', 's', 's'],
{
    reveal_strlit("Val");
    reveal_strlit("bool");
    reveal_strlit("()");
    reveal_strlit("Error");
    reveal_strlit("u32");
    reveal_strlit("i32");
    reveal_strlit("u64");
    reveal_strlit("i64");
    reveal_strlit("Timepoint");
    reveal_strlit("Duration");
    reveal_strlit("u128");
    reveal_strlit("i128");
    reveal_strlit("u256");
    reveal_strlit("i256");
    reveal_strlit("Bytes");
    reveal_strlit("String");
    reveal_strlit("Symbol");
    reveal_strlit("Address");
}

/// A scalar type: no type inside it and no name.
pub open spec fn is_scalar(t: TypeView) -> bool {
    !(t is OptionOf || t is ResultOf || t is VecOf || t is MapOf || t is TupleOf || t is BytesN || t is Udt)
}

/// Two different scalar types never render alike, so a change from one to
/// the other reads as a change in every message that spells them.
pub proof fn law_scalar_spellings_distinct(a: TypeView, b: TypeView)
    requires
        is_scalar(a),
        is_scalar(b),
        a != b,
    ensures
        type_string(a) != type_string(b),
{
    lemma_scalar_spellings();
}

} // verus!
