use vstd::prelude::*;
use vstd::string::StringExecFns;

use crate::mapper::{type_string, type_to_string};
use crate::model::{TypeDef, TypeView};
use crate::text::{append_decimal, decimal};

verus! {

/// Severity of a detected issue.
#[derive(Debug, Clone, Copy, PartialEq, Eq, Structural)]
pub enum Severity {
    Critical,
    Warning,
    Info,
}

/// A single finding from the comparison analysis.
#[derive(Debug, Clone)]
pub struct Finding {
    pub severity: Severity,
    pub category: String,
    pub message: String,
    /// The name of the affected user-defined type, if the finding relates to
    /// one; cascade detection reads it instead of the message.
    pub affected_type: Option<String>,
}

pub struct FindingView {
    pub severity: Severity,
    pub category: Seq<char>,
    pub message: Seq<char>,
    pub affected_type: Option<Seq<char>>,
}

impl View for Finding {
    type V = FindingView;

    open spec fn view(&self) -> FindingView {
        FindingView {
            severity: self.severity,
            category: self.category@,
            message: self.message@,
            affected_type: match self.affected_type {
                Some(n) => Some(n@),
                None => None,
            },
        }
    }
}

/// All findings from a comparison of two contract interfaces.
#[derive(Debug)]
pub struct DiffReport {
    pub findings: Vec<Finding>,
}

pub open spec fn findings_view(v: Seq<Finding>) -> Seq<FindingView> {
    v.map_values(|f: Finding| f@)
}

impl View for DiffReport {
    type V = Seq<FindingView>;

    open spec fn view(&self) -> Seq<FindingView> {
        findings_view(self.findings@)
    }
}

/// The number of findings of severity `s`.
pub open spec fn count_severity(fs: Seq<FindingView>, s: Severity) -> nat
    decreases fs.len(),
{
    if fs.len() == 0 {
        0
    } else {
        count_severity(fs.drop_last(), s) + (if fs.last().severity == s { 1nat } else { 0nat })
    }
}

impl Default for DiffReport {
    fn default() -> (r: DiffReport)
        ensures
            r@ == Seq::<FindingView>::empty(),
    {
        let r = DiffReport { findings: Vec::new() };
        assert(r@ =~= Seq::<FindingView>::empty());
        r
    }
}

impl DiffReport {
    /// Appends one finding.
    pub fn add(&mut self, f: Finding)
        ensures
            final(self)@ == old(self)@.push(f@),
    {
        self.findings.push(f);
        assert(self@ =~= old(self)@.push(f@));
    }

    fn count(&self, s: Severity) -> (r: usize)
        ensures
            r == count_severity(self@, s),
    {
        let mut n: usize = 0;
        let mut i: usize = 0;
        while i < self.findings.len()
            invariant
                i <= self.findings.len(),
                n == count_severity(self@.take(i as int), s),
                n <= i,
            decreases self.findings.len() - i,
        {
            assert(self@.take(i + 1).drop_last() =~= self@.take(i as int));
            if self.findings[i].severity == s {
                n = n + 1;
            }
            i = i + 1;
        }
        assert(self@.take(self.findings.len() as int) =~= self@);
        n
    }

    /// The number of critical findings.
    pub fn critical_count(&self) -> (r: usize)
        ensures
            r == count_severity(self@, Severity::Critical),
    {
        self.count(Severity::Critical)
    }

    /// The number of warnings.
    pub fn warning_count(&self) -> (r: usize)
        ensures
            r == count_severity(self@, Severity::Warning),
    {
        self.count(Severity::Warning)
    }

    /// The number of informational findings.
    pub fn info_count(&self) -> (r: usize)
        ensures
            r == count_severity(self@, Severity::Info),
    {
        self.count(Severity::Info)
    }
}

// ---------------------------------------------------------------------------
// The findings the comparison can report
// ---------------------------------------------------------------------------

/// A function of the old interface is missing from the new one.
pub open spec fn function_removed_finding(name: Seq<char>) -> FindingView {
    FindingView {
        severity: Severity::Critical,
        category: "Function Removed"@,
        message: "Function '"@ + name + "' was removed. Existing callers will break."@,
        affected_type: None,
    }
}

/// A function appears only in the new interface.
pub open spec fn function_added_finding(name: Seq<char>) -> FindingView {
    FindingView {
        severity: Severity::Info,
        category: "Function Added"@,
        message: "New function '"@ + name + "' added."@,
        affected_type: None,
    }
}

/// A function's number of parameters changed.
pub open spec fn param_count_changed_finding(name: Seq<char>, old_count: nat, new_count: nat) -> FindingView {
    FindingView {
        severity: Severity::Critical,
        category: "Function Signature Changed"@,
        message: "Function '"@ + name + "': parameter count changed from "@ + decimal(old_count) + " to "@ + decimal(new_count) + "."@,
        affected_type: None,
    }
}

/// A parameter kept its position but changed its name.
pub open spec fn param_renamed_finding(name: Seq<char>, index: nat, old_param: Seq<char>, new_param: Seq<char>) -> FindingView {
    FindingView {
        severity: Severity::Warning,
        category: "Parameter Renamed"@,
        message: "Function '"@ + name + "': parameter "@ + decimal(index) + " renamed from '"@ + old_param + "' to '"@ + new_param + "'."@,
        affected_type: None,
    }
}

/// A parameter kept its position but changed its type.
pub open spec fn param_type_changed_finding(name: Seq<char>, index: nat, param: Seq<char>, old_type: TypeView, new_type: TypeView) -> FindingView {
    FindingView {
        severity: Severity::Critical,
        category: "Parameter Type Changed"@,
        message: "Function '"@ + name + "': parameter "@ + decimal(index) + " ('"@ + param + "') type changed from `"@ + type_string(old_type) + "` to `"@ + type_string(new_type) + "`."@,
        affected_type: None,
    }
}

/// A function's number of return values changed.
pub open spec fn return_count_changed_finding(name: Seq<char>, old_count: nat, new_count: nat) -> FindingView {
    FindingView {
        severity: Severity::Critical,
        category: "Return Type Changed"@,
        message: "Function '"@ + name + "': return type count changed from "@ + decimal(old_count) + " to "@ + decimal(new_count) + "."@,
        affected_type: None,
    }
}

/// A return value kept its position but changed its type.
pub open spec fn return_type_changed_finding(name: Seq<char>, index: nat, old_type: TypeView, new_type: TypeView) -> FindingView {
    FindingView {
        severity: Severity::Critical,
        category: "Return Type Changed"@,
        message: "Function '"@ + name + "': return type "@ + decimal(index) + " changed from `"@ + type_string(old_type) + "` to `"@ + type_string(new_type) + "`."@,
        affected_type: None,
    }
}

/// A struct of the old interface is missing from the new one.
pub open spec fn struct_removed_finding(evt: bool, name: Seq<char>) -> FindingView {
    FindingView {
        severity: Severity::Critical,
        category: (if evt { "Event Definition Removed"@ } else { "Struct Removed"@ }),
        message: (if evt { "Event struct"@ } else { "Struct"@ }) + " '"@ + name + "' was removed. Storage or systems relying on this type will break."@,
        affected_type: Some(name),
    }
}

/// A struct appears only in the new interface.
pub open spec fn struct_added_finding(name: Seq<char>) -> FindingView {
    FindingView {
        severity: Severity::Info,
        category: "Struct Added"@,
        message: "New struct '"@ + name + "' added."@,
        affected_type: Some(name),
    }
}

/// A named field of a struct disappeared.
pub open spec fn field_removed_finding(evt: bool, name: Seq<char>, field: Seq<char>) -> FindingView {
    FindingView {
        severity: Severity::Critical,
        category: (if evt { "Event Schema Removed"@ } else { "Struct Field Removed"@ }),
        message: (if evt { "Event schema"@ } else { "Struct"@ }) + " '"@ + name + "': field '"@ + field + "' was removed. Backwards compatibility is broken."@,
        affected_type: Some(name),
    }
}

/// The field at a position of a struct now has another name.
pub open spec fn field_reordered_finding(evt: bool, name: Seq<char>, index: nat, old_field: Seq<char>, new_field: Seq<char>) -> FindingView {
    FindingView {
        severity: Severity::Critical,
        category: (if evt { "Event Schema Reordered"@ } else { "Struct Field Reordered"@ }),
        message: (if evt { "Event schema"@ } else { "Struct"@ }) + " '"@ + name + "': field at position "@ + decimal(index) + " changed from '"@ + old_field + "' to '"@ + new_field + "'. Positional serialization breaks layout compatibility."@,
        affected_type: Some(name),
    }
}

/// The field at a position of a struct changed its type.
pub open spec fn field_type_changed_finding(evt: bool, name: Seq<char>, field: Seq<char>, index: nat, old_type: TypeView, new_type: TypeView) -> FindingView {
    FindingView {
        severity: Severity::Critical,
        category: (if evt { "Event Schema Type Changed"@ } else { "Struct Field Type Changed"@ }),
        message: (if evt { "Event schema"@ } else { "Struct"@ }) + " '"@ + name + "': field '"@ + field + "' (position "@ + decimal(index) + ") type changed from `"@ + type_string(old_type) + "` to `"@ + type_string(new_type) + "`."@,
        affected_type: Some(name),
    }
}

/// A field was appended after the existing fields of a struct.
pub open spec fn field_added_finding(name: Seq<char>, field: Seq<char>) -> FindingView {
    FindingView {
        severity: Severity::Warning,
        category: "Struct Field Added"@,
        message: "Struct '"@ + name + "': new field '"@ + field + "' appended. Existing storage entries won't have this field — ensure migration handles defaults."@,
        affected_type: Some(name),
    }
}

/// An enum of the old interface is missing from the new one.
pub open spec fn enum_removed_finding(evt: bool, name: Seq<char>) -> FindingView {
    FindingView {
        severity: Severity::Critical,
        category: (if evt { "Event Enum Removed"@ } else { "Enum Removed"@ }),
        message: (if evt { "Event enum"@ } else { "Enum"@ }) + " '"@ + name + "' was removed. Data using this type will be invalid."@,
        affected_type: Some(name),
    }
}

/// An enum appears only in the new interface.
pub open spec fn enum_added_finding(name: Seq<char>) -> FindingView {
    FindingView {
        severity: Severity::Info,
        category: "Enum Added"@,
        message: "New enum '"@ + name + "' added."@,
        affected_type: Some(name),
    }
}

/// A case of an enum disappeared.
pub open spec fn case_removed_finding(evt: bool, name: Seq<char>, case_name: Seq<char>, value: nat) -> FindingView {
    FindingView {
        severity: Severity::Critical,
        category: (if evt { "Event Enum Case Removed"@ } else { "Enum Case Removed"@ }),
        message: (if evt { "Event enum"@ } else { "Enum"@ }) + " '"@ + name + "': case '"@ + case_name + "' (value: "@ + decimal(value) + ") was removed. On-chain data or events relying on this value will be invalid."@,
        affected_type: Some(name),
    }
}

/// A case of an enum kept its name but changed its integer value.
pub open spec fn case_value_changed_finding(evt: bool, name: Seq<char>, case_name: Seq<char>, old_value: nat, new_value: nat) -> FindingView {
    FindingView {
        severity: Severity::Critical,
        category: (if evt { "Event Enum Case Value Changed"@ } else { "Enum Case Value Changed"@ }),
        message: (if evt { "Event enum"@ } else { "Enum"@ }) + " '"@ + name + "': case '"@ + case_name + "' value changed from "@ + decimal(old_value) + " to "@ + decimal(new_value) + ". This breaks data serialization."@,
        affected_type: Some(name),
    }
}

/// A case appears only in the new version of an enum.
pub open spec fn case_added_finding(evt: bool, name: Seq<char>, case_name: Seq<char>, value: nat) -> FindingView {
    FindingView {
        severity: Severity::Info,
        category: (if evt { "Event Enum Case Added"@ } else { "Enum Case Added"@ }),
        message: (if evt { "Event enum"@ } else { "Enum"@ }) + " '"@ + name + "': new case '"@ + case_name + "' (value "@ + decimal(value) + ") added."@,
        affected_type: Some(name),
    }
}

/// A type embeds, directly or transitively, a type whose layout broke.
pub open spec fn cascading_break_finding(dependent: Seq<char>, modified: Seq<char>) -> FindingView {
    FindingView {
        severity: Severity::Critical,
        category: "Cascading Layout Break"@,
        message: "Type '"@ + dependent + "' layout is implicitly broken safely because it contains modified type '"@ + modified + "'. This breaks backwards compatibility for storage."@,
        affected_type: Some(dependent),
    }
}

// ---------------------------------------------------------------------------
// How categories classify findings
// ---------------------------------------------------------------------------

/// The severity that findings of category `c` carry: warnings for renamed
/// parameters and appended struct fields, information for the other
/// additions, critical for everything else.
pub open spec fn category_severity(c: Seq<char>) -> Severity {
    if c == "Parameter Renamed"@ ||
        c == "Struct Field Added"@ {
        Severity::Warning
    } else if c == "Function Added"@ ||
        c == "Struct Added"@ ||
        c == "Enum Added"@ ||
        c == "Enum Case Added"@ ||
        c == "Event Enum Case Added"@ {
        Severity::Info
    } else {
        Severity::Critical
    }
}

/// Whether `c` is a category of findings about a function.
pub open spec fn is_function_category(c: Seq<char>) -> bool {
    c == "Function Removed"@ ||
    c == "Function Signature Changed"@ ||
    c == "Parameter Renamed"@ ||
    c == "Parameter Type Changed"@ ||
    c == "Return Type Changed"@ ||
    c == "Function Added"@
}

/// A finding carries the severity of its category, and names a type
/// exactly when it is not about a function.
pub open spec fn well_classified(f: FindingView) -> bool {
    &&& f.severity == category_severity(f.category)
    &&& (f.affected_type is None <==> is_function_category(f.category))
}

/// Every category the comparison reports, spelled out.
pub(crate) proof fn lemma_category_literals()
    ensures
        "Function Removed"@ == seq!['F', 'u', 'n', 'c', 't', 'i', 'o', 'n', ' ', 'R', 'e', 'm', 'o', 'v', 'e', 'd'],
        "Function Added"@ == seq!['F', 'u', 'n', 'c', 't', 'i', 'o', 'n', ' ', 'A', 'd', 'd', 'e', 'd'],
        "Function Signature Changed"@ == seq!['F', 'u', 'n', 'c', 't', 'i', 'o', 'n', ' ', 'S', 'i', 'g', 'n', 'a', 't', 'u', 'r', 'e', ' ', 'C', 'h', 'a', 'n', 'g', 'e', 'd'],
        "Parameter Renamed"@ == seq!['P', 'a', 'r', 'a', 'm', 'e', 't', 'e', 'r', ' ', 'R', 'e', 'n', 'a', 'm', 'e', 'd'],
        "Parameter Type Changed"@ == seq!['P', 'a', 'r', 'a', 'm', 'e', 't', 'e', 'r', ' ', 'T', 'y', 'p', 'e', ' ', 'C', 'h', 'a', 'n', 'g', 'e', 'd'],
        "Return Type Changed"@ == seq!['R', 'e', 't', 'u', 'r', 'n', ' ', 'T', 'y', 'p', 'e', ' ', 'C', 'h', 'a', 'n', 'g', 'e', 'd'],
        "Event Definition Removed"@ == seq!['E', 'v', 'e', 'n', 't', ' ', 'D', 'e', 'f', 'i', 'n', 'i', 't', 'i', 'o', 'n', ' ', 'R', 'e', 'm', 'o', 'v', 'e', 'd'],
        "Struct Removed"@ == seq!['S', 't', 'r', 'u', 'c', 't', ' ', 'R', 'e', 'm', 'o', 'v', 'e', 'd'],
        "Struct Added"@ == seq!['S', 't', 'r', 'u', 'c', 't', ' ', 'A', 'd', 'd', 'e', 'd'],
        "Event Schema Removed"@ == seq!['E', 'v', 'e', 'n', 't', ' ', 'S', 'c', 'h', 'e', 'm', 'a', ' ', 'R', 'e', 'm', 'o', 'v', 'e', 'd'],
        "Struct Field Removed"@ == seq!['S', 't', 'r', 'u', 'c', 't', ' ', 'F', 'i', 'e', 'l', 'd', ' ', 'R', 'e', 'm', 'o', 'v', 'e', 'd'],
        "Event Schema Reordered"@ == seq!['E', 'v', 'e', 'n', 't', ' ', 'S', 'c', 'h', 'e', 'm', 'a', ' ', 'R', 'e', 'o', 'r', 'd', 'e', 'r', 'e', 'd'],
        "Struct Field Reordered"@ == seq!['S', 't', 'r', 'u', 'c', 't', ' ', 'F', 'i', 'e', 'l', 'd', ' ', 'R', 'e', 'o', 'r', 'd', 'e', 'r', 'e', 'd'],
        "Event Schema Type Changed"@ == seq!['E', 'v', 'e', 'n', 't', ' ', 'S', 'c', 'h', 'e', 'm', 'a', ' ', 'T', 'y', 'p', 'e', ' ', 'C', 'h', 'a', 'n', 'g', 'e', 'd'],
        "Struct Field Type Changed"@ == seq!['S', 't', 'r', 'u', 'c', 't', ' ', 'F', 'i', 'e', 'l', 'd', ' ', 'T', 'y', 'p', 'e', ' ', 'C', 'h', 'a', 'n', 'g', 'e', 'd'],
        "Struct Field Added"@ == seq!['S', 't', 'r', 'u', 'c', 't', ' ', 'F', 'i', 'e', 'l', 'd', ' ', 'A', 'd', 'd', 'e', 'd'],
        "Event Enum Removed"@ == seq!['E', 'v', 'e', 'n', 't', ' ', 'E', 'n', 'u', 'm', ' ', 'R', 'e', 'm', 'o', 'v', 'e', 'd'],
        "Enum Removed"@ == seq!['E', 'n', 'u', 'm', ' ', 'R', 'e', 'm', 'o', 'v', 'e', 'd'],
        "Enum Added"@ == seq!['E', 'n', 'u', 'm', ' ', 'A', 'd', 'd', 'e', 'd'],
        "Event Enum Case Removed"@ == seq!['E', 'v', 'e', 'n', 't', ' ', 'E', 'n', 'u', 'm', ' ', 'C', 'a', 's', 'e', ' ', 'R', 'e', 'm', 'o', 'v', 'e', 'd'],
        "Enum Case Removed"@ == seq!['E', 'n', 'u', 'm', ' ', 'C', 'a', 's', 'e', ' ', 'R', 'e', 'm', 'o', 'v', 'e', 'd'],
        "Event Enum Case Value Changed"@ == seq!['E', 'v', 'e', 'n', 't', ' ', 'E', 'n', 'u', 'm', ' ', 'C', 'a', 's', 'e', ' ', 'V', 'a', 'l', 'u', 'e', ' ', 'C', 'h', 'a', 'n', 'g', 'e', 'd'],
        "Enum Case Value Changed"@ == seq!['E', 'n', 'u', 'm', ' ', 'C', 'a', 's', 'e', ' ', 'V', 'a', 'l', 'u', 'e', ' ', 'C', 'h', 'a', 'n', 'g', 'e', 'd'],
        "Event Enum Case Added"@ == seq!['E', 'v', 'e', 'n', 't', ' ', 'E', 'n', 'u', 'm', ' ', 'C', 'a', 's', 'e', ' ', 'A', 'd', 'd', 'e', 'd'],
        "Enum Case Added"@ == seq!['E', 'n', 'u', 'm', ' ', 'C', 'a', 's', 'e', ' ', 'A', 'd', 'd', 'e', 'd'],
        "Cascading Layout Break"@ == seq!['C', 'a', 's', 'c', 'a', 'd', 'i', 'n', 'g', ' ', 'L', 'a', 'y', 'o', 'u', 't', ' ', 'B', 'r', 'e', 'a', 'k'],
{
    reveal_strlit("Function Removed");
    reveal_strlit("Function Added");
    reveal_strlit("Function Signature Changed");
    reveal_strlit("Parameter Renamed");
    reveal_strlit("Parameter Type Changed");
    reveal_strlit("Return Type Changed");
    reveal_strlit("Event Definition Removed");
    reveal_strlit("Struct Removed");
    reveal_strlit("Struct Added");
    reveal_strlit("Event Schema Removed");
    reveal_strlit("Struct Field Removed");
    reveal_strlit("Event Schema Reordered");
    reveal_strlit("Struct Field Reordered");
    reveal_strlit("Event Schema Type Changed");
    reveal_strlit("Struct Field Type Changed");
    reveal_strlit("Struct Field Added");
    reveal_strlit("Event Enum Removed");
    reveal_strlit("Enum Removed");
    reveal_strlit("Enum Added");
    reveal_strlit("Event Enum Case Removed");
    reveal_strlit("Enum Case Removed");
    reveal_strlit("Event Enum Case Value Changed");
    reveal_strlit("Enum Case Value Changed");
    reveal_strlit("Event Enum Case Added");
    reveal_strlit("Enum Case Added");
    reveal_strlit("Cascading Layout Break");
}

/// Every finding the comparison can report is well classified.
pub proof fn lemma_findings_well_classified()
    ensures
        forall|n: Seq<char>| #[trigger] well_classified(function_removed_finding(n)),
        forall|n: Seq<char>| #[trigger] well_classified(function_added_finding(n)),
        forall|n: Seq<char>, a: nat, b: nat| #[trigger] well_classified(param_count_changed_finding(n, a, b)),
        forall|n: Seq<char>, i: nat, a: Seq<char>, b: Seq<char>| #[trigger] well_classified(param_renamed_finding(n, i, a, b)),
        forall|n: Seq<char>, i: nat, p: Seq<char>, a: TypeView, b: TypeView| #[trigger] well_classified(param_type_changed_finding(n, i, p, a, b)),
        forall|n: Seq<char>, a: nat, b: nat| #[trigger] well_classified(return_count_changed_finding(n, a, b)),
        forall|n: Seq<char>, i: nat, a: TypeView, b: TypeView| #[trigger] well_classified(return_type_changed_finding(n, i, a, b)),
        forall|e: bool, n: Seq<char>| #[trigger] well_classified(struct_removed_finding(e, n)),
        forall|n: Seq<char>| #[trigger] well_classified(struct_added_finding(n)),
        forall|e: bool, n: Seq<char>, f: Seq<char>| #[trigger] well_classified(field_removed_finding(e, n, f)),
        forall|e: bool, n: Seq<char>, i: nat, a: Seq<char>, b: Seq<char>| #[trigger] well_classified(field_reordered_finding(e, n, i, a, b)),
        forall|e: bool, n: Seq<char>, f: Seq<char>, i: nat, a: TypeView, b: TypeView| #[trigger] well_classified(field_type_changed_finding(e, n, f, i, a, b)),
        forall|n: Seq<char>, f: Seq<char>| #[trigger] well_classified(field_added_finding(n, f)),
        forall|e: bool, n: Seq<char>| #[trigger] well_classified(enum_removed_finding(e, n)),
        forall|n: Seq<char>| #[trigger] well_classified(enum_added_finding(n)),
        forall|e: bool, n: Seq<char>, c: Seq<char>, v: nat| #[trigger] well_classified(case_removed_finding(e, n, c, v)),
        forall|e: bool, n: Seq<char>, c: Seq<char>, a: nat, b: nat| #[trigger] well_classified(case_value_changed_finding(e, n, c, a, b)),
        forall|e: bool, n: Seq<char>, c: Seq<char>, v: nat| #[trigger] well_classified(case_added_finding(e, n, c, v)),
        forall|d: Seq<char>, m: Seq<char>| #[trigger] well_classified(cascading_break_finding(d, m)),
{
    lemma_category_literals();
}

/// Builds the finding: a function of the old interface is missing from the new one.
pub fn function_removed(name: &String) -> (r: Finding)
    ensures
        r@ == function_removed_finding(name@),
{
    let category = String::from_str("Function Removed");
    let mut message = String::from_str("Function '");
    message.append(name.as_str());
    message.append("' was removed. Existing callers will break.");
    Finding { severity: Severity::Critical, category, message, affected_type: None }
}

/// Builds the finding: a function appears only in the new interface.
pub fn function_added(name: &String) -> (r: Finding)
    ensures
        r@ == function_added_finding(name@),
{
    let category = String::from_str("Function Added");
    let mut message = String::from_str("New function '");
    message.append(name.as_str());
    message.append("' added.");
    Finding { severity: Severity::Info, category, message, affected_type: None }
}

/// Builds the finding: a function's number of parameters changed.
pub fn param_count_changed(name: &String, old_count: u64, new_count: u64) -> (r: Finding)
    ensures
        r@ == param_count_changed_finding(name@, old_count as nat, new_count as nat),
{
    let category = String::from_str("Function Signature Changed");
    let mut message = String::from_str("Function '");
    message.append(name.as_str());
    message.append("': parameter count changed from ");
    append_decimal(&mut message, old_count);
    message.append(" to ");
    append_decimal(&mut message, new_count);
    message.append(".");
    Finding { severity: Severity::Critical, category, message, affected_type: None }
}

/// Builds the finding: a parameter kept its position but changed its name.
pub fn param_renamed(name: &String, index: u64, old_param: &String, new_param: &String) -> (r: Finding)
    ensures
        r@ == param_renamed_finding(name@, index as nat, old_param@, new_param@),
{
    let category = String::from_str("Parameter Renamed");
    let mut message = String::from_str("Function '");
    message.append(name.as_str());
    message.append("': parameter ");
    append_decimal(&mut message, index);
    message.append(" renamed from '");
    message.append(old_param.as_str());
    message.append("' to '");
    message.append(new_param.as_str());
    message.append("'.");
    Finding { severity: Severity::Warning, category, message, affected_type: None }
}

/// Builds the finding: a parameter kept its position but changed its type.
pub fn param_type_changed(name: &String, index: u64, param: &String, old_type: &TypeDef, new_type: &TypeDef) -> (r: Finding)
    ensures
        r@ == param_type_changed_finding(name@, index as nat, param@, old_type@, new_type@),
{
    let category = String::from_str("Parameter Type Changed");
    let mut message = String::from_str("Function '");
    message.append(name.as_str());
    message.append("': parameter ");
    append_decimal(&mut message, index);
    message.append(" ('");
    message.append(param.as_str());
    message.append("') type changed from `");
    let old_type_text = type_to_string(old_type);
    message.append(old_type_text.as_str());
    message.append("` to `");
    let new_type_text = type_to_string(new_type);
    message.append(new_type_text.as_str());
    message.append("`.");
    Finding { severity: Severity::Critical, category, message, affected_type: None }
}

/// Builds the finding: a function's number of return values changed.
pub fn return_count_changed(name: &String, old_count: u64, new_count: u64) -> (r: Finding)
    ensures
        r@ == return_count_changed_finding(name@, old_count as nat, new_count as nat),
{
    let category = String::from_str("Return Type Changed");
    let mut message = String::from_str("Function '");
    message.append(name.as_str());
    message.append("': return type count changed from ");
    append_decimal(&mut message, old_count);
    message.append(" to ");
    append_decimal(&mut message, new_count);
    message.append(".");
    Finding { severity: Severity::Critical, category, message, affected_type: None }
}

/// Builds the finding: a return value kept its position but changed its type.
pub fn return_type_changed(name: &String, index: u64, old_type: &TypeDef, new_type: &TypeDef) -> (r: Finding)
    ensures
        r@ == return_type_changed_finding(name@, index as nat, old_type@, new_type@),
{
    let category = String::from_str("Return Type Changed");
    let mut message = String::from_str("Function '");
    message.append(name.as_str());
    message.append("': return type ");
    append_decimal(&mut message, index);
    message.append(" changed from `");
    let old_type_text = type_to_string(old_type);
    message.append(old_type_text.as_str());
    message.append("` to `");
    let new_type_text = type_to_string(new_type);
    message.append(new_type_text.as_str());
    message.append("`.");
    Finding { severity: Severity::Critical, category, message, affected_type: None }
}

/// Builds the finding: a struct of the old interface is missing from the new one.
pub fn struct_removed(evt: bool, name: &String) -> (r: Finding)
    ensures
        r@ == struct_removed_finding(evt, name@),
{
    let category = if evt { String::from_str("Event Definition Removed") } else { String::from_str("Struct Removed") };
    let mut message = if evt { String::from_str("Event struct") } else { String::from_str("Struct") };
    message.append(" '");
    message.append(name.as_str());
    message.append("' was removed. Storage or systems relying on this type will break.");
    Finding { severity: Severity::Critical, category, message, affected_type: Some(name.clone()) }
}

/// Builds the finding: a struct appears only in the new interface.
pub fn struct_added(name: &String) -> (r: Finding)
    ensures
        r@ == struct_added_finding(name@),
{
    let category = String::from_str("Struct Added");
    let mut message = String::from_str("New struct '");
    message.append(name.as_str());
    message.append("' added.");
    Finding { severity: Severity::Info, category, message, affected_type: Some(name.clone()) }
}

/// Builds the finding: a named field of a struct disappeared.
pub fn field_removed(evt: bool, name: &String, field: &String) -> (r: Finding)
    ensures
        r@ == field_removed_finding(evt, name@, field@),
{
    let category = if evt { String::from_str("Event Schema Removed") } else { String::from_str("Struct Field Removed") };
    let mut message = if evt { String::from_str("Event schema") } else { String::from_str("Struct") };
    message.append(" '");
    message.append(name.as_str());
    message.append("': field '");
    message.append(field.as_str());
    message.append("' was removed. Backwards compatibility is broken.");
    Finding { severity: Severity::Critical, category, message, affected_type: Some(name.clone()) }
}

/// Builds the finding: the field at a position of a struct now has another name.
pub fn field_reordered(evt: bool, name: &String, index: u64, old_field: &String, new_field: &String) -> (r: Finding)
    ensures
        r@ == field_reordered_finding(evt, name@, index as nat, old_field@, new_field@),
{
    let category = if evt { String::from_str("Event Schema Reordered") } else { String::from_str("Struct Field Reordered") };
    let mut message = if evt { String::from_str("Event schema") } else { String::from_str("Struct") };
    message.append(" '");
    message.append(name.as_str());
    message.append("': field at position ");
    append_decimal(&mut message, index);
    message.append(" changed from '");
    message.append(old_field.as_str());
    message.append("' to '");
    message.append(new_field.as_str());
    message.append("'. Positional serialization breaks layout compatibility.");
    Finding { severity: Severity::Critical, category, message, affected_type: Some(name.clone()) }
}

/// Builds the finding: the field at a position of a struct changed its type.
pub fn field_type_changed(evt: bool, name: &String, field: &String, index: u64, old_type: &TypeDef, new_type: &TypeDef) -> (r: Finding)
    ensures
        r@ == field_type_changed_finding(evt, name@, field@, index as nat, old_type@, new_type@),
{
    let category = if evt { String::from_str("Event Schema Type Changed") } else { String::from_str("Struct Field Type Changed") };
    let mut message = if evt { String::from_str("Event schema") } else { String::from_str("Struct") };
    message.append(" '");
    message.append(name.as_str());
    message.append("': field '");
    message.append(field.as_str());
    message.append("' (position ");
    append_decimal(&mut message, index);
    message.append(") type changed from `");
    let old_type_text = type_to_string(old_type);
    message.append(old_type_text.as_str());
    message.append("` to `");
    let new_type_text = type_to_string(new_type);
    message.append(new_type_text.as_str());
    message.append("`.");
    Finding { severity: Severity::Critical, category, message, affected_type: Some(name.clone()) }
}

/// Builds the finding: a field was appended after the existing fields of a struct.
pub fn field_added(name: &String, field: &String) -> (r: Finding)
    ensures
        r@ == field_added_finding(name@, field@),
{
    let category = String::from_str("Struct Field Added");
    let mut message = String::from_str("Struct '");
    message.append(name.as_str());
    message.append("': new field '");
    message.append(field.as_str());
    message.append("' appended. Existing storage entries won't have this field — ensure migration handles defaults.");
    Finding { severity: Severity::Warning, category, message, affected_type: Some(name.clone()) }
}

/// Builds the finding: an enum of the old interface is missing from the new one.
pub fn enum_removed(evt: bool, name: &String) -> (r: Finding)
    ensures
        r@ == enum_removed_finding(evt, name@),
{
    let category = if evt { String::from_str("Event Enum Removed") } else { String::from_str("Enum Removed") };
    let mut message = if evt { String::from_str("Event enum") } else { String::from_str("Enum") };
    message.append(" '");
    message.append(name.as_str());
    message.append("' was removed. Data using this type will be invalid.");
    Finding { severity: Severity::Critical, category, message, affected_type: Some(name.clone()) }
}

/// Builds the finding: an enum appears only in the new interface.
pub fn enum_added(name: &String) -> (r: Finding)
    ensures
        r@ == enum_added_finding(name@),
{
    let category = String::from_str("Enum Added");
    let mut message = String::from_str("New enum '");
    message.append(name.as_str());
    message.append("' added.");
    Finding { severity: Severity::Info, category, message, affected_type: Some(name.clone()) }
}

/// Builds the finding: a case of an enum disappeared.
pub fn case_removed(evt: bool, name: &String, case_name: &String, value: u64) -> (r: Finding)
    ensures
        r@ == case_removed_finding(evt, name@, case_name@, value as nat),
{
    let category = if evt { String::from_str("Event Enum Case Removed") } else { String::from_str("Enum Case Removed") };
    let mut message = if evt { String::from_str("Event enum") } else { String::from_str("Enum") };
    message.append(" '");
    message.append(name.as_str());
    message.append("': case '");
    message.append(case_name.as_str());
    message.append("' (value: ");
    append_decimal(&mut message, value);
    message.append(") was removed. On-chain data or events relying on this value will be invalid.");
    Finding { severity: Severity::Critical, category, message, affected_type: Some(name.clone()) }
}

/// Builds the finding: a case of an enum kept its name but changed its integer value.
pub fn case_value_changed(evt: bool, name: &String, case_name: &String, old_value: u64, new_value: u64) -> (r: Finding)
    ensures
        r@ == case_value_changed_finding(evt, name@, case_name@, old_value as nat, new_value as nat),
{
    let category = if evt { String::from_str("Event Enum Case Value Changed") } else { String::from_str("Enum Case Value Changed") };
    let mut message = if evt { String::from_str("Event enum") } else { String::from_str("Enum") };
    message.append(" '");
    message.append(name.as_str());
    message.append("': case '");
    message.append(case_name.as_str());
    message.append("' value changed from ");
    append_decimal(&mut message, old_value);
    message.append(" to ");
    append_decimal(&mut message, new_value);
    message.append(". This breaks data serialization.");
    Finding { severity: Severity::Critical, category, message, affected_type: Some(name.clone()) }
}

/// Builds the finding: a case appears only in the new version of an enum.
pub fn case_added(evt: bool, name: &String, case_name: &String, value: u64) -> (r: Finding)
    ensures
        r@ == case_added_finding(evt, name@, case_name@, value as nat),
{
    let category = if evt { String::from_str("Event Enum Case Added") } else { String::from_str("Enum Case Added") };
    let mut message = if evt { String::from_str("Event enum") } else { String::from_str("Enum") };
    message.append(" '");
    message.append(name.as_str());
    message.append("': new case '");
    message.append(case_name.as_str());
    message.append("' (value ");
    append_decimal(&mut message, value);
    message.append(") added.");
    Finding { severity: Severity::Info, category, message, affected_type: Some(name.clone()) }
}

/// Builds the finding: a type embeds, directly or transitively, a type whose layout broke.
pub fn cascading_break(dependent: &String, modified: &String) -> (r: Finding)
    ensures
        r@ == cascading_break_finding(dependent@, modified@),
{
    let category = String::from_str("Cascading Layout Break");
    let mut message = String::from_str("Type '");
    message.append(dependent.as_str());
    message.append("' layout is implicitly broken safely because it contains modified type '");
    message.append(modified.as_str());
    message.append("'. This breaks backwards compatibility for storage.");
    Finding { severity: Severity::Critical, category, message, affected_type: Some(dependent.clone()) }
}
} // verus!
