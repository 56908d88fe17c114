use vstd::prelude::*;
use vstd::string::StrSliceExecFns;
use vstd::string::StringExecFns;

verus! {

// ---------------------------------------------------------------------------
// Decimal rendering of integers
// ---------------------------------------------------------------------------

/// The character of a decimal digit.
pub open spec fn digit_char(d: nat) -> char {
    if d == 0 {
        '0'
    } else if d == 1 {
        '1'
    } else if d == 2 {
        '2'
    } else if d == 3 {
        '3'
    } else if d == 4 {
        '4'
    } else if d == 5 {
        '5'
    } else if d == 6 {
        '6'
    } else if d == 7 {
        '7'
    } else if d == 8 {
        '8'
    } else {
        '9'
    }
}

/// The decimal representation of `n`, without leading zeros.
pub open spec fn decimal(n: nat) -> Seq<char>
    decreases n,
{
    if n < 10 {
        seq![digit_char(n)]
    } else {
        decimal(n / 10).push(digit_char(n % 10))
    }
}

fn append_digit(s: &mut String, d: u64)
    requires
        d < 10,
    ensures
        final(s)@ == old(s)@.push(digit_char(d as nat)),
{
    if d == 0 {
        proof { reveal_strlit("0"); }
        s.append("0");
    } else if d == 1 {
        proof { reveal_strlit("1"); }
        s.append("1");
    } else if d == 2 {
        proof { reveal_strlit("2"); }
        s.append("2");
    } else if d == 3 {
        proof { reveal_strlit("3"); }
        s.append("3");
    } else if d == 4 {
        proof { reveal_strlit("4"); }
        s.append("4");
    } else if d == 5 {
        proof { reveal_strlit("5"); }
        s.append("5");
    } else if d == 6 {
        proof { reveal_strlit("6"); }
        s.append("6");
    } else if d == 7 {
        proof { reveal_strlit("7"); }
        s.append("7");
    } else if d == 8 {
        proof { reveal_strlit("8"); }
        s.append("8");
    } else {
        proof { reveal_strlit("9"); }
        s.append("9");
    }
    assert(s@ =~= old(s)@.push(digit_char(d as nat)));
}

/// Appends the decimal representation of `n` to `s`.
pub fn append_decimal(s: &mut String, n: u64)
    ensures
        final(s)@ == old(s)@ + decimal(n as nat),
    decreases n,
{
    if n >= 10 {
        append_decimal(s, n / 10);
        append_digit(s, n % 10);
        assert(s@ =~= old(s)@ + decimal(n as nat));
    } else {
        append_digit(s, n);
        assert(s@ =~= old(s)@ + decimal(n as nat));
    }
}

// ---------------------------------------------------------------------------
// Event-name detection
// ---------------------------------------------------------------------------

/// `c` is the lowercase letter `lower` or its uppercase form `upper`.
pub open spec fn letter_is(c: char, lower: char, upper: char) -> bool {
    c == lower || c == upper
}

/// The five characters of `s` starting at `i` spell `event`, in any letter case.
pub open spec fn event_at(s: Seq<char>, i: int) -> bool {
    &&& 0 <= i
    &&& i + 5 <= s.len()
    &&& letter_is(s[i], 'e', 'E')
    &&& letter_is(s[i + 1], 'v', 'V')
    &&& letter_is(s[i + 2], 'e', 'E')
    &&& letter_is(s[i + 3], 'n', 'N')
    &&& letter_is(s[i + 4], 't', 'T')
}

/// A type name marks an event when, lowercased, it contains `event`.
pub open spec fn is_event_name(s: Seq<char>) -> bool {
    exists|i: int| event_at(s, i)
}

/// The characters of a string, as a vector.
pub fn chars_of(s: &String) -> (v: Vec<char>)
    ensures
        v@ == s@,
{
    let t = s.as_str();
    let n = t.unicode_len();
    let mut v: Vec<char> = Vec::new();
    let mut i: usize = 0;
    while i < n
        invariant
            n == s@.len(),
            t@ == s@,
            i <= n,
            v@ == s@.subrange(0, i as int),
        decreases n - i,
    {
        let c = t.get_char(i);
        v.push(c);
        i = i + 1;
        assert(v@ =~= s@.subrange(0, i as int));
    }
    assert(v@ =~= s@);
    v
}

/// Whether the name of a user-defined type marks it as an event type.
pub fn is_event(name: &String) -> (r: bool)
    ensures
        r == is_event_name(name@),
{
    let cs = chars_of(name);
    if cs.len() < 5 {
        assert(!is_event_name(name@));
        return false;
    }
    let mut i: usize = 0;
    while i <= cs.len() - 5
        invariant
            cs@ == name@,
            cs.len() >= 5,
            i <= cs.len() - 4,
            forall|j: int| 0 <= j < i ==> !event_at(name@, j),
        decreases cs.len() - i,
    {
        let c0 = cs[i];
        let c1 = cs[i + 1];
        let c2 = cs[i + 2];
        let c3 = cs[i + 3];
        let c4 = cs[i + 4];
        if (c0 == 'e' || c0 == 'E') && (c1 == 'v' || c1 == 'V') && (c2 == 'e' || c2 == 'E') && (c3
            == 'n' || c3 == 'N') && (c4 == 't' || c4 == 'T') {
            assert(event_at(name@, i as int));
            return true;
        }
        i = i + 1;
    }
    assert forall|j: int| !event_at(name@, j) by {
        if 0 <= j < i {
        }
    }
    false
}

// ---------------------------------------------------------------------------
// Lexicographic order of names
// ---------------------------------------------------------------------------

/// Strict lexicographic order on character sequences, by code point.
/// It coincides with the byte order of the UTF-8 encodings, which is how
/// Rust orders `String`s.
pub open spec fn str_lt(a: Seq<char>, b: Seq<char>) -> bool
    decreases a.len(),
{
    if a.len() == 0 {
        b.len() > 0
    } else if b.len() == 0 {
        false
    } else if a[0] != b[0] {
        (a[0] as int) < (b[0] as int)
    } else {
        str_lt(a.drop_first(), b.drop_first())
    }
}

pub proof fn lemma_str_lt_irreflexive(a: Seq<char>)
    ensures
        !str_lt(a, a),
    decreases a.len(),
{
    if a.len() > 0 {
        lemma_str_lt_irreflexive(a.drop_first());
    }
}

pub proof fn lemma_str_lt_transitive(a: Seq<char>, b: Seq<char>, c: Seq<char>)
    requires
        str_lt(a, b),
        str_lt(b, c),
    ensures
        str_lt(a, c),
    decreases a.len(),
{
    if a.len() > 0 && b.len() > 0 && c.len() > 0 && a[0] == b[0] && b[0] == c[0] {
        lemma_str_lt_transitive(a.drop_first(), b.drop_first(), c.drop_first());
    }
}

pub proof fn lemma_str_lt_total(a: Seq<char>, b: Seq<char>)
    requires
        a != b,
    ensures
        str_lt(a, b) || str_lt(b, a),
    decreases a.len(),
{
    if a.len() == 0 {
        assert(b.len() > 0) by {
            if b.len() == 0 {
                assert(a =~= b);
            }
        }
    } else if b.len() == 0 {
    } else if a[0] != b[0] {
        assert((a[0] as int) != (b[0] as int));
    } else {
        assert(a.drop_first() != b.drop_first()) by {
            if a.drop_first() == b.drop_first() {
                assert(a =~= seq![a[0]] + a.drop_first());
                assert(b =~= seq![b[0]] + b.drop_first());
            }
        }
        lemma_str_lt_total(a.drop_first(), b.drop_first());
    }
}

proof fn lemma_str_lt_skip(a: Seq<char>, b: Seq<char>, i: int)
    requires
        0 <= i <= a.len(),
        i <= b.len(),
        a.subrange(0, i) == b.subrange(0, i),
    ensures
        str_lt(a, b) == str_lt(a.skip(i), b.skip(i)),
    decreases i,
{
    if i > 0 {
        assert(a[0] == a.subrange(0, i)[0]);
        assert(b[0] == b.subrange(0, i)[0]);
        assert(a.drop_first().subrange(0, i - 1) =~= a.subrange(0, i).drop_first());
        assert(b.drop_first().subrange(0, i - 1) =~= b.subrange(0, i).drop_first());
        lemma_str_lt_skip(a.drop_first(), b.drop_first(), i - 1);
        assert(a.drop_first().skip(i - 1) =~= a.skip(i));
        assert(b.drop_first().skip(i - 1) =~= b.skip(i));
    } else {
        assert(a.skip(0) =~= a);
        assert(b.skip(0) =~= b);
    }
}

/// Whether `a` comes strictly before `b` in lexicographic order.
pub fn str_less(a: &String, b: &String) -> (r: bool)
    ensures
        r == str_lt(a@, b@),
{
    let x = chars_of(a);
    let y = chars_of(b);
    let mut i: usize = 0;
    while i < x.len() && i < y.len() && x[i] == y[i]
        invariant
            x@ == a@,
            y@ == b@,
            i <= x.len(),
            i <= y.len(),
            a@.subrange(0, i as int) == b@.subrange(0, i as int),
        decreases x.len() - i,
    {
        assert(a@.subrange(0, i + 1) =~= a@.subrange(0, i as int).push(a@[i as int]));
        assert(b@.subrange(0, i + 1) =~= b@.subrange(0, i as int).push(b@[i as int]));
        i = i + 1;
    }
    proof {
        lemma_str_lt_skip(a@, b@, i as int);
    }
    if i == x.len() {
        i < y.len()
    } else if i == y.len() {
        false
    } else {
        let cx = x[i];
        let cy = y[i];
        assert(a@.skip(i as int)[0] == cx);
        assert(b@.skip(i as int)[0] == cy);
        cx < cy
    }
}

// ---------------------------------------------------------------------------
// Vectors of names
// ---------------------------------------------------------------------------

/// The character sequences of a sequence of strings.
pub open spec fn names_view(v: Seq<String>) -> Seq<Seq<char>> {
    v.map_values(|s: String| s@)
}

/// Whether `v` holds a string equal to `s`.
pub fn contains_name(v: &Vec<String>, s: &String) -> (r: bool)
    ensures
        r == names_view(v@).contains(s@),
{
    let mut i: usize = 0;
    while i < v.len()
        invariant
            i <= v.len(),
            forall|j: int| 0 <= j < i ==> v@[j]@ != s@,
        decreases v.len() - i,
    {
        if v[i] == *s {
            assert(names_view(v@)[i as int] == s@);
            return true;
        }
        i = i + 1;
    }
    assert(!names_view(v@).contains(s@)) by {
        if names_view(v@).contains(s@) {
            let k = choose|k: int| 0 <= k < names_view(v@).len() && names_view(v@)[k] == s@;
            assert(v@[k]@ == s@);
        }
    }
    false
}

} // verus!
