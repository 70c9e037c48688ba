//! Character-level helpers shared by the matcher and the ranker: case
//! folding, whitespace trimming and the lexicographic order on names.
use vstd::prelude::*;

verus! {

/// Longest normalized query, in characters; longer input is truncated.
pub const MAX_QUERY_LEN: usize = 256;

pub open spec fn is_upper(c: char) -> bool {
    65 <= c as int && c as int <= 90
}

pub open spec fn is_lower(c: char) -> bool {
    97 <= c as int && c as int <= 122
}

pub open spec fn is_space(c: char) -> bool {
    c == ' ' || c == '\t' || c == '\n' || c == '\r'
}

pub open spec fn is_separator(c: char) -> bool {
    is_space(c) || c == '-' || c == '_' || c == '.' || c == '/' || c == '\\'
}

/// What `char::to_lowercase` yields for a character: its lower-case
/// mapping, one or more characters.
pub uninterp spec fn lower_char(c: char) -> Seq<char>;

/// Case folding of a string, character by character: each character stands
/// for its lower-case mapping, so two characters match when they lower-case
/// alike.
pub open spec fn fold_seq(s: Seq<char>) -> Seq<Seq<char>> {
    Seq::new(s.len(), |i: int| lower_char(s[i]))
}

/// The characters held by each vector of a sequence.
pub open spec fn fold_views(v: Seq<Vec<char>>) -> Seq<Seq<char>> {
    Seq::new(v.len(), |i: int| v[i]@)
}

pub open spec fn trim_start(s: Seq<char>) -> Seq<char>
    decreases s.len(),
{
    if s.len() > 0 && is_space(s[0]) {
        trim_start(s.drop_first())
    } else {
        s
    }
}

pub open spec fn trim_end(s: Seq<char>) -> Seq<char>
    decreases s.len(),
{
    if s.len() > 0 && is_space(s.last()) {
        trim_end(s.drop_last())
    } else {
        s
    }
}

/// The query text that matching works on: trimmed of surrounding whitespace
/// and cut to `MAX_QUERY_LEN` characters, case kept.
pub open spec fn trimmed_query(raw: Seq<char>) -> Seq<char> {
    let t = trim_end(trim_start(raw));
    if t.len() > MAX_QUERY_LEN {
        t.take(MAX_QUERY_LEN as int)
    } else {
        t
    }
}

/// Whether a sequence holds a character that lower-casing changes; such a
/// query asks for a bonus on characters whose case matches exactly.
pub open spec fn has_upper(s: Seq<char>) -> bool {
    exists|k: int| 0 <= k < s.len() && lower_char(#[trigger] s[k]) != seq![s[k]]
}

/// Strict lexicographic order on names, by code point.
pub open spec fn name_lt(a: Seq<char>, b: Seq<char>) -> bool
    decreases a.len(),
{
    if a.len() == 0 {
        b.len() > 0
    } else if b.len() == 0 {
        false
    } else if a[0] != b[0] {
        (a[0] as int) < (b[0] as int)
    } else {
        name_lt(a.drop_first(), b.drop_first())
    }
}

pub proof fn lemma_name_lt_irreflexive(a: Seq<char>)
    ensures
        !name_lt(a, a),
    decreases a.len(),
{
    if a.len() > 0 {
        lemma_name_lt_irreflexive(a.drop_first());
    }
}

pub proof fn lemma_name_lt_total(a: Seq<char>, b: Seq<char>)
    ensures
        a == b || name_lt(a, b) || name_lt(b, a),
        !(name_lt(a, b) && name_lt(b, a)),
    decreases a.len(),
{
    if a.len() == 0 || b.len() == 0 {
        if a.len() == 0 && b.len() == 0 {
            assert(a =~= b);
        }
    } else if a[0] != b[0] {
        assert((a[0] as int) != (b[0] as int));
    } else {
        lemma_name_lt_total(a.drop_first(), b.drop_first());
        if a.drop_first() == b.drop_first() {
            assert(a =~= seq![a[0]] + a.drop_first());
            assert(b =~= seq![b[0]] + b.drop_first());
        }
    }
}

pub proof fn lemma_name_lt_transitive(a: Seq<char>, b: Seq<char>, c: Seq<char>)
    requires
        name_lt(a, b),
        name_lt(b, c),
    ensures
        name_lt(a, c),
    decreases a.len(),
{
    if a.len() > 0 && b.len() > 0 && c.len() > 0 && a[0] == b[0] && b[0] == c[0] {
        lemma_name_lt_transitive(a.drop_first(), b.drop_first(), c.drop_first());
    }
}

pub fn is_upper_char(c: char) -> (r: bool)
    ensures
        r == is_upper(c),
{
    65 <= c as u32 && c as u32 <= 90
}

pub fn is_lower_char(c: char) -> (r: bool)
    ensures
        r == is_lower(c),
{
    97 <= c as u32 && c as u32 <= 122
}

pub fn is_space_char(c: char) -> (r: bool)
    ensures
        r == is_space(c),
{
    c == ' ' || c == '\t' || c == '\n' || c == '\r'
}

pub fn is_separator_char(c: char) -> (r: bool)
    ensures
        r == is_separator(c),
{
    is_space_char(c) || c == '-' || c == '_' || c == '.' || c == '/' || c == '\\'
}

/// Relies on char::to_lowercase: the characters of `c`'s lower-case
/// mapping, which depend on `c` alone.
#[verifier::external_body]
fn lowercase_char(c: char) -> (r: Vec<char>)
    ensures
        r@ == lower_char(c),
{
    c.to_lowercase().collect()
}

/// Whether two vectors hold the same characters.
pub fn same_chars(a: &Vec<char>, b: &Vec<char>) -> (r: bool)
    ensures
        r == (a@ == b@),
{
    if a.len() != b.len() {
        return false;
    }
    let mut i: usize = 0;
    while i < a.len()
        invariant
            a@.len() == b@.len(),
            i <= a@.len(),
            a@.take(i as int) == b@.take(i as int),
        decreases a.len() - i,
    {
        if a[i] != b[i] {
            return false;
        }
        assert(a@.take(i as int + 1) =~= a@.take(i as int).push(a@[i as int]));
        assert(b@.take(i as int + 1) =~= b@.take(i as int).push(b@[i as int]));
        i += 1;
    }
    assert(a@ =~= a@.take(i as int));
    assert(b@ =~= b@.take(i as int));
    true
}

/// The characters of a string, one per element.
pub fn chars_of(s: &str) -> (r: Vec<char>)
    ensures
        r@ == s@,
{
    let n = s.unicode_len();
    let mut r: Vec<char> = Vec::new();
    let mut i: usize = 0;
    while i < n
        invariant
            n == s@.len(),
            i <= n,
            r@ == s@.take(i as int),
        decreases n - i,
    {
        r.push(s.get_char(i));
        i += 1;
        assert(r@ =~= s@.take(i as int));
    }
    assert(r@ =~= s@);
    r
}

/// The case folding of each character of `s`.
pub fn fold_chars(s: &Vec<char>) -> (r: Vec<Vec<char>>)
    ensures
        fold_views(r@) == fold_seq(s@),
{
    let mut r: Vec<Vec<char>> = Vec::new();
    let mut i: usize = 0;
    while i < s.len()
        invariant
            i <= s.len(),
            r@.len() == i,
            forall|k: int| 0 <= k < i ==> (#[trigger] r@[k])@ == lower_char(s@[k]),
        decreases s.len() - i,
    {
        let ghost before = r@;
        r.push(lowercase_char(s[i]));
        assert forall|k: int| 0 <= k < i implies (#[trigger] r@[k])@ == lower_char(s@[k]) by {
            assert(r@[k] == before[k]);
        }
        i += 1;
    }
    assert(fold_views(r@) =~= fold_seq(s@));
    r
}

pub fn contains_upper(s: &Vec<char>) -> (r: bool)
    ensures
        r == has_upper(s@),
{
    let mut i: usize = 0;
    while i < s.len()
        invariant
            i <= s.len(),
            forall|k: int| 0 <= k < i ==> lower_char(#[trigger] s@[k]) == seq![s@[k]],
        decreases s.len() - i,
    {
        let low = lowercase_char(s[i]);
        let own: Vec<char> = vec![s[i]];
        assert(own@ =~= seq![s@[i as int]]);
        if !same_chars(&low, &own) {
            return true;
        }
        i += 1;
    }
    false
}

pub proof fn lemma_trim_start_suffix(s: Seq<char>)
    ensures
        exists|k: int| 0 <= k <= s.len() && trim_start(s) == s.subrange(k, s.len() as int)
            && (forall|j: int| 0 <= j < k ==> is_space(#[trigger] s[j]))
            && (k < s.len() ==> !is_space(s[k])),
    decreases s.len(),
{
    if s.len() > 0 && is_space(s[0]) {
        let t = s.drop_first();
        lemma_trim_start_suffix(t);
        let k = choose|k: int| 0 <= k <= t.len() && trim_start(t) == t.subrange(k, t.len() as int)
            && (forall|j: int| 0 <= j < k ==> is_space(#[trigger] t[j]))
            && (k < t.len() ==> !is_space(t[k]));
        assert(t.subrange(k, t.len() as int) =~= s.subrange(k + 1, s.len() as int));
        assert forall|j: int| 0 <= j < k + 1 implies is_space(#[trigger] s[j]) by {
            if j > 0 {
                assert(s[j] == t[j - 1]);
            }
        }
        assert(k + 1 < s.len() ==> s[k + 1] == t[k]);
    } else {
        assert(s.subrange(0, s.len() as int) =~= s);
    }
}

pub proof fn lemma_trim_end_prefix(s: Seq<char>)
    ensures
        exists|k: int| 0 <= k <= s.len() && trim_end(s) == s.subrange(0, k)
            && (forall|j: int| k <= j < s.len() ==> is_space(#[trigger] s[j]))
            && (k > 0 ==> !is_space(s[k - 1])),
    decreases s.len(),
{
    if s.len() > 0 && is_space(s.last()) {
        let t = s.drop_last();
        lemma_trim_end_prefix(t);
        let k = choose|k: int| 0 <= k <= t.len() && trim_end(t) == t.subrange(0, k)
            && (forall|j: int| k <= j < t.len() ==> is_space(#[trigger] t[j]))
            && (k > 0 ==> !is_space(t[k - 1]));
        assert(t.subrange(0, k) =~= s.subrange(0, k));
        assert forall|j: int| k <= j < s.len() implies is_space(#[trigger] s[j]) by {
            if j < t.len() {
                assert(s[j] == t[j]);
            }
        }
    } else {
        assert(s.subrange(0, s.len() as int) =~= s);
    }
}

/// The query as matching sees it: trimmed, truncated, case kept.
pub fn trim_query(raw: &str) -> (r: Vec<char>)
    ensures
        r@ == trimmed_query(raw@),
{
    let s = chars_of(raw);
    let n = s.len();
    let mut start: usize = 0;
    assert(s@.subrange(0, n as int) =~= s@);
    while start < n && is_space_char(s[start])
        invariant
            n == s@.len(),
            start <= n,
            trim_start(s@) == trim_start(s@.subrange(start as int, n as int)),
        decreases n - start,
    {
        assert(s@.subrange(start as int, n as int).drop_first() =~= s@.subrange(
            start as int + 1,
            n as int,
        ));
        start += 1;
    }
    let ghost front = s@.subrange(start as int, n as int);
    assert(trim_start(front) == front);
    let mut end: usize = n;
    while end > start && is_space_char(s[end - 1])
        invariant
            n == s@.len(),
            start <= end <= n,
            front == s@.subrange(start as int, n as int),
            trim_end(front) == trim_end(s@.subrange(start as int, end as int)),
        decreases end - start,
    {
        assert(s@.subrange(start as int, end as int).drop_last() =~= s@.subrange(
            start as int,
            end as int - 1,
        ));
        end -= 1;
    }
    let ghost t = s@.subrange(start as int, end as int);
    assert(trim_end(t) == t);
    if end - start > MAX_QUERY_LEN {
        end = start + MAX_QUERY_LEN;
    }
    let mut r: Vec<char> = Vec::new();
    let mut i: usize = start;
    while i < end
        invariant
            start <= i <= end <= n,
            n == s@.len(),
            r@ =~= s@.subrange(start as int, i as int),
        decreases end - i,
    {
        r.push(s[i]);
        i += 1;
    }
    proof {
        assert(trim_end(trim_start(raw@)) == t);
        if t.len() > MAX_QUERY_LEN {
            assert(r@ =~= t.take(MAX_QUERY_LEN as int));
        } else {
            assert(r@ =~= t);
        }
    }
    r
}

/// Compares two names under `name_lt`: `Less`, `Equal` or `Greater` as -1, 0, 1.
pub fn compare_names(a: &Vec<char>, b: &Vec<char>) -> (r: i8)
    ensures
        r == -1 <==> name_lt(a@, b@),
        r == 1 <==> name_lt(b@, a@),
        r == 0 <==> a@ == b@,
        -1 <= r <= 1,
{
    proof {
        lemma_name_lt_total(a@, b@);
        lemma_name_lt_irreflexive(a@);
    }
    let mut i: usize = 0;
    assert(a@.skip(0) =~= a@);
    assert(b@.skip(0) =~= b@);
    assert(a@.take(0) =~= b@.take(0));
    while i < a.len() && i < b.len() && a[i] == b[i]
        invariant
            i <= a.len(),
            i <= b.len(),
            a@.take(i as int) == b@.take(i as int),
            name_lt(a@, b@) == name_lt(a@.skip(i as int), b@.skip(i as int)),
            name_lt(b@, a@) == name_lt(b@.skip(i as int), a@.skip(i as int)),
        decreases a.len() - i,
    {
        assert(a@.skip(i as int).drop_first() =~= a@.skip(i as int + 1));
        assert(b@.skip(i as int).drop_first() =~= b@.skip(i as int + 1));
        assert(a@.take(i as int + 1) =~= a@.take(i as int).push(a@[i as int]));
        assert(b@.take(i as int + 1) =~= b@.take(i as int).push(b@[i as int]));
        i += 1;
    }
    let ghost sa = a@.skip(i as int);
    let ghost sb = b@.skip(i as int);
    if i == a.len() && i == b.len() {
        assert(a@ =~= a@.take(i as int));
        assert(b@ =~= b@.take(i as int));
        0
    } else if i == a.len() {
        assert(sa.len() == 0 && sb.len() > 0);
        assert(a@.len() != b@.len());
        -1
    } else if i == b.len() {
        assert(sb.len() == 0 && sa.len() > 0);
        assert(a@.len() != b@.len());
        1
    } else {
        assert(sa[0] == a@[i as int] && sb[0] == b@[i as int]);
        assert(a@[i as int] != b@[i as int]);
        if a[i] < b[i] {
            assert((sa[0] as int) < (sb[0] as int));
            -1
        } else {
            assert((sb[0] as int) < (sa[0] as int));
            1
        }
    }
}

} // verus!
