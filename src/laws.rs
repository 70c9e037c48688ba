//! Properties that relate several operations of the index and the ranker.
use vstd::prelude::*;
use crate::index::{
    covers, found_at, from_scans, has_key, launch_count_of, launch_recorded, rebuilt, same_except_id,
    IndexSnapshot, ProgramEntry, ScanOutcome, SourceKind,
};
use crate::matcher::lemma_text_prefix;
use crate::index::{entry_with_id, lemma_entry_with_id_at};
use crate::search::{
    best_match, describes, entry_match, fields_of, lemma_ranks_total, ranked_top, ranks_before, result_of,
    MatchResult,
};
use crate::text::lemma_name_lt_irreflexive;
use crate::text::{
    fold_seq, is_space, lemma_trim_end_prefix, lemma_trim_start_suffix, trim_end, trim_start,
    trimmed_query, MAX_QUERY_LEN,
};

verus! {

proof fn lemma_trimmed_prefix(q: Seq<char>, q2: Seq<char>)
    requires
        q.len() <= q2.len(),
        q2.take(q.len() as int) == q,
    ensures
        trimmed_query(q).len() == 0 || (trimmed_query(q).len() <= trimmed_query(q2).len()
            && trimmed_query(q2).take(trimmed_query(q).len() as int) == trimmed_query(q)),
{
    lemma_trim_start_suffix(q);
    lemma_trim_start_suffix(q2);
    let k = choose|k: int| 0 <= k <= q.len() && trim_start(q) == q.subrange(k, q.len() as int)
        && (forall|j: int| 0 <= j < k ==> is_space(#[trigger] q[j]))
        && (k < q.len() ==> !is_space(q[k]));
    let k2 = choose|k: int| 0 <= k <= q2.len() && trim_start(q2) == q2.subrange(k, q2.len() as int)
        && (forall|j: int| 0 <= j < k ==> is_space(#[trigger] q2[j]))
        && (k < q2.len() ==> !is_space(q2[k]));
    assert forall|j: int| 0 <= j < q.len() implies q2[j] == #[trigger] q[j] by {
        assert(q2.take(q.len() as int)[j] == q2[j]);
    }
    if k == q.len() {
        assert(trim_start(q).len() == 0);
        assert(trim_end(trim_start(q)) == trim_start(q));
    } else {
        if k2 < k {
            assert(q2[k2] == q[k2]);
        }
        if k2 > k {
            assert(is_space(q2[k]));
        }
        assert(k2 == k);
        let a = trim_start(q);
        let a2 = trim_start(q2);
        lemma_trim_end_prefix(a);
        lemma_trim_end_prefix(a2);
        let m = choose|m: int| 0 <= m <= a.len() && trim_end(a) == a.subrange(0, m)
            && (forall|j: int| m <= j < a.len() ==> is_space(#[trigger] a[j]))
            && (m > 0 ==> !is_space(a[m - 1]));
        let m2 = choose|m: int| 0 <= m <= a2.len() && trim_end(a2) == a2.subrange(0, m)
            && (forall|j: int| m <= j < a2.len() ==> is_space(#[trigger] a2[j]))
            && (m > 0 ==> !is_space(a2[m - 1]));
        assert(a[0] == q[k]);
        if m == 0 {
            assert(is_space(a[0]));
        }
        assert forall|j: int| 0 <= j < a.len() implies a2[j] == #[trigger] a[j] by {
            assert(a[j] == q[k + j]);
            assert(a2[j] == q2[k + j]);
        }
        assert(a2[m - 1] == a[m - 1]);
        if m2 < m {
            assert(is_space(a2[m - 1]));
        }
        let b = trim_end(a);
        let b2 = trim_end(a2);
        assert(b2.take(b.len() as int) =~= b);
        if b.len() > MAX_QUERY_LEN {
            assert(b2.take(MAX_QUERY_LEN as int) =~= b.take(MAX_QUERY_LEN as int));
            assert(trimmed_query(q2).take(MAX_QUERY_LEN as int) =~= trimmed_query(q));
        } else if b2.len() > MAX_QUERY_LEN {
            assert(b2.take(MAX_QUERY_LEN as int).take(b.len() as int) =~= b);
        }
    }
}

proof fn lemma_best_prefix(fields: Seq<Seq<char>>, q: Seq<char>, q2: Seq<char>)
    requires
        fold_seq(q).len() <= fold_seq(q2).len(),
        fold_seq(q2).take(q.len() as int) == fold_seq(q),
        best_match(fields, q2) is Some,
    ensures
        best_match(fields, q) is Some,
    decreases fields.len(),
{
    if fields.len() > 0 {
        if crate::matcher::text_score(fields.last(), q2) is Some {
            lemma_text_prefix(fields.last(), q, q2);
        } else {
            lemma_best_prefix(fields.drop_last(), q, q2);
        }
    }
}

/// Typing more never finds more: when query `q` is a prefix of query `q2`,
/// every entry that matches `q2` also matches `q`.
pub proof fn lemma_prefix_query_monotonic(snap: IndexSnapshot, e: ProgramEntry, q: Seq<char>, q2: Seq<char>)
    requires
        q.len() <= q2.len(),
        q2.take(q.len() as int) == q,
        entry_match(snap, e, trimmed_query(q2)) is Some,
    ensures
        entry_match(snap, e, trimmed_query(q)) is Some,
{
    lemma_trimmed_prefix(q, q2);
    let t = trimmed_query(q);
    let t2 = trimmed_query(q2);
    if t.len() > 0 {
        assert(fold_seq(t2).take(t.len() as int) =~= fold_seq(t));
        lemma_best_prefix(fields_of(e), t, t2);
    }
}

/// Usage survives a re-index: after a launch of `key`, a rebuild (by
/// `update_program_path` or `IndexSnapshot::rebuild`) that still finds `key`
/// keeps the count the launch left, which is at least one and at
/// least the count before the launch.
pub proof fn lemma_usage_survives_rebuild(
    before: IndexSnapshot,
    launched: IndexSnapshot,
    scans: Seq<ScanOutcome>,
    after: IndexSnapshot,
    key: Seq<char>,
    now: u64,
)
    requires
        launch_recorded(before.usage@, launched.usage@, key, now),
        rebuilt(launched, scans, after),
        has_key(after.entries@, key),
    ensures
        launch_count_of(after.usage@, key) == launch_count_of(launched.usage@, key),
        launch_count_of(after.usage@, key) >= 1,
        launch_count_of(after.usage@, key) >= launch_count_of(before.usage@, key),
{
    assert(crate::index::carried(
        crate::index::usage_for(launched.usage@, key),
        crate::index::usage_for(after.usage@, key),
        has_key(after.entries@, key),
    ));
}

/// Deduplication by precedence: when a directory scan and an alias report the
/// same stable key, the snapshot that a rebuild (by `update_program_path` or
/// `IndexSnapshot::rebuild`) publishes holds the alias entry's fields for it.
pub proof fn lemma_alias_wins_dedup(
    old: IndexSnapshot,
    scans: Seq<ScanOutcome>,
    new: IndexSnapshot,
    sd: int,
    kd: int,
    sa: int,
    ka: int,
)
    requires
        rebuilt(old, scans, new),
        found_at(scans, sd, kd) matches Some(d) && d.source_kind == SourceKind::Directory,
        found_at(scans, sa, ka) matches Some(a) && a.source_kind == SourceKind::Alias,
        found_at(scans, sd, kd).unwrap().stable_key@ == found_at(scans, sa, ka).unwrap().stable_key@,
        forall|s: int, k: int|
            #[trigger] found_at(scans, s, k) is Some && found_at(scans, s, k).unwrap().stable_key@
                == found_at(scans, sa, ka).unwrap().stable_key@ && found_at(scans, s, k).unwrap().source_kind
                == SourceKind::Alias ==> same_except_id(found_at(scans, s, k).unwrap(), found_at(scans, sa, ka).unwrap()),
    ensures
        exists|i: int|
            0 <= i < new.entries@.len() && #[trigger] new.entries@[i].stable_key@ == found_at(scans, sa, ka).unwrap().stable_key@
                && same_except_id(new.entries@[i], found_at(scans, sa, ka).unwrap()),
        forall|i: int|
            0 <= i < new.entries@.len() && #[trigger] new.entries@[i].stable_key@ == found_at(scans, sa, ka).unwrap().stable_key@
                ==> same_except_id(new.entries@[i], found_at(scans, sa, ka).unwrap()),
{
    let a = found_at(scans, sa, ka).unwrap();
    assert(covers(new.entries@, a));
    let w = choose|i: int| 0 <= i < new.entries@.len() && #[trigger] new.entries@[i].stable_key@ == a.stable_key@;
    assert forall|i: int|
        0 <= i < new.entries@.len() && #[trigger] new.entries@[i].stable_key@ == a.stable_key@ implies same_except_id(new.entries@[i], a) by {
        assert(a.source_kind.rank() <= new.entries@[i].source_kind.rank());
        assert(from_scans(scans, new.entries@[i]));
        let (s, k) = choose|s: int, k: int|
            #[trigger] found_at(scans, s, k) is Some && same_except_id(new.entries@[i], found_at(scans, s, k).unwrap());
        let x = found_at(scans, s, k).unwrap();
        assert(x.source_kind == SourceKind::Alias);
        assert(same_except_id(x, a));
    }
    assert(same_except_id(new.entries@[w], a));
}

/// Two results that agree in every field.
pub open spec fn same_result(x: MatchResult, y: MatchResult) -> bool {
    &&& x.id == y.id
    &&& x.display_name@ == y.display_name@
    &&& x.score == y.score
    &&& x.recency == y.recency
    &&& x.matched_field == y.matched_field
    &&& x.matched_positions@ == y.matched_positions@
}

proof fn lemma_same_id_same_result(snap: IndexSnapshot, q: Seq<char>, x: MatchResult, y: MatchResult)
    requires
        result_of(x, snap, q),
        result_of(y, snap, q),
        x.id == y.id,
    ensures
        same_result(x, y),
{
}

proof fn lemma_not_self_before(x: MatchResult)
    ensures
        !ranks_before(x, x),
{
    lemma_name_lt_irreflexive(x.display_name@);
}

/// The entry index of a result's entry, which matches the query.
proof fn lemma_result_entry(snap: IndexSnapshot, q: Seq<char>, x: MatchResult) -> (j: int)
    requires
        snap.wf(),
        result_of(x, snap, q),
    ensures
        0 <= j < snap.entries@.len(),
        snap.entries@[j].id == x.id,
        entry_match(snap, snap.entries@[j], q) is Some,
        describes(x, snap, snap.entries@[j], q),
{
    let j = choose|i: int| 0 <= i < snap.entries@.len() && #[trigger] snap.entries@[i].id == x.id;
    lemma_entry_with_id_at(snap.entries@, j);
    j
}

proof fn lemma_not_before_at(snap: IndexSnapshot, q: Seq<char>, limit: usize, a: Seq<MatchResult>, b: Seq<MatchResult>, i: int)
    requires
        snap.wf(),
        ranked_top(snap, q, limit, a),
        ranked_top(snap, q, limit, b),
        0 <= i < a.len(),
        0 <= i < b.len(),
        forall|j: int| 0 <= j < i ==> same_result(#[trigger] a[j], b[j]),
    ensures
        a[i].id == b[i].id || !ranks_before(a[i], b[i]),
{
    let x = a[i];
    let y = b[i];
    if x.id != y.id && ranks_before(x, y) {
        assert(result_of(x, snap, q));
        let jx = lemma_result_entry(snap, q, x);
        if exists|k: int| 0 <= k < b.len() && #[trigger] b[k].id == snap.entries@[jx].id {
            let k = choose|k: int| 0 <= k < b.len() && #[trigger] b[k].id == snap.entries@[jx].id;
            assert(result_of(b[k], snap, q));
            lemma_same_id_same_result(snap, q, b[k], x);
            if k < i {
                assert(same_result(a[k], b[k]));
                assert(ranks_before(a[k], a[i]));
                lemma_not_self_before(x);
            } else {
                assert(ranks_before(b[i], b[k]));
                lemma_ranks_total(x, y);
            }
        } else {
            assert(crate::search::ranks_before_entry(b[i], snap, snap.entries@[jx], q));
            lemma_ranks_total(x, y);
        }
    }
}

proof fn lemma_prefix_agree(snap: IndexSnapshot, q: Seq<char>, limit: usize, a: Seq<MatchResult>, b: Seq<MatchResult>, n: int)
    requires
        snap.wf(),
        ranked_top(snap, q, limit, a),
        ranked_top(snap, q, limit, b),
        0 <= n <= a.len(),
        n <= b.len(),
    ensures
        forall|j: int| 0 <= j < n ==> same_result(#[trigger] a[j], b[j]),
    decreases n,
{
    if n > 0 {
        let i = n - 1;
        lemma_prefix_agree(snap, q, limit, a, b, i);
        lemma_not_before_at(snap, q, limit, a, b, i);
        lemma_not_before_at(snap, q, limit, b, a, i);
        if a[i].id != b[i].id {
            lemma_ranks_total(a[i], b[i]);
        }
        assert(result_of(a[i], snap, q));
        assert(result_of(b[i], snap, q));
        lemma_same_id_same_result(snap, q, a[i], b[i]);
    }
}

proof fn lemma_no_longer(snap: IndexSnapshot, q: Seq<char>, limit: usize, a: Seq<MatchResult>, b: Seq<MatchResult>)
    requires
        snap.wf(),
        ranked_top(snap, q, limit, a),
        ranked_top(snap, q, limit, b),
        forall|j: int| 0 <= j < b.len() && j < a.len() ==> same_result(#[trigger] a[j], b[j]),
    ensures
        a.len() <= b.len(),
{
    if a.len() > b.len() {
        let n = b.len() as int;
        let x = a[n];
        assert(result_of(x, snap, q));
        let jx = lemma_result_entry(snap, q, x);
        if exists|k: int| 0 <= k < b.len() && #[trigger] b[k].id == snap.entries@[jx].id {
            let k = choose|k: int| 0 <= k < b.len() && #[trigger] b[k].id == snap.entries@[jx].id;
            assert(same_result(a[k], b[k]));
            assert(ranks_before(a[k], a[n]));
            assert(result_of(a[k], snap, q));
            lemma_same_id_same_result(snap, q, a[k], x);
            lemma_not_self_before(x);
        }
    }
}

/// Search is deterministic: on one snapshot, with one query and one limit,
/// any two answers agree, result by result and in order.
pub proof fn lemma_search_deterministic(snap: IndexSnapshot, q: Seq<char>, limit: usize, a: Seq<MatchResult>, b: Seq<MatchResult>)
    requires
        snap.wf(),
        ranked_top(snap, q, limit, a),
        ranked_top(snap, q, limit, b),
    ensures
        a.len() == b.len(),
        forall|i: int| 0 <= i < a.len() ==> same_result(#[trigger] a[i], b[i]),
{
    let n = if a.len() <= b.len() { a.len() as int } else { b.len() as int };
    lemma_prefix_agree(snap, q, limit, a, b, n);
    lemma_no_longer(snap, q, limit, a, b);
    lemma_prefix_agree(snap, q, limit, b, a, n);
    lemma_no_longer(snap, q, limit, b, a);
}

/// Stale ids are safe: an id taken from one snapshot either has no entry in
/// the snapshot a rebuild (by `update_program_path` or
/// `IndexSnapshot::rebuild`) publishes, where `launch` and `launch_target`
/// report `NotFound`, or still names an
/// entry of the same stable key; a rebuild never hands it to another program.
pub proof fn lemma_stale_id_safe(v1: IndexSnapshot, scans: Seq<ScanOutcome>, v2: IndexSnapshot, id: u64)
    requires
        v1.wf(),
        rebuilt(v1, scans, v2),
        entry_with_id(v1.entries@, id) is Some,
    ensures
        entry_with_id(v2.entries@, id) is None || entry_with_id(v2.entries@, id).unwrap().stable_key@
            == entry_with_id(v1.entries@, id).unwrap().stable_key@,
{
    if entry_with_id(v2.entries@, id) is Some {
        let i = choose|i: int| 0 <= i < v2.entries@.len() && #[trigger] v2.entries@[i].id == id;
        lemma_entry_with_id_at(v2.entries@, i);
        let j = choose|j: int| 0 <= j < v1.entries@.len() && #[trigger] v1.entries@[j].id == id;
        lemma_entry_with_id_at(v1.entries@, j);
        if has_key(v1.entries@, v2.entries@[i].stable_key@) {
            let j2 = choose|j2: int| 0 <= j2 < v1.entries@.len() && #[trigger] v1.entries@[j2].stable_key@ == v2.entries@[i].stable_key@;
            assert(v2.entries@[i].id == v1.entries@[j2].id);
            assert(j2 == j);
        } else {
            assert(v1.entries@[j].id < v1.next_id);
        }
    }
}

} // verus!
