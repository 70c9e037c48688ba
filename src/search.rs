//! The matcher/ranker: scores every entry of a snapshot against a query,
//! blends in frecency, and returns the best results in a total order.
use vstd::prelude::*;
use crate::index::{
    entry_with_id, last_launch_of, launch_count_of, lemma_entry_with_id_at, IndexSnapshot, ProgramEntry,
};
use crate::matcher::{lemma_text_score_bound, score_text, text_score, EXACT_SCORE};
use crate::text::{
    chars_of, compare_names, fold_chars, fold_seq, fold_views, lemma_name_lt_total,
    lemma_name_lt_transitive, name_lt, trim_query, trimmed_query, MAX_QUERY_LEN,
};

verus! {

/// Factor of the text score against the frecency term.
pub const TEXT_FACTOR: u64 = 16;

/// Largest frecency term: launches beyond this count add nothing more, so
/// text relevance always dominates.
pub const FRECENCY_CAP: u64 = 15;

/// One ranked entry.
#[derive(Clone, Debug)]
pub struct MatchResult {
    pub id: u64,
    pub display_name: String,
    pub score: u64,
    /// The entry's last launch time, which breaks ties of score.
    pub recency: u64,
    /// Which string matched: 0 for the display name, `k + 1` for alias `k`.
    pub matched_field: usize,
    /// Character positions of the matched string that the query hit.
    pub matched_positions: Vec<usize>,
}

pub open spec fn alias_views(a: Seq<String>) -> Seq<Seq<char>> {
    Seq::new(a.len(), |i: int| a[i]@)
}

/// The strings an entry is matched on: its display name, then its aliases.
pub open spec fn fields_of(e: ProgramEntry) -> Seq<Seq<char>> {
    seq![e.display_name@] + alias_views(e.aliases@)
}

/// Best text score over `fields`, with the index of the field that gave it
/// (the first one on a tie) and its matched positions.
pub open spec fn best_match(fields: Seq<Seq<char>>, q: Seq<char>) -> Option<(u64, nat, Seq<usize>)>
    decreases fields.len(),
{
    if fields.len() == 0 {
        None
    } else {
        let rest = best_match(fields.drop_last(), q);
        match text_score(fields.last(), q) {
            None => rest,
            Some(t) => if rest is Some && rest.unwrap().0 >= t.0 {
                rest
            } else {
                Some((t.0, (fields.len() - 1) as nat, t.1))
            },
        }
    }
}

pub open spec fn blend(text: u64, count: u64) -> u64 {
    (text * TEXT_FACTOR + if count < FRECENCY_CAP { count } else { FRECENCY_CAP }) as u64
}

/// Score, matched field and positions of entry `e` for the trimmed query
/// `q`; `None` when no string of the entry matches. The best text score is
/// multiplied by the entry's weight, then blended with its launch count. The
/// empty query matches every entry with its launch count as score.
pub open spec fn entry_match(snap: IndexSnapshot, e: ProgramEntry, q: Seq<char>) -> Option<(u64, nat, Seq<usize>)> {
    let count = launch_count_of(snap.usage@, e.stable_key@);
    if q.len() == 0 {
        Some((count, 0, Seq::empty()))
    } else {
        match best_match(fields_of(e), q) {
            None => None,
            Some(b) => Some((blend((b.0 * e.weight) as u64, count), b.1, b.2)),
        }
    }
}

/// Whether `r` is the result of entry `e` for the trimmed query `q`.
pub open spec fn describes(r: MatchResult, snap: IndexSnapshot, e: ProgramEntry, q: Seq<char>) -> bool {
    &&& entry_match(snap, e, q) is Some
    &&& r.id == e.id
    &&& r.display_name@ == e.display_name@
    &&& r.score == entry_match(snap, e, q).unwrap().0
    &&& r.matched_field as nat == entry_match(snap, e, q).unwrap().1
    &&& r.matched_positions@ == entry_match(snap, e, q).unwrap().2
    &&& r.recency == last_launch_of(snap.usage@, e.stable_key@)
}

/// The ranking order: higher score first, then more recent launch, then
/// display name, then id.
pub open spec fn key_before(s1: u64, r1: u64, n1: Seq<char>, i1: u64, s2: u64, r2: u64, n2: Seq<char>, i2: u64) -> bool {
    s1 > s2 || (s1 == s2 && (r1 > r2 || (r1 == r2 && (name_lt(n1, n2) || (n1 == n2 && i1 < i2)))))
}

pub open spec fn ranks_before(a: MatchResult, b: MatchResult) -> bool {
    key_before(a.score, a.recency, a.display_name@, a.id, b.score, b.recency, b.display_name@, b.id)
}

/// Whether result `a` ranks before entry `e`'s result for query `q`.
pub open spec fn ranks_before_entry(a: MatchResult, snap: IndexSnapshot, e: ProgramEntry, q: Seq<char>) -> bool {
    key_before(
        a.score,
        a.recency,
        a.display_name@,
        a.id,
        entry_match(snap, e, q).unwrap().0,
        last_launch_of(snap.usage@, e.stable_key@),
        e.display_name@,
        e.id,
    )
}

pub proof fn lemma_ranks_transitive(a: MatchResult, b: MatchResult, c: MatchResult)
    requires
        ranks_before(a, b),
        ranks_before(b, c),
    ensures
        ranks_before(a, c),
{
    if a.score == b.score && b.score == c.score && a.recency == b.recency && b.recency == c.recency {
        if name_lt(a.display_name@, b.display_name@) && name_lt(b.display_name@, c.display_name@) {
            lemma_name_lt_transitive(a.display_name@, b.display_name@, c.display_name@);
        }
    }
}

pub proof fn lemma_ranks_total(a: MatchResult, b: MatchResult)
    requires
        a.id != b.id,
    ensures
        ranks_before(a, b) || ranks_before(b, a),
        !(ranks_before(a, b) && ranks_before(b, a)),
{
    lemma_name_lt_total(a.display_name@, b.display_name@);
}

/// Whether `a` ranks before `b`.
pub fn rank_before(a: &MatchResult, b: &MatchResult) -> (r: bool)
    ensures
        r == ranks_before(*a, *b),
{
    if a.score != b.score {
        return a.score > b.score;
    }
    if a.recency != b.recency {
        return a.recency > b.recency;
    }
    let na = chars_of(a.display_name.as_str());
    let nb = chars_of(b.display_name.as_str());
    let c = compare_names(&na, &nb);
    if c != 0 {
        return c < 0;
    }
    a.id < b.id
}

proof fn lemma_best_match_bound(fields: Seq<Seq<char>>, q: Seq<char>)
    requires
        q.len() <= MAX_QUERY_LEN,
    ensures
        best_match(fields, q) is Some ==> best_match(fields, q).unwrap().0 <= EXACT_SCORE,
    decreases fields.len(),
{
    if fields.len() > 0 {
        lemma_best_match_bound(fields.drop_last(), q);
        lemma_text_score_bound(fields.last(), q);
    }
}

/// Best match over the display name and aliases of `e`.
fn best_of_entry(e: &ProgramEntry, q: &Vec<char>, qf: &Vec<Vec<char>>) -> (r: Option<(u64, usize, Vec<usize>)>)
    requires
        fold_views(qf@) == fold_seq(q@),
        q@.len() <= MAX_QUERY_LEN,
    ensures
        match best_match(fields_of(*e), q@) {
            None => r is None,
            Some(b) => r matches Some(x) && x.0 == b.0 && x.1 as nat == b.1 && x.2@ == b.2,
        },
{
    let ghost fields = fields_of(*e);
    let name = chars_of(e.display_name.as_str());
    let nf = fold_chars(&name);
    let mut best: Option<(u64, usize, Vec<usize>)> = match score_text(&name, &nf, q, qf) {
        None => None,
        Some(t) => Some((t.0, 0, t.1)),
    };
    proof {
        assert(fields.take(1).drop_last() =~= Seq::<Seq<char>>::empty());
        assert(best_match(fields.take(1).drop_last(), q@) is None);
        assert(fields[0] == e.display_name@);
        assert(fields.take(1).last() == e.display_name@);
    }
    let mut a: usize = 0;
    while a < e.aliases.len()
        invariant
            fold_views(qf@) == fold_seq(q@),
            q@.len() <= MAX_QUERY_LEN,
            fields == fields_of(*e),
            a <= e.aliases@.len(),
            match best_match(fields.take(a + 1), q@) {
                None => best is None,
                Some(b) => best matches Some(x) && x.0 == b.0 && x.1 as nat == b.1 && x.2@ == b.2,
            },
        decreases e.aliases.len() - a,
    {
        let c = chars_of(e.aliases[a].as_str());
        let cf = fold_chars(&c);
        let t = score_text(&c, &cf, q, qf);
        proof {
            assert(fields.take(a + 2).drop_last() =~= fields.take(a + 1));
            assert(fields.take(a + 2).last() == e.aliases@[a as int]@);
        }
        match t {
            None => {},
            Some(t) => {
                let better = match &best {
                    None => true,
                    Some(b) => t.0 > b.0,
                };
                if better {
                    best = Some((t.0, a + 1, t.1));
                }
            },
        }
        a += 1;
    }
    proof {
        assert(fields.take(e.aliases@.len() as int + 1) =~= fields);
    }
    best
}

/// Whether `x` is the result, for query `q`, of the entry of `snap` that
/// carries `x`'s id.
pub open spec fn result_of(x: MatchResult, snap: IndexSnapshot, q: Seq<char>) -> bool {
    entry_with_id(snap.entries@, x.id) matches Some(e) && describes(x, snap, e, q)
}

pub open spec fn all_described(r: Seq<MatchResult>, snap: IndexSnapshot, q: Seq<char>) -> bool {
    forall|i: int| 0 <= i < r.len() ==> result_of(#[trigger] r[i], snap, q)
}

pub open spec fn strictly_ranked(s: Seq<MatchResult>) -> bool {
    forall|i: int, k: int| 0 <= i < k < s.len() ==> ranks_before(#[trigger] s[i], #[trigger] s[k])
}

/// Whether `r` is the answer to query `q` with room for `limit` results:
/// results of matching entries of `snap`, strictly in ranking order, and
/// every matching entry left out ranks after all of them in a full list.
pub open spec fn ranked_top(snap: IndexSnapshot, q: Seq<char>, limit: usize, r: Seq<MatchResult>) -> bool {
    &&& r.len() <= limit
    &&& all_described(r, snap, q)
    &&& strictly_ranked(r)
    &&& forall|j: int|
        0 <= j < snap.entries@.len() && (#[trigger] entry_match(snap, snap.entries@[j], q)) is Some
            ==> (exists|i: int| 0 <= i < r.len() && #[trigger] r[i].id == snap.entries@[j].id) || (r.len() == limit
            && forall|i: int| 0 <= i < r.len() ==> ranks_before_entry(#[trigger] r[i], snap, snap.entries@[j], q))
}

/// Inserts `cand` into a ranked list at its place; returns that place.
fn insert_ranked(sorted: &mut Vec<MatchResult>, cand: MatchResult) -> (p: usize)
    requires
        strictly_ranked(old(sorted)@),
        forall|i: int| 0 <= i < old(sorted)@.len() ==> (#[trigger] old(sorted)@[i]).id != cand.id,
    ensures
        p <= old(sorted)@.len(),
        final(sorted)@ == old(sorted)@.insert(p as int, cand),
        strictly_ranked(final(sorted)@),
{
    let mut p: usize = 0;
    while p < sorted.len() && !rank_before(&cand, &sorted[p])
        invariant
            p <= sorted@.len(),
            forall|i: int| 0 <= i < p ==> !ranks_before(cand, #[trigger] sorted@[i]),
        decreases sorted.len() - p,
    {
        p += 1;
    }
    let ghost before = sorted@;
    sorted.insert(p, cand);
    proof {
        before.insert_ensures(p as int, cand);
        assert forall|i: int| p < i < sorted@.len() implies #[trigger] sorted@[i] == before[i - 1] by {
            assert(sorted@[(i - 1) + 1] == before[i - 1]);
        }
        assert forall|i: int, k: int| 0 <= i < k < sorted@.len() implies ranks_before(#[trigger] sorted@[i], #[trigger] sorted@[k]) by {
            if k < p {
                assert(sorted@[i] == before[i]);
                assert(sorted@[k] == before[k]);
            } else if i < p && k == p {
                lemma_ranks_total(before[i], cand);
            } else if i < p && k > p {
                assert(sorted@[k] == before[k - 1]);
                lemma_ranks_total(before[i], cand);
            } else if i == p {
                assert(sorted@[k] == before[k - 1]);
                if k - 1 > p {
                    lemma_ranks_transitive(cand, before[p as int], before[k - 1]);
                }
            } else {
                assert(sorted@[i] == before[i - 1]);
                assert(sorted@[k] == before[k - 1]);
            }
        }
    }
    p
}

/// Ranks the entries of `snap` for `query` and returns at most `limit` of
/// them, best first. The query is trimmed of surrounding whitespace and cut
/// to `MAX_QUERY_LEN` characters; matching compares characters by their
/// lower-case mapping.
pub fn search(snap: &IndexSnapshot, query: &str, limit: usize) -> (r: Vec<MatchResult>)
    requires
        snap.wf(),
    ensures
        ranked_top(*snap, trimmed_query(query@), limit, r@),
{
    let q = trim_query(query);
    let qf = fold_chars(&q);
    let ghost qs = trimmed_query(query@);
    let mut sorted: Vec<MatchResult> = Vec::new();
    let mut j: usize = 0;
    while j < snap.entries.len()
        invariant
            snap.wf(),
            q@ == qs,
            qs == trimmed_query(query@),
            fold_views(qf@) == fold_seq(q@),
            q@.len() <= MAX_QUERY_LEN,
            j <= snap.entries@.len(),
            all_described(sorted@, *snap, qs),
            forall|i: int, j3: int|
                0 <= i < sorted@.len() && j <= j3 < snap.entries@.len() ==> (#[trigger] sorted@[i]).id != (#[trigger] snap.entries@[j3]).id,
            strictly_ranked(sorted@),
            forall|j2: int|
                0 <= j2 < j && (#[trigger] entry_match(*snap, snap.entries@[j2], qs)) is Some ==> exists|i: int|
                    0 <= i < sorted@.len() && #[trigger] sorted@[i].id == snap.entries@[j2].id,
        decreases snap.entries.len() - j,
    {
        let e = &snap.entries[j];
        let count = snap.launch_count(&e.stable_key);
        let recency = snap.last_launched_at(&e.stable_key);
        let found: Option<(u64, usize, Vec<usize>)> = if q.len() == 0 {
            Some((count, 0, Vec::new()))
        } else {
            match best_of_entry(e, &q, &qf) {
                None => None,
                Some(b) => {
                    let bonus = if count < FRECENCY_CAP { count } else { FRECENCY_CAP };
                    proof {
                        lemma_best_match_bound(fields_of(*e), q@);
                    }
                    assert(b.0 * e.weight <= 3_000_000 * 0xffff_ffff) by (nonlinear_arith)
                        requires
                            b.0 <= 3_000_000,
                            e.weight <= 0xffff_ffff,
                    ;
                    let weighted = b.0 * e.weight as u64;
                    Some((weighted * TEXT_FACTOR + bonus, b.1, b.2))
                },
            }
        };
        if let Some(m) = found {
            let cand = MatchResult {
                id: e.id,
                display_name: e.display_name.clone(),
                score: m.0,
                recency,
                matched_field: m.1,
                matched_positions: m.2,
            };
            assert(describes(cand, *snap, snap.entries@[j as int], qs));
            let ghost before = sorted@;
            proof {
                assert forall|i: int| 0 <= i < before.len() implies (#[trigger] before[i]).id != cand.id by {
                    assert(before[i].id != snap.entries@[j as int].id);
                }
            }
            let p = insert_ranked(&mut sorted, cand);
            proof {
                before.insert_ensures(p as int, cand);
                assert forall|i: int| p < i < sorted@.len() implies #[trigger] sorted@[i] == before[i - 1] by {
                    assert(sorted@[(i - 1) + 1] == before[i - 1]);
                }
                lemma_entry_with_id_at(snap.entries@, j as int);
                assert forall|i: int| 0 <= i < sorted@.len() implies result_of(#[trigger] sorted@[i], *snap, qs) by {
                    if i < p {
                        assert(sorted@[i] == before[i]);
                    } else if i > p {
                        assert(sorted@[i] == before[i - 1]);
                    }
                }
                assert forall|i: int, j3: int|
                    0 <= i < sorted@.len() && j + 1 <= j3 < snap.entries@.len() implies (#[trigger] sorted@[i]).id != (#[trigger] snap.entries@[j3]).id by {
                    if i == p {
                        assert(snap.entries@[j as int].id != snap.entries@[j3].id);
                    } else if i < p {
                        assert(sorted@[i] == before[i]);
                    } else {
                        assert(sorted@[i] == before[i - 1]);
                    }
                }
                assert forall|j2: int|
                    0 <= j2 < j + 1 && (#[trigger] entry_match(*snap, snap.entries@[j2], qs)) is Some implies exists|i: int|
                        0 <= i < sorted@.len() && #[trigger] sorted@[i].id == snap.entries@[j2].id by {
                    if j2 == j {
                        assert(sorted@[p as int].id == snap.entries@[j2].id);
                    } else {
                        let i = choose|i: int| 0 <= i < before.len() && #[trigger] before[i].id == snap.entries@[j2].id;
                        if i < p {
                            assert(sorted@[i] == before[i]);
                        } else {
                            assert(sorted@[i + 1] == before[i]);
                        }
                    }
                }
            }
        } else {
            assert(entry_match(*snap, snap.entries@[j as int], qs) is None);
        }
        j += 1;
    }
    let ghost full = sorted@;
    sorted.truncate(limit);
    proof {
        assert forall|i: int| 0 <= i < sorted@.len() implies #[trigger] sorted@[i] == full[i] by {}
        assert forall|i: int| 0 <= i < sorted@.len() implies result_of(#[trigger] sorted@[i], *snap, qs) by {
            assert(sorted@[i] == full[i]);
        }
        assert forall|j2: int|
            0 <= j2 < snap.entries@.len() && (#[trigger] entry_match(*snap, snap.entries@[j2], qs)) is Some
                implies (exists|i: int| 0 <= i < sorted@.len() && #[trigger] sorted@[i].id == snap.entries@[j2].id) || (sorted@.len() == limit
                && forall|i: int| 0 <= i < sorted@.len() ==> ranks_before_entry(#[trigger] sorted@[i], *snap, snap.entries@[j2], qs)) by {
            let t = choose|t: int| 0 <= t < full.len() && #[trigger] full[t].id == snap.entries@[j2].id;
            if t < sorted@.len() {
                assert(sorted@[t] == full[t]);
            } else {
                assert(result_of(full[t], *snap, qs));
                lemma_entry_with_id_at(snap.entries@, j2);
                assert forall|i: int| 0 <= i < sorted@.len() implies ranks_before_entry(#[trigger] sorted@[i], *snap, snap.entries@[j2], qs) by {
                    assert(sorted@[i] == full[i]);
                    assert(ranks_before(full[i], full[t]));
                }
            }
        }
    }
    assert(all_described(sorted@, *snap, qs));
    sorted
}

} // verus!
