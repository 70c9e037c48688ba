//! Scoring of one candidate string against a query: exact match, prefix
//! match, then an ordered-subsequence (fuzzy) match, in three score tiers.
use vstd::prelude::*;
use crate::text::{
    contains_upper, fold_seq, fold_views, has_upper, is_lower, is_lower_char, is_separator,
    is_separator_char, is_upper, is_upper_char, same_chars, MAX_QUERY_LEN,
};

verus! {

/// Score of a candidate equal to the query, after case folding.
pub const EXACT_SCORE: u64 = 3_000_000;

/// Score of a prefix match with no extra characters; each extra character of
/// the candidate costs one point, down to `PREFIX_TOP - PREFIX_SPREAD`.
pub const PREFIX_TOP: u64 = 2_999_999;

pub const PREFIX_SPREAD: u64 = 999_999;

/// Base of a fuzzy match, before bonuses and the gap penalty.
pub const FUZZY_BASE: u64 = 1_000_000;

/// Largest gap penalty of a fuzzy match.
pub const GAP_CAP: u64 = 900_000;

/// Bonus of a matched character that directly follows the previous one.
pub const CONTIGUITY_BONUS: u64 = 60;

/// Bonus of a matched character that starts a word of the candidate.
pub const WORD_START_BONUS: u64 = 80;

/// Bonus of a matched character whose case equals the query's, when the
/// query holds an upper-case letter.
pub const CASE_BONUS: u64 = 10;

/// Whether position `i` of `c` begins a word: the first character, one after
/// a separator, or an upper-case letter after a lower-case one.
pub open spec fn is_word_start(c: Seq<char>, i: int) -> bool {
    i == 0 || is_separator(c[i - 1]) || (is_upper(c[i]) && is_lower(c[i - 1]))
}

/// Bonus for matching query character `j` at candidate position `i`, the
/// previous query character having matched at `prev`.
pub open spec fn char_bonus(c: Seq<char>, q: Seq<char>, smart: bool, i: int, j: int, prev: int) -> nat {
    (if j > 0 && i == prev + 1 { CONTIGUITY_BONUS as nat } else { 0 }) + (if is_word_start(c, i) {
        WORD_START_BONUS as nat
    } else {
        0
    }) + (if smart && c[i] == q[j] { CASE_BONUS as nat } else { 0 })
}

/// Characters skipped between the previous matched position and `i`.
pub open spec fn gap(i: int, j: int, prev: int) -> nat {
    if j > 0 { (i - prev - 1) as nat } else { 0 }
}

/// The greedy leftmost alignment of query characters `j..` on candidate
/// positions `i..`: total bonus, total gap and the matched positions, or
/// `None` when the rest of the query is no subsequence of the rest of the
/// candidate.
pub open spec fn walk(
    cf: Seq<Seq<char>>,
    c: Seq<char>,
    qf: Seq<Seq<char>>,
    q: Seq<char>,
    smart: bool,
    i: int,
    j: int,
    prev: int,
) -> Option<(nat, nat, Seq<usize>)>
    decreases cf.len() - i,
{
    if j >= qf.len() {
        Some((0, 0, Seq::empty()))
    } else if i >= cf.len() || i < 0 {
        None
    } else if cf[i] == qf[j] {
        match walk(cf, c, qf, q, smart, i + 1, j + 1, i) {
            None => None,
            Some(w) => Some(
                (
                    char_bonus(c, q, smart, i, j, prev) + w.0,
                    gap(i, j, prev) + w.1,
                    seq![i as usize] + w.2,
                ),
            ),
        }
    } else {
        walk(cf, c, qf, q, smart, i + 1, j, prev)
    }
}

pub open spec fn span(n: nat) -> Seq<usize> {
    Seq::new(n, |k: int| k as usize)
}

pub open spec fn fuzzy_score(bonus: nat, gaps: nat) -> u64 {
    (FUZZY_BASE + bonus - if gaps < GAP_CAP { gaps as int } else { GAP_CAP as int }) as u64
}

pub open spec fn prefix_score(extra: int) -> u64 {
    (PREFIX_TOP - if extra < PREFIX_SPREAD { extra } else { PREFIX_SPREAD as int }) as u64
}

/// Text score of candidate `c` for the trimmed query `q`, with the positions
/// of `c` that matched; `None` when `c` does not match.
pub open spec fn text_score(c: Seq<char>, q: Seq<char>) -> Option<(u64, Seq<usize>)> {
    let cf = fold_seq(c);
    let qf = fold_seq(q);
    if cf == qf {
        Some((EXACT_SCORE, span(c.len())))
    } else if qf.len() < cf.len() && cf.take(qf.len() as int) == qf {
        Some((prefix_score(cf.len() - qf.len()), span(q.len())))
    } else {
        match walk(cf, c, qf, q, has_upper(q), 0, 0, -1) {
            None => None,
            Some(w) => Some((fuzzy_score(w.0, w.1), w.2)),
        }
    }
}

pub open spec fn add_walk(b: nat, g: nat, p: Seq<usize>, w: Option<(nat, nat, Seq<usize>)>) -> Option<
    (nat, nat, Seq<usize>),
> {
    match w {
        None => None,
        Some(w) => Some((b + w.0, g + w.1, p + w.2)),
    }
}

pub proof fn lemma_walk_bonus_bound(
    cf: Seq<Seq<char>>,
    c: Seq<char>,
    qf: Seq<Seq<char>>,
    q: Seq<char>,
    smart: bool,
    i: int,
    j: int,
    prev: int,
)
    requires
        0 <= j <= qf.len(),
        walk(cf, c, qf, q, smart, i, j, prev) is Some,
    ensures
        walk(cf, c, qf, q, smart, i, j, prev).unwrap().0 <= 150 * (qf.len() - j),
    decreases cf.len() - i,
{
    if j < qf.len() && 0 <= i < cf.len() {
        if cf[i] == qf[j] {
            lemma_walk_bonus_bound(cf, c, qf, q, smart, i + 1, j + 1, i);
        } else {
            lemma_walk_bonus_bound(cf, c, qf, q, smart, i + 1, j, prev);
        }
    }
}

/// No text score exceeds that of an exact match.
pub proof fn lemma_text_score_bound(c: Seq<char>, q: Seq<char>)
    requires
        q.len() <= MAX_QUERY_LEN,
    ensures
        text_score(c, q) is Some ==> text_score(c, q).unwrap().0 <= EXACT_SCORE,
{
    let cf = fold_seq(c);
    let qf = fold_seq(q);
    if walk(cf, c, qf, q, has_upper(q), 0, 0, -1) is Some {
        lemma_walk_bonus_bound(cf, c, qf, q, has_upper(q), 0, 0, -1);
    }
}

fn word_start_at(c: &Vec<char>, i: usize) -> (r: bool)
    requires
        i < c.len(),
    ensures
        r == is_word_start(c@, i as int),
{
    i == 0 || is_separator_char(c[i - 1]) || (is_upper_char(c[i]) && is_lower_char(c[i - 1]))
}

/// Scores candidate `c` (with its folded form `cf`) against the trimmed
/// query `q` (with its folded form `qf`).
pub fn score_text(c: &Vec<char>, cfv: &Vec<Vec<char>>, q: &Vec<char>, qfv: &Vec<Vec<char>>) -> (r: Option<
    (u64, Vec<usize>),
>)
    requires
        fold_views(cfv@) == fold_seq(c@),
        fold_views(qfv@) == fold_seq(q@),
        q.len() <= MAX_QUERY_LEN,
    ensures
        match text_score(c@, q@) {
            None => r is None,
            Some(t) => r matches Some(x) && x.0 == t.0 && x.1@ == t.1,
        },
{
    let ghost cf = fold_seq(c@);
    let ghost qf = fold_seq(q@);
    let n = cfv.len();
    let m = qfv.len();
    assert(n == cf.len() && m == qf.len());
    let mut same_prefix = m <= n;
    let mut k: usize = 0;
    while same_prefix && k < m
        invariant
            k <= m,
            n == cf.len(),
            m == qf.len(),
            cf == fold_seq(c@),
            qf == fold_seq(q@),
            fold_views(cfv@) == cf,
            fold_views(qfv@) == qf,
            same_prefix ==> m <= n && cf.take(k as int) == qf.take(k as int),
            !same_prefix ==> !(m <= n && cf.take(m as int) == qf),
        decreases m - k + (if same_prefix { 1int } else { 0 }),
    {
        assert(cfv@[k as int]@ == cf[k as int] && qfv@[k as int]@ == qf[k as int]);
        if !same_chars(&cfv[k], &qfv[k]) {
            assert(cf.take(m as int)[k as int] != qf[k as int]);
            same_prefix = false;
        } else {
            assert(cf.take(k as int + 1) =~= cf.take(k as int).push(cf[k as int]));
            assert(qf.take(k as int + 1) =~= qf.take(k as int).push(qf[k as int]));
            k += 1;
        }
    }
    if same_prefix {
        assert(qf.take(m as int) =~= qf);
    }
    if same_prefix && m == n {
        assert(cf =~= qf);
        let mut p: Vec<usize> = Vec::new();
        let mut t: usize = 0;
        while t < n
            invariant
                t <= n,
                n == c@.len(),
                p@ =~= span(t as nat),
            decreases n - t,
        {
            p.push(t);
            t += 1;
        }
        return Some((EXACT_SCORE, p));
    }
    if same_prefix {
        assert(cf != qf);
        let extra = n - m;
        let score = if extra < PREFIX_SPREAD as usize {
            PREFIX_TOP - extra as u64
        } else {
            PREFIX_TOP - PREFIX_SPREAD
        };
        let mut p: Vec<usize> = Vec::new();
        let mut t: usize = 0;
        while t < m
            invariant
                t <= m,
                m == q@.len(),
                p@ =~= span(t as nat),
            decreases m - t,
        {
            p.push(t);
            t += 1;
        }
        return Some((score, p));
    }
    assert(cf != qf) by {
        if cf == qf {
            assert(cf.take(m as int) =~= qf);
        }
    }
    let smart = contains_upper(q);
    let ghost full = walk(cf, c@, qf, q@, smart, 0, 0, -1);
    let mut i: usize = 0;
    let mut j: usize = 0;
    let mut prev: usize = 0;
    let mut bonus: u64 = 0;
    let mut gaps: usize = 0;
    let mut pos: Vec<usize> = Vec::new();
    assert(pos@ + seq![] =~= pos@);
    while j < m && i < n
        invariant
            n == cf.len(),
            n == c@.len(),
            m == qf.len(),
            cf == fold_seq(c@),
            qf == fold_seq(q@),
            fold_views(cfv@) == cf,
            fold_views(qfv@) == qf,
            m == q@.len(),
            m <= MAX_QUERY_LEN,
            j <= m,
            i <= n,
            j <= i,
            j > 0 ==> prev < i,
            bonus <= 150 * j,
            j > 0 ==> gaps <= prev,
            j == 0 ==> gaps == 0,
            smart == has_upper(q@),
            full == add_walk(
                bonus as nat,
                gaps as nat,
                pos@,
                walk(cf, c@, qf, q@, smart, i as int, j as int, if j == 0 { -1 } else { prev as int }),
            ),
        decreases n - i,
    {
        let ghost pv: int = if j == 0 { -1 } else { prev as int };
        assert(cfv@[i as int]@ == cf[i as int] && qfv@[j as int]@ == qf[j as int]);
        if same_chars(&cfv[i], &qfv[j]) {
            let ws = word_start_at(c, i);
            let b: u64 = (if j > 0 && i == prev + 1 { CONTIGUITY_BONUS } else { 0 }) + (if ws {
                WORD_START_BONUS
            } else {
                0
            }) + (if smart && c[i] == q[j] { CASE_BONUS } else { 0 });
            assert(b as nat == char_bonus(c@, q@, smart, i as int, j as int, pv));
            let g: usize = if j > 0 { i - prev - 1 } else { 0 };
            assert(g as nat == gap(i as int, j as int, pv));
            proof {
                let w = walk(cf, c@, qf, q@, smart, i as int + 1, j as int + 1, i as int);
                if w is Some {
                    assert(pos@ + (seq![i as usize] + w.unwrap().2) =~= pos@.push(i) + w.unwrap().2);
                }
            }
            bonus = bonus + b;
            gaps = gaps + g;
            pos.push(i);
            prev = i;
            j += 1;
        }
        i += 1;
    }
    if j < m {
        assert(full is None);
        None
    } else {
        proof {
            assert(pos@ + seq![] =~= pos@);
        }
        let cap = if gaps < GAP_CAP as usize { gaps as u64 } else { GAP_CAP };
        Some((FUZZY_BASE + bonus - cap, pos))
    }
}

/// A prefix of the query never matches less: whatever candidate matches the
/// longer query after folding also matches each of its prefixes.
pub proof fn lemma_walk_prefix(
    cf: Seq<Seq<char>>,
    c: Seq<char>,
    qf: Seq<Seq<char>>,
    q: Seq<char>,
    smart: bool,
    qf2: Seq<Seq<char>>,
    q2: Seq<char>,
    smart2: bool,
    i: int,
    j: int,
    prev: int,
)
    requires
        qf.len() <= qf2.len(),
        qf2.take(qf.len() as int) == qf,
        0 <= j,
        walk(cf, c, qf2, q2, smart2, i, j, prev) is Some,
    ensures
        walk(cf, c, qf, q, smart, i, j, prev) is Some,
    decreases cf.len() - i,
{
    if j < qf.len() {
        assert(qf[j] == qf2[j]);
        if 0 <= i < cf.len() {
            if cf[i] == qf[j] {
                lemma_walk_prefix(cf, c, qf, q, smart, qf2, q2, smart2, i + 1, j + 1, i);
            } else {
                lemma_walk_prefix(cf, c, qf, q, smart, qf2, q2, smart2, i + 1, j, prev);
            }
        }
    }
}

/// Whatever candidate matches a query also matches every query whose folded
/// form is a prefix of that query's folded form.
pub proof fn lemma_text_prefix(c: Seq<char>, q: Seq<char>, q2: Seq<char>)
    requires
        fold_seq(q).len() <= fold_seq(q2).len(),
        fold_seq(q2).take(q.len() as int) == fold_seq(q),
        text_score(c, q2) is Some,
    ensures
        text_score(c, q) is Some,
{
    let cf = fold_seq(c);
    let qf = fold_seq(q);
    let qf2 = fold_seq(q2);
    if cf == qf {
    } else if cf == qf2 || (qf2.len() < cf.len() && cf.take(qf2.len() as int) == qf2) {
        assert(cf.take(qf.len() as int) =~= qf2.take(qf.len() as int));
        assert(qf.len() != cf.len() || cf.take(qf.len() as int) =~= cf);
    } else {
        lemma_walk_prefix(cf, c, qf, q, has_upper(q), qf2, q2, has_upper(q2), 0, 0, -1);
    }
}

} // verus!
