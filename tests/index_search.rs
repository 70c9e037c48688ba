use zerolaunch::index::{
    alias_entries, IndexSnapshot, LaunchError, LaunchHandle, ProgramEntry, RebuildError, ScanOutcome, SourceKind,
};
use zerolaunch::search::{search, MatchResult};

fn entry(name: &str, aliases: &[&str], kind: SourceKind, key: &str) -> ProgramEntry {
    ProgramEntry {
        id: 0,
        display_name: name.to_string(),
        aliases: aliases.iter().map(|a| a.to_string()).collect(),
        launch_target: format!("{}.exe", key),
        icon_ref: String::new(),
        source_kind: kind,
        stable_key: key.to_string(),
        weight: 1,
    }
}

fn build(entries: Vec<ProgramEntry>) -> IndexSnapshot {
    IndexSnapshot::new().rebuild(&vec![ScanOutcome::Found(entries)]).unwrap()
}

fn id_of(snap: &IndexSnapshot, key: &str) -> u64 {
    snap.entries.iter().find(|e| e.stable_key == key).unwrap().id
}

fn names(r: &[MatchResult]) -> Vec<String> {
    r.iter().map(|m| m.display_name.clone()).collect()
}

fn launch_n(snap: &mut IndexSnapshot, key: &str, n: u64, start: u64) {
    let id = id_of(snap, key);
    for t in 0..n {
        snap.launch(id, true, start + t).unwrap();
    }
}

#[test]
fn empty_query_orders_by_count_then_recency() {
    let mut snap = build(vec![
        entry("A", &[], SourceKind::Directory, "a"),
        entry("B", &[], SourceKind::Directory, "b"),
        entry("C", &[], SourceKind::Directory, "c"),
    ]);
    launch_n(&mut snap, "c", 5, 10);
    launch_n(&mut snap, "b", 2, 20);
    launch_n(&mut snap, "a", 5, 30);
    let r = search(&snap, "", 10);
    assert_eq!(names(&r), vec!["A", "C", "B"]);
    assert_eq!(r[0].score, 5);
    assert_eq!(r[2].score, 2);
}

#[test]
fn empty_query_full_tie_is_alphabetical() {
    let snap = build(vec![
        entry("Zed", &[], SourceKind::Directory, "z"),
        entry("Alpha", &[], SourceKind::Directory, "a"),
        entry("Mid", &[], SourceKind::Directory, "m"),
    ]);
    assert_eq!(names(&search(&snap, "", 10)), vec!["Alpha", "Mid", "Zed"]);
}

#[test]
fn visual_studio_scenario() {
    let snap = build(vec![
        entry("Visual Studio Code", &["vscode"], SourceKind::Directory, "code"),
        entry("Visual Studio", &[], SourceKind::Directory, "studio"),
    ]);
    let r = search(&snap, "vs", 10);
    assert_eq!(names(&r), vec!["Visual Studio Code", "Visual Studio"]);
    assert_eq!(r[0].matched_field, 1);
    assert_eq!(r[0].score, (2_999_999 - 4) * 16);
    assert_eq!(r[1].matched_field, 0);
    assert!(r[1].score < 2_000_000 * 16);

    let r = search(&snap, "vsc", 10);
    assert_eq!(names(&r), vec!["Visual Studio Code"]);
    assert_eq!(r[0].matched_field, 1);
    assert_eq!(r[0].matched_positions, vec![0, 1, 2]);
    assert!(r[0].score >= 2_000_000 * 16);
}

#[test]
fn alias_prefix_beats_fuzzy_display_name() {
    let with_alias = build(vec![entry("Visual Studio Code", &["vscode"], SourceKind::Directory, "code")]);
    let without = build(vec![entry("Visual Studio Code", &[], SourceKind::Directory, "code")]);
    let a = search(&with_alias, "vsc", 1);
    let b = search(&without, "vsc", 1);
    assert_eq!(b[0].matched_field, 0);
    assert!(a[0].score > b[0].score);
}

#[test]
fn exact_and_prefix_scores() {
    let snap = build(vec![
        entry("visual", &[], SourceKind::Directory, "v1"),
        entry("Visual Studio", &[], SourceKind::Directory, "v2"),
    ]);
    let r = search(&snap, "VISUAL", 10);
    assert_eq!(names(&r), vec!["visual", "Visual Studio"]);
    assert_eq!(r[0].score, 3_000_000 * 16);
    assert_eq!(r[0].matched_positions, vec![0, 1, 2, 3, 4, 5]);
    assert_eq!(r[1].score, (2_999_999 - 7) * 16);
}

#[test]
fn fuzzy_score_exact_value() {
    let snap = build(vec![entry("ab-cd", &[], SourceKind::Directory, "k")]);
    let r = search(&snap, "ac", 10);
    assert_eq!(r.len(), 1);
    assert_eq!(r[0].score, (1_000_000 + 160 - 2) * 16);
    assert_eq!(r[0].matched_positions, vec![0, 3]);
}

#[test]
fn fuzzy_case_bonus_for_mixed_case_query() {
    let snap = build(vec![entry("Ab-Cd", &[], SourceKind::Directory, "k")]);
    let lower = search(&snap, "ac", 1);
    let upper = search(&snap, "AC", 1);
    assert_eq!(lower[0].score, (1_000_000 + 160 - 2) * 16);
    assert_eq!(upper[0].score, (1_000_000 + 180 - 2) * 16);
}

#[test]
fn contiguity_counts() {
    let snap = build(vec![entry("xabc", &[], SourceKind::Directory, "k")]);
    let r = search(&snap, "bc", 1);
    // b at 2 (no bonus), c at 3 (contiguous)
    assert_eq!(r[0].score, (1_000_000 + 60) * 16);
}

#[test]
fn no_subsequence_no_result() {
    let snap = build(vec![entry("Notepad", &["np"], SourceKind::Directory, "k")]);
    assert!(search(&snap, "xyz", 10).is_empty());
    assert!(search(&snap, "pn", 10).is_empty());
}

#[test]
fn query_is_trimmed() {
    let snap = build(vec![entry("Notepad", &[], SourceKind::Directory, "k")]);
    let a = search(&snap, "  note \t", 10);
    let b = search(&snap, "note", 10);
    assert_eq!(a.len(), 1);
    assert_eq!(a[0].score, b[0].score);
}

#[test]
fn limit_truncates_best_first() {
    let snap = build(vec![
        entry("aaa", &[], SourceKind::Directory, "1"),
        entry("aa", &[], SourceKind::Directory, "2"),
        entry("a", &[], SourceKind::Directory, "3"),
    ]);
    assert_eq!(names(&search(&snap, "a", 2)), vec!["a", "aa"]);
    assert!(search(&snap, "a", 0).is_empty());
}

#[test]
fn frecency_breaks_text_ties() {
    let mut snap = build(vec![
        entry("Alpha Tool", &[], SourceKind::Directory, "x"),
        entry("Alpha Tune", &[], SourceKind::Directory, "y"),
    ]);
    assert_eq!(names(&search(&snap, "alpha t", 10)), vec!["Alpha Tool", "Alpha Tune"]);
    launch_n(&mut snap, "y", 1, 5);
    assert_eq!(names(&search(&snap, "alpha t", 10)), vec!["Alpha Tune", "Alpha Tool"]);
}

#[test]
fn search_is_deterministic() {
    let snap = build(vec![
        entry("Visual Studio Code", &["vscode"], SourceKind::Directory, "code"),
        entry("Visual Studio", &[], SourceKind::Directory, "studio"),
        entry("Vim", &[], SourceKind::Directory, "vim"),
    ]);
    let a = search(&snap, "v", 10);
    let b = search(&snap, "v", 10);
    assert_eq!(a.len(), b.len());
    for (x, y) in a.iter().zip(b.iter()) {
        assert_eq!(x.id, y.id);
        assert_eq!(x.score, y.score);
        assert_eq!(x.matched_positions, y.matched_positions);
    }
}

#[test]
fn prefix_query_matches_superset() {
    let snap = build(vec![
        entry("Visual Studio Code", &["vscode"], SourceKind::Directory, "code"),
        entry("Visual Studio", &[], SourceKind::Directory, "studio"),
        entry("Vim", &[], SourceKind::Directory, "vim"),
        entry("Paint", &[], SourceKind::Directory, "paint"),
    ]);
    let long: Vec<u64> = search(&snap, "visual s", 10).iter().map(|m| m.id).collect();
    let short: Vec<u64> = search(&snap, "vi", 10).iter().map(|m| m.id).collect();
    assert_eq!(long.len(), 2);
    assert_eq!(short.len(), 3);
    for id in long {
        assert!(short.contains(&id));
    }
}

#[test]
fn usage_persists_across_rebuild() {
    let scans = vec![ScanOutcome::Found(vec![entry("Editor", &[], SourceKind::Directory, "ed")])];
    let mut v1 = IndexSnapshot::new().rebuild(&scans).unwrap();
    let id = id_of(&v1, "ed");
    assert_eq!(v1.launch(id, true, 42), Ok(LaunchHandle { id, launch_count: 1 }));
    let v2 = v1.rebuild(&scans).unwrap();
    let key = "ed".to_string();
    assert_eq!(v2.launch_count(&key), 1);
    assert_eq!(v2.last_launched_at(&key), 42);
    assert_eq!(id_of(&v2, "ed"), id);
    assert_eq!(v2.get_index_version(), 2);
}

#[test]
fn stale_id_is_not_found() {
    let v1 = build(vec![
        entry("Keep", &[], SourceKind::Directory, "keep"),
        entry("Gone", &[], SourceKind::Directory, "gone"),
    ]);
    let stale = id_of(&v1, "gone");
    let mut v2 = v1
        .rebuild(&vec![ScanOutcome::Found(vec![entry("Keep", &[], SourceKind::Directory, "keep")])])
        .unwrap();
    assert_eq!(v2.launch(stale, true, 1), Err(LaunchError::NotFound));
    assert_eq!(v2.launch_target(stale), Err(LaunchError::NotFound));
    assert_eq!(v2.launch_target(id_of(&v2, "keep")), Ok("keep.exe".to_string()));
}

#[test]
fn alias_wins_over_directory_entry() {
    let mut dir = entry("code.exe", &[], SourceKind::Directory, "code");
    dir.launch_target = "C:/code/code.exe".to_string();
    let mut alias = entry("VS Code", &["vsc"], SourceKind::Alias, "code");
    alias.launch_target = "code --new-window".to_string();
    let snap = IndexSnapshot::new()
        .rebuild(&vec![ScanOutcome::Found(vec![dir.clone()]), ScanOutcome::Found(vec![alias])])
        .unwrap();
    assert_eq!(snap.entries.len(), 1);
    assert_eq!(snap.entries[0].display_name, "VS Code");
    assert_eq!(snap.entries[0].source_kind, SourceKind::Alias);
    assert_eq!(snap.entries[0].launch_target, "code --new-window");
    let other = IndexSnapshot::new()
        .rebuild(&vec![ScanOutcome::Found(vec![entry("Lnk", &[], SourceKind::Shortcut, "code"), dir])])
        .unwrap();
    assert_eq!(other.entries[0].source_kind, SourceKind::Shortcut);
}

#[test]
fn all_sources_failed_keeps_previous() {
    let v1 = build(vec![entry("A", &[], SourceKind::Directory, "a")]);
    assert_eq!(
        v1.rebuild(&vec![ScanOutcome::Unavailable, ScanOutcome::Unavailable]).err(),
        Some(RebuildError::AllSourcesFailed)
    );
    assert_eq!(v1.rebuild(&vec![]).err(), Some(RebuildError::AllSourcesFailed));
    let v2 = v1
        .rebuild(&vec![ScanOutcome::Unavailable, ScanOutcome::Found(vec![entry("B", &[], SourceKind::Package, "b")])])
        .unwrap();
    assert_eq!(v2.entries.len(), 1);
    assert_eq!(v2.version, 2);
}

#[test]
fn counter_exhausted() {
    let mut snap = IndexSnapshot::new();
    snap.version = u64::MAX;
    assert_eq!(
        snap.rebuild(&vec![ScanOutcome::Found(vec![])]).err(),
        Some(RebuildError::CounterExhausted)
    );
    let mut snap = IndexSnapshot::new();
    snap.next_id = u64::MAX;
    assert_eq!(
        snap.rebuild(&vec![ScanOutcome::Found(vec![entry("A", &[], SourceKind::Directory, "a")])]).err(),
        Some(RebuildError::CounterExhausted)
    );
}

#[test]
fn failed_launch_records_nothing() {
    let mut snap = build(vec![entry("A", &[], SourceKind::Directory, "a")]);
    let id = id_of(&snap, "a");
    assert_eq!(snap.launch(id, false, 9), Err(LaunchError::LaunchFailed));
    assert_eq!(snap.launch_count(&"a".to_string()), 0);
    assert!(snap.usage.is_empty());
}

#[test]
fn usage_dropped_after_three_missed_rebuilds() {
    let with = vec![ScanOutcome::Found(vec![entry("A", &[], SourceKind::Directory, "a")])];
    let without = vec![ScanOutcome::Found(vec![entry("B", &[], SourceKind::Directory, "b")])];
    let mut s = IndexSnapshot::new().rebuild(&with).unwrap();
    launch_n(&mut s, "a", 3, 1);
    let key = "a".to_string();
    let s1 = s.rebuild(&without).unwrap();
    let s2 = s1.rebuild(&without).unwrap();
    assert_eq!(s2.launch_count(&key), 3);
    let back = s2.rebuild(&with).unwrap();
    assert_eq!(back.launch_count(&key), 3);
    let s3 = s2.rebuild(&without).unwrap();
    assert_eq!(s3.launch_count(&key), 0);
}

#[test]
fn ids_are_fresh_for_new_keys() {
    let v1 = build(vec![entry("A", &[], SourceKind::Directory, "a")]);
    let a = id_of(&v1, "a");
    let v2 = v1
        .rebuild(&vec![ScanOutcome::Found(vec![
            entry("B", &[], SourceKind::Directory, "b"),
            entry("A", &[], SourceKind::Directory, "a"),
        ])])
        .unwrap();
    assert_eq!(id_of(&v2, "a"), a);
    assert_ne!(id_of(&v2, "b"), a);
}

#[test]
fn source_weight_scales_text_score() {
    let mut heavy = entry("Notes", &[], SourceKind::Package, "heavy");
    heavy.weight = 3;
    let snap = build(vec![entry("Notepad", &[], SourceKind::Directory, "plain"), heavy]);
    let r = search(&snap, "note", 10);
    assert_eq!(names(&r), vec!["Notes", "Notepad"]);
    assert_eq!(r[0].score, (2_999_999 - 1) * 3 * 16);
    assert_eq!(r[1].score, (2_999_999 - 3) * 16);
}

#[test]
fn case_folding_covers_non_ascii_letters() {
    let snap = build(vec![entry("\u{e9}t\u{e9}", &[], SourceKind::Directory, "ete")]);
    assert_eq!(search(&snap, "\u{e9}", 10).len(), 1);
    assert_eq!(search(&snap, "\u{c9}", 10).len(), 1);
    assert_eq!(search(&snap, "\u{c9}T\u{c9}", 10)[0].score, 3_000_000 * 16);
    let greek = build(vec![entry("\u{3a3}\u{3b9}\u{3b3}\u{3bc}\u{3b1}", &[], SourceKind::Directory, "g")]);
    assert_eq!(search(&greek, "\u{3c3}\u{3b9}", 10).len(), 1);
}

#[test]
fn alias_entries_from_pairs() {
    let pairs = vec![("vsc".to_string(), "code --new-window".to_string()), ("np".to_string(), "notepad".to_string())];
    let entries = alias_entries(&pairs, 2);
    assert_eq!(entries.len(), 2);
    assert_eq!(entries[0].display_name, "vsc");
    assert_eq!(entries[0].launch_target, "code --new-window");
    assert_eq!(entries[0].stable_key, "code --new-window");
    assert_eq!(entries[1].source_kind, SourceKind::Alias);
    assert_eq!(entries[1].weight, 2);
    let snap = IndexSnapshot::new().rebuild(&vec![ScanOutcome::Found(entries)]).unwrap();
    assert_eq!(search(&snap, "np", 10)[0].display_name, "np");
}
