//! The program index: launchable entries, the usage statistics kept for them
//! by stable key, and the versioned snapshot that a rebuild replaces.
use vstd::prelude::*;

verus! {

/// Number of consecutive rebuilds that may miss a stable key before its
/// usage statistics are dropped.
pub const GRACE_REBUILDS: u8 = 3;

/// Which source produced an entry; a higher precedence wins deduplication.
#[derive(Clone, Copy, Debug, PartialEq, Eq, Structural)]
pub enum SourceKind {
    Directory,
    Shortcut,
    Package,
    Alias,
}

impl SourceKind {
    pub open spec fn rank(self) -> nat {
        match self {
            SourceKind::Directory => 0,
            SourceKind::Shortcut => 1,
            SourceKind::Package => 2,
            SourceKind::Alias => 3,
        }
    }

    pub fn precedence(&self) -> (r: u8)
        ensures
            r as nat == self.rank(),
    {
        match self {
            SourceKind::Directory => 0,
            SourceKind::Shortcut => 1,
            SourceKind::Package => 2,
            SourceKind::Alias => 3,
        }
    }
}

/// One launchable unit. The index assigns `id`; a scanner's value is ignored.
#[derive(Clone, Debug)]
pub struct ProgramEntry {
    pub id: u64,
    pub display_name: String,
    pub aliases: Vec<String>,
    pub launch_target: String,
    pub icon_ref: String,
    pub source_kind: SourceKind,
    pub stable_key: String,
    /// Multiplier of the text score, set from the source's configuration;
    /// 1 leaves the score as it is.
    pub weight: u32,
}

/// Equality of two entries in every field but `id`.
pub open spec fn same_except_id(a: ProgramEntry, b: ProgramEntry) -> bool {
    &&& a.display_name@ == b.display_name@
    &&& a.aliases@ == b.aliases@
    &&& a.launch_target@ == b.launch_target@
    &&& a.icon_ref@ == b.icon_ref@
    &&& a.source_kind == b.source_kind
    &&& a.stable_key@ == b.stable_key@
    &&& a.weight == b.weight
}

pub fn copy_strings(v: &Vec<String>) -> (r: Vec<String>)
    ensures
        r@ == v@,
{
    let mut r: Vec<String> = Vec::new();
    let mut i: usize = 0;
    while i < v.len()
        invariant
            i <= v.len(),
            r@ =~= v@.take(i as int),
        decreases v.len() - i,
    {
        r.push(v[i].clone());
        i += 1;
    }
    assert(v@.take(v.len() as int) =~= v@);
    r
}

impl ProgramEntry {
    /// A copy of the entry carrying the given id.
    pub fn with_id(&self, id: u64) -> (r: ProgramEntry)
        ensures
            r.id == id,
            same_except_id(r, *self),
    {
        ProgramEntry {
            id,
            display_name: self.display_name.clone(),
            aliases: copy_strings(&self.aliases),
            launch_target: self.launch_target.clone(),
            icon_ref: self.icon_ref.clone(),
            source_kind: self.source_kind,
            stable_key: self.stable_key.clone(),
            weight: self.weight,
        }
    }
}

/// Entries for user-defined aliases, one per pair of name and launch target,
/// in order: the name is shown and matched, the target is launched and keys
/// the entry.
pub fn alias_entries(aliases: &Vec<(String, String)>, weight: u32) -> (r: Vec<ProgramEntry>)
    ensures
        r@.len() == aliases@.len(),
        forall|i: int|
            0 <= i < r@.len() ==> {
                let e = #[trigger] r@[i];
                &&& e.id == 0
                &&& e.display_name@ == aliases@[i].0@
                &&& e.aliases@.len() == 0
                &&& e.launch_target@ == aliases@[i].1@
                &&& e.icon_ref@.len() == 0
                &&& e.source_kind == SourceKind::Alias
                &&& e.stable_key@ == aliases@[i].1@
                &&& e.weight == weight
            },
{
    let mut r: Vec<ProgramEntry> = Vec::new();
    let mut i: usize = 0;
    while i < aliases.len()
        invariant
            i <= aliases@.len(),
            r@.len() == i,
            forall|k: int|
                0 <= k < i ==> {
                    let e = #[trigger] r@[k];
                    &&& e.id == 0
                    &&& e.display_name@ == aliases@[k].0@
                    &&& e.aliases@.len() == 0
                    &&& e.launch_target@ == aliases@[k].1@
                    &&& e.icon_ref@.len() == 0
                    &&& e.source_kind == SourceKind::Alias
                    &&& e.stable_key@ == aliases@[k].1@
                    &&& e.weight == weight
                },
        decreases aliases.len() - i,
    {
        let pair = &aliases[i];
        let e = ProgramEntry {
            id: 0,
            display_name: pair.0.clone(),
            aliases: Vec::new(),
            launch_target: pair.1.clone(),
            icon_ref: String::new(),
            source_kind: SourceKind::Alias,
            stable_key: pair.1.clone(),
            weight,
        };
        r.push(e);
        i += 1;
    }
    r
}

/// Usage statistics of one stable key.
#[derive(Clone, Debug)]
pub struct UsageRecord {
    pub stable_key: String,
    pub launch_count: u64,
    pub last_launched_at: u64,
    /// Consecutive rebuilds, up to now, in which the key had no entry.
    pub missed_rebuilds: u8,
}

/// What one scanner reported: its entries, or that its source was unavailable.
#[derive(Clone, Debug)]
pub enum ScanOutcome {
    Found(Vec<ProgramEntry>),
    Unavailable,
}

/// The entry at position `k` of scanner `s`'s output, if there is one.
pub open spec fn found_at(scans: Seq<ScanOutcome>, s: int, k: int) -> Option<ProgramEntry> {
    if 0 <= s < scans.len() {
        match scans[s] {
            ScanOutcome::Found(v) => if 0 <= k < v@.len() {
                Some(v@[k])
            } else {
                None
            },
            ScanOutcome::Unavailable => None,
        }
    } else {
        None
    }
}

pub open spec fn any_found(scans: Seq<ScanOutcome>) -> bool {
    exists|s: int| 0 <= s < scans.len() && #[trigger] scans[s] is Found
}

/// Number of entries over all scanners that found their source.
pub open spec fn total_found(scans: Seq<ScanOutcome>) -> nat
    decreases scans.len(),
{
    if scans.len() == 0 {
        0
    } else {
        total_found(scans.drop_last()) + match scans.last() {
            ScanOutcome::Found(v) => v@.len(),
            ScanOutcome::Unavailable => 0,
        }
    }
}

pub open spec fn keys_unique(entries: Seq<ProgramEntry>) -> bool {
    forall|i: int, j: int|
        0 <= i < entries.len() && 0 <= j < entries.len() && i != j ==> #[trigger] entries[i].stable_key@
            != #[trigger] entries[j].stable_key@
}

pub open spec fn ids_unique(entries: Seq<ProgramEntry>) -> bool {
    forall|i: int, j: int|
        0 <= i < entries.len() && 0 <= j < entries.len() && i != j ==> #[trigger] entries[i].id
            != #[trigger] entries[j].id
}

pub open spec fn has_key(entries: Seq<ProgramEntry>, key: Seq<char>) -> bool {
    exists|i: int| 0 <= i < entries.len() && #[trigger] entries[i].stable_key@ == key
}

pub open spec fn has_id(entries: Seq<ProgramEntry>, id: u64) -> bool {
    exists|i: int| 0 <= i < entries.len() && #[trigger] entries[i].id == id
}

/// The entry with the given id, if any.
pub open spec fn entry_with_id(entries: Seq<ProgramEntry>, id: u64) -> Option<ProgramEntry> {
    if has_id(entries, id) {
        Some(entries[choose|i: int| 0 <= i < entries.len() && #[trigger] entries[i].id == id])
    } else {
        None
    }
}

pub open spec fn usage_keys_unique(usage: Seq<UsageRecord>) -> bool {
    forall|i: int, j: int|
        0 <= i < usage.len() && 0 <= j < usage.len() && i != j ==> #[trigger] usage[i].stable_key@
            != #[trigger] usage[j].stable_key@
}

/// The usage record of a stable key, if the table holds one.
pub open spec fn usage_for(usage: Seq<UsageRecord>, key: Seq<char>) -> Option<UsageRecord> {
    if exists|i: int| 0 <= i < usage.len() && #[trigger] usage[i].stable_key@ == key {
        Some(usage[choose|i: int| 0 <= i < usage.len() && #[trigger] usage[i].stable_key@ == key])
    } else {
        None
    }
}

/// Launch count of a stable key; a key without a record has zero.
pub open spec fn launch_count_of(usage: Seq<UsageRecord>, key: Seq<char>) -> u64 {
    match usage_for(usage, key) {
        Some(r) => r.launch_count,
        None => 0,
    }
}

/// Last launch time of a stable key; a key without a record has zero.
pub open spec fn last_launch_of(usage: Seq<UsageRecord>, key: Seq<char>) -> u64 {
    match usage_for(usage, key) {
        Some(r) => r.last_launched_at,
        None => 0,
    }
}

/// How a rebuild carries a key's usage record forward: kept with its counts
/// while the key has an entry, and dropped on the rebuild that misses the key
/// for the `GRACE_REBUILDS`-th time in a row.
pub open spec fn carried(before: Option<UsageRecord>, after: Option<UsageRecord>, present: bool) -> bool {
    match before {
        None => after is None,
        Some(b) => if present {
            after matches Some(a) && a.launch_count == b.launch_count && a.last_launched_at
                == b.last_launched_at && a.missed_rebuilds == 0
        } else if b.missed_rebuilds + 1 >= GRACE_REBUILDS {
            after is None
        } else {
            after matches Some(a) && a.launch_count == b.launch_count && a.last_launched_at
                == b.last_launched_at && a.missed_rebuilds == b.missed_rebuilds + 1
        },
    }
}

proof fn lemma_usage_for_at(usage: Seq<UsageRecord>, i: int)
    requires
        usage_keys_unique(usage),
        0 <= i < usage.len(),
    ensures
        usage_for(usage, usage[i].stable_key@) == Some(usage[i]),
{
}

pub proof fn lemma_entry_with_id_at(entries: Seq<ProgramEntry>, i: int)
    requires
        ids_unique(entries),
        0 <= i < entries.len(),
    ensures
        entry_with_id(entries, entries[i].id) == Some(entries[i]),
{
}

/// Whether `x` equals, but for its id, some entry that a scanner reported.
pub open spec fn from_scans(scans: Seq<ScanOutcome>, x: ProgramEntry) -> bool {
    exists|s: int, k: int|
        #[trigger] found_at(scans, s, k) is Some && same_except_id(x, found_at(scans, s, k).unwrap())
}

/// Whether scanner output position `(s2, k2)` comes before `(s, k)`.
pub open spec fn earlier(s2: int, k2: int, s: int, k: int) -> bool {
    s2 < s || (s2 == s && k2 < k)
}

/// Whether `x` equals, but for its id, the first entry reported for its key
/// among those of the highest precedence.
pub open spec fn first_of_best(scans: Seq<ScanOutcome>, x: ProgramEntry) -> bool {
    exists|s: int, k: int|
        #[trigger] found_at(scans, s, k) is Some && same_except_id(x, found_at(scans, s, k).unwrap()) && forall|
            s2: int,
            k2: int,
        |
            earlier(s2, k2, s, k) && #[trigger] found_at(scans, s2, k2) is Some && found_at(scans, s2, k2).unwrap().stable_key@
                == x.stable_key@ ==> found_at(scans, s2, k2).unwrap().source_kind.rank() < x.source_kind.rank()
}

/// Whether `entries` holds the key of `e`, each time from a source of at
/// least `e`'s precedence.
pub open spec fn covers(entries: Seq<ProgramEntry>, e: ProgramEntry) -> bool {
    &&& has_key(entries, e.stable_key@)
    &&& forall|i: int|
        0 <= i < entries.len() && #[trigger] entries[i].stable_key@ == e.stable_key@
            ==> e.source_kind.rank() <= entries[i].source_kind.rank()
}

/// Whether a rebuild keeps a usage record: while its key has an entry, or
/// until the key has been missed `GRACE_REBUILDS` times in a row.
pub open spec fn keeps(b: UsageRecord, present: bool) -> bool {
    present || b.missed_rebuilds + 1 < GRACE_REBUILDS
}

pub open spec fn carry_of(b: UsageRecord, a: UsageRecord, present: bool) -> bool {
    &&& a.stable_key@ == b.stable_key@
    &&& a.launch_count == b.launch_count
    &&& a.last_launched_at == b.last_launched_at
    &&& a.missed_rebuilds == if present { 0 } else { b.missed_rebuilds + 1 }
}

proof fn lemma_total_found_take(scans: Seq<ScanOutcome>, s: int)
    requires
        0 <= s < scans.len(),
    ensures
        total_found(scans.take(s + 1)) == total_found(scans.take(s)) + match scans[s] {
            ScanOutcome::Found(v) => v@.len(),
            ScanOutcome::Unavailable => 0,
        },
{
    assert(scans.take(s + 1).drop_last() =~= scans.take(s));
}

proof fn lemma_total_found_mono(scans: Seq<ScanOutcome>, s: int)
    requires
        0 <= s <= scans.len(),
    ensures
        total_found(scans.take(s)) <= total_found(scans),
    decreases scans.len() - s,
{
    if s < scans.len() {
        lemma_total_found_take(scans, s);
        lemma_total_found_mono(scans, s + 1);
    } else {
        assert(scans.take(s) =~= scans);
    }
}

/// Position of the entry with the given stable key, if any.
pub fn find_key(entries: &Vec<ProgramEntry>, key: &String) -> (r: Option<usize>)
    ensures
        match r {
            None => !has_key(entries@, key@),
            Some(p) => p < entries@.len() && entries@[p as int].stable_key@ == key@,
        },
{
    let mut i: usize = 0;
    while i < entries.len()
        invariant
            i <= entries@.len(),
            forall|k: int| 0 <= k < i ==> #[trigger] entries@[k].stable_key@ != key@,
        decreases entries.len() - i,
    {
        if entries[i].stable_key == *key {
            return Some(i);
        }
        i += 1;
    }
    None
}

/// Merges the scanners' outputs: one entry per stable key, taken from the
/// source of highest precedence (the first of them on a tie).
pub fn merge_scans(scans: &Vec<ScanOutcome>) -> (r: Vec<ProgramEntry>)
    ensures
        keys_unique(r@),
        r@.len() <= total_found(scans@),
        forall|i: int| 0 <= i < r@.len() ==> first_of_best(scans@, #[trigger] r@[i]),
        forall|s: int, k: int| #[trigger] found_at(scans@, s, k) is Some ==> covers(r@, found_at(scans@, s, k).unwrap()),
{
    let mut merged: Vec<ProgramEntry> = Vec::new();
    let mut s: usize = 0;
    while s < scans.len()
        invariant
            s <= scans@.len(),
            keys_unique(merged@),
            merged@.len() <= total_found(scans@.take(s as int)),
            forall|i: int| 0 <= i < merged@.len() ==> first_of_best(scans@, #[trigger] merged@[i]),
            forall|s2: int, k2: int|
                s2 < s && #[trigger] found_at(scans@, s2, k2) is Some ==> covers(merged@, found_at(scans@, s2, k2).unwrap()),
        decreases scans.len() - s,
    {
        proof {
            lemma_total_found_take(scans@, s as int);
        }
        match &scans[s] {
            ScanOutcome::Found(list) => {
                let mut k: usize = 0;
                while k < list.len()
                    invariant
                        s < scans@.len(),
                        scans@[s as int] == ScanOutcome::Found(*list),
                        k <= list@.len(),
                        keys_unique(merged@),
                        merged@.len() <= total_found(scans@.take(s as int)) + k,
                        forall|i: int| 0 <= i < merged@.len() ==> first_of_best(scans@, #[trigger] merged@[i]),
                        forall|s2: int, k2: int|
                            (s2 < s || (s2 == s && k2 < k)) && #[trigger] found_at(scans@, s2, k2) is Some ==> covers(merged@, found_at(scans@, s2, k2).unwrap()),
                    decreases list.len() - k,
                {
                    let e = &list[k];
                    assert(found_at(scans@, s as int, k as int) == Some(*e));
                    let ghost before = merged@;
                    match find_key(&merged, &e.stable_key) {
                        None => {
                            merged.push(e.with_id(e.id));
                            proof {
                                let n = before.len() as int;
                                assert(merged@[n].stable_key@ == e.stable_key@);
                                assert forall|s2: int, k2: int|
                                    earlier(s2, k2, s as int, k as int) && #[trigger] found_at(scans@, s2, k2) is Some && found_at(scans@, s2, k2).unwrap().stable_key@
                                        == e.stable_key@ implies found_at(scans@, s2, k2).unwrap().source_kind.rank() < e.source_kind.rank() by {
                                    assert(covers(before, found_at(scans@, s2, k2).unwrap()));
                                }
                                assert(first_of_best(scans@, merged@[n]));
                                assert forall|i: int, j: int|
                                    0 <= i < merged@.len() && 0 <= j < merged@.len() && i != j implies #[trigger] merged@[i].stable_key@
                                        != #[trigger] merged@[j].stable_key@ by {
                                    if i < n {
                                        assert(merged@[i] == before[i]);
                                        assert(before[i].stable_key@ != e.stable_key@);
                                    }
                                    if j < n {
                                        assert(merged@[j] == before[j]);
                                        assert(before[j].stable_key@ != e.stable_key@);
                                    }
                                }
                                assert forall|i: int| 0 <= i < merged@.len() implies first_of_best(scans@, #[trigger] merged@[i]) by {
                                    if i < n {
                                        assert(merged@[i] == before[i]);
                                    }
                                }
                                assert forall|s2: int, k2: int|
                                    (s2 < s || (s2 == s && k2 < k + 1)) && #[trigger] found_at(scans@, s2, k2) is Some implies covers(merged@, found_at(scans@, s2, k2).unwrap()) by {
                                    let f = found_at(scans@, s2, k2).unwrap();
                                    if s2 == s && k2 == k {
                                        assert(merged@[n].stable_key@ == f.stable_key@);
                                    } else {
                                        assert(covers(before, f));
                                        let w = choose|i: int| 0 <= i < before.len() && #[trigger] before[i].stable_key@ == f.stable_key@;
                                        assert(merged@[w] == before[w]);
                                    }
                                }
                            }
                        },
                        Some(p) => {
                            if e.source_kind.precedence() > merged[p].source_kind.precedence() {
                                merged.set(p, e.with_id(e.id));
                                proof {
                                    assert forall|s2: int, k2: int|
                                        earlier(s2, k2, s as int, k as int) && #[trigger] found_at(scans@, s2, k2) is Some && found_at(scans@, s2, k2).unwrap().stable_key@
                                            == e.stable_key@ implies found_at(scans@, s2, k2).unwrap().source_kind.rank() < e.source_kind.rank() by {
                                        assert(covers(before, found_at(scans@, s2, k2).unwrap()));
                                        assert(before[p as int].stable_key@ == e.stable_key@);
                                    }
                                    assert(first_of_best(scans@, merged@[p as int]));
                                    assert forall|i: int, j: int|
                                        0 <= i < merged@.len() && 0 <= j < merged@.len() && i != j implies #[trigger] merged@[i].stable_key@
                                            != #[trigger] merged@[j].stable_key@ by {
                                        if i != p {
                                            assert(merged@[i] == before[i]);
                                        }
                                        if j != p {
                                            assert(merged@[j] == before[j]);
                                        }
                                    }
                                    assert forall|i: int| 0 <= i < merged@.len() implies first_of_best(scans@, #[trigger] merged@[i]) by {
                                        if i != p {
                                            assert(merged@[i] == before[i]);
                                        }
                                    }
                                    assert forall|s2: int, k2: int|
                                        (s2 < s || (s2 == s && k2 < k + 1)) && #[trigger] found_at(scans@, s2, k2) is Some implies covers(merged@, found_at(scans@, s2, k2).unwrap()) by {
                                        let f = found_at(scans@, s2, k2).unwrap();
                                        if s2 == s && k2 == k {
                                            assert(merged@[p as int].stable_key@ == f.stable_key@);
                                        } else {
                                            assert(covers(before, f));
                                            let w = choose|i: int| 0 <= i < before.len() && #[trigger] before[i].stable_key@ == f.stable_key@;
                                            assert(merged@[w].stable_key@ == before[w].stable_key@);
                                        }
                                    }
                                }
                            } else {
                                proof {
                                    assert forall|s2: int, k2: int|
                                        (s2 < s || (s2 == s && k2 < k + 1)) && #[trigger] found_at(scans@, s2, k2) is Some implies covers(merged@, found_at(scans@, s2, k2).unwrap()) by {
                                        if s2 == s && k2 == k {
                                            assert(merged@[p as int].stable_key@ == e.stable_key@);
                                        }
                                    }
                                }
                            }
                        },
                    }
                    k += 1;
                }
            },
            ScanOutcome::Unavailable => {},
        }
        s += 1;
    }
    proof {
        assert(scans@.take(scans@.len() as int) =~= scans@);
    }
    merged
}

/// A launch count after one more launch; it stays at `u64::MAX` there.
pub open spec fn next_count(c: u64) -> u64 {
    if c == u64::MAX { c } else { (c + 1) as u64 }
}

/// The usage table `after` records a launch of `key` at `now` on `before`:
/// the key's count goes up by one, its last launch becomes `now`, and every
/// other key keeps its record.
pub open spec fn launch_recorded(before: Seq<UsageRecord>, after: Seq<UsageRecord>, key: Seq<char>, now: u64) -> bool {
    &&& usage_for(after, key) matches Some(u) && u.launch_count == next_count(launch_count_of(before, key))
        && u.last_launched_at == now && u.missed_rebuilds == 0
    &&& forall|k: Seq<char>| k != key ==> #[trigger] usage_for(after, k) == usage_for(before, k)
}

/// What a successful rebuild of `old` over `scans` publishes as `new`.
pub open spec fn rebuilt(old: IndexSnapshot, scans: Seq<ScanOutcome>, new: IndexSnapshot) -> bool {
    &&& new.wf()
    &&& new.version == old.version + 1
    &&& new.entries@.len() <= total_found(scans)
    &&& forall|i: int| 0 <= i < new.entries@.len() ==> first_of_best(scans, #[trigger] new.entries@[i])
    &&& forall|s: int, k: int| #[trigger] found_at(scans, s, k) is Some ==> covers(new.entries@, found_at(scans, s, k).unwrap())
    &&& forall|i: int, j: int|
        0 <= i < new.entries@.len() && 0 <= j < old.entries@.len() && #[trigger] old.entries@[j].stable_key@
            == #[trigger] new.entries@[i].stable_key@ ==> new.entries@[i].id == old.entries@[j].id
    &&& forall|i: int|
        0 <= i < new.entries@.len() && !has_key(old.entries@, #[trigger] new.entries@[i].stable_key@)
            ==> new.entries@[i].id >= old.next_id
    &&& old.next_id <= new.next_id
    &&& forall|key: Seq<char>|
        carried(#[trigger] usage_for(old.usage@, key), usage_for(new.usage@, key), has_key(new.entries@, key))
}

/// Why a rebuild published nothing.
#[derive(Clone, Copy, Debug, PartialEq, Eq, Structural)]
pub enum RebuildError {
    /// No scanner could read its source; the previous snapshot stays.
    AllSourcesFailed,
    /// The version counter or the id counter would pass `u64::MAX`.
    CounterExhausted,
}

/// Why a launch did not happen.
#[derive(Clone, Copy, Debug, PartialEq, Eq, Structural)]
pub enum LaunchError {
    /// The id has no entry in the current snapshot; query again.
    NotFound,
    /// The process could not be started; usage was not recorded.
    LaunchFailed,
}

/// What a successful launch reports.
#[derive(Clone, Copy, Debug, PartialEq, Eq, Structural)]
pub struct LaunchHandle {
    pub id: u64,
    /// The entry's launch count, this launch included.
    pub launch_count: u64,
}

/// A point-in-time view of the index: entries by id, usage by stable key,
/// and a version that each rebuild increments.
#[derive(Clone, Debug)]
pub struct IndexSnapshot {
    pub version: u64,
    /// Every id handed out so far is below this.
    pub next_id: u64,
    pub entries: Vec<ProgramEntry>,
    pub usage: Vec<UsageRecord>,
}

impl IndexSnapshot {
    pub open spec fn wf(&self) -> bool {
        &&& keys_unique(self.entries@)
        &&& ids_unique(self.entries@)
        &&& usage_keys_unique(self.usage@)
        &&& forall|i: int| 0 <= i < self.entries@.len() ==> #[trigger] self.entries@[i].id < self.next_id
    }

    /// An empty index at version zero.
    pub fn new() -> (r: IndexSnapshot)
        ensures
            r.wf(),
            r.version == 0,
            r.next_id == 0,
            r.entries@.len() == 0,
            r.usage@.len() == 0,
    {
        IndexSnapshot { version: 0, next_id: 0, entries: Vec::new(), usage: Vec::new() }
    }

    pub fn get_index_version(&self) -> (r: u64)
        ensures
            r == self.version,
    {
        self.version
    }

    fn position_of_id(&self, id: u64) -> (r: Option<usize>)
        requires
            self.wf(),
        ensures
            match r {
                None => !has_id(self.entries@, id),
                Some(i) => i < self.entries@.len() && self.entries@[i as int].id == id
                    && entry_with_id(self.entries@, id) == Some(self.entries@[i as int]),
            },
    {
        let mut i: usize = 0;
        while i < self.entries.len()
            invariant
                self.wf(),
                i <= self.entries@.len(),
                forall|k: int| 0 <= k < i ==> #[trigger] self.entries@[k].id != id,
            decreases self.entries.len() - i,
        {
            if self.entries[i].id == id {
                proof {
                    lemma_entry_with_id_at(self.entries@, i as int);
                }
                return Some(i);
            }
            i += 1;
        }
        None
    }

    fn position_of_usage(&self, key: &String) -> (r: Option<usize>)
        requires
            self.wf(),
        ensures
            match r {
                None => usage_for(self.usage@, key@) is None,
                Some(i) => i < self.usage@.len() && usage_for(self.usage@, key@) == Some(
                    self.usage@[i as int],
                ),
            },
    {
        let mut i: usize = 0;
        while i < self.usage.len()
            invariant
                self.wf(),
                i <= self.usage@.len(),
                forall|k: int| 0 <= k < i ==> #[trigger] self.usage@[k].stable_key@ != key@,
            decreases self.usage.len() - i,
        {
            if self.usage[i].stable_key == *key {
                proof {
                    lemma_usage_for_at(self.usage@, i as int);
                }
                return Some(i);
            }
            i += 1;
        }
        None
    }

    /// Whether the counters leave room for a rebuild over these scans.
    fn counters_fit(&self, scans: &Vec<ScanOutcome>) -> (r: bool)
        ensures
            r == (self.version < u64::MAX && self.next_id + total_found(scans@) <= u64::MAX),
    {
        if self.version == u64::MAX {
            return false;
        }
        let room: u64 = u64::MAX - self.next_id;
        let mut total: u64 = 0;
        let mut s: usize = 0;
        while s < scans.len()
            invariant
                s <= scans@.len(),
                room == u64::MAX - self.next_id,
                total == total_found(scans@.take(s as int)),
                total <= room,
            decreases scans.len() - s,
        {
            proof {
                lemma_total_found_take(scans@, s as int);
            }
            let n: usize = match &scans[s] {
                ScanOutcome::Found(v) => v.len(),
                ScanOutcome::Unavailable => 0,
            };
            if n as u64 > room - total {
                proof {
                    lemma_total_found_mono(scans@, s as int + 1);
                }
                return false;
            }
            total = total + n as u64;
            s += 1;
        }
        proof {
            assert(scans@.take(scans@.len() as int) =~= scans@);
        }
        true
    }

    /// Gives each merged entry the id its stable key had in this snapshot,
    /// or a fresh one.
    fn assign_ids(&self, merged: &Vec<ProgramEntry>) -> (r: (Vec<ProgramEntry>, u64))
        requires
            self.wf(),
            keys_unique(merged@),
            self.next_id + merged@.len() <= u64::MAX,
        ensures
            r.0@.len() == merged@.len(),
            keys_unique(r.0@),
            ids_unique(r.0@),
            self.next_id <= r.1,
            forall|i: int| 0 <= i < r.0@.len() ==> #[trigger] r.0@[i].id < r.1,
            forall|i: int| 0 <= i < r.0@.len() ==> same_except_id(#[trigger] r.0@[i], merged@[i]),
            forall|i: int, j: int|
                0 <= i < r.0@.len() && 0 <= j < self.entries@.len() && #[trigger] self.entries@[j].stable_key@
                    == #[trigger] r.0@[i].stable_key@ ==> r.0@[i].id == self.entries@[j].id,
            forall|i: int|
                0 <= i < r.0@.len() && !has_key(self.entries@, #[trigger] r.0@[i].stable_key@) ==> r.0@[i].id
                    >= self.next_id,
    {
        let mut next: u64 = self.next_id;
        let mut out: Vec<ProgramEntry> = Vec::new();
        let mut i: usize = 0;
        while i < merged.len()
            invariant
                self.wf(),
                keys_unique(merged@),
                self.next_id + merged@.len() <= u64::MAX,
                i <= merged@.len(),
                out@.len() == i,
                self.next_id <= next <= self.next_id + i,
                forall|t: int| 0 <= t < i ==> same_except_id(#[trigger] out@[t], merged@[t]),
                forall|t: int| 0 <= t < i ==> #[trigger] out@[t].id < next,
                forall|t: int, j: int|
                    0 <= t < i && 0 <= j < self.entries@.len() && #[trigger] self.entries@[j].stable_key@
                        == #[trigger] out@[t].stable_key@ ==> out@[t].id == self.entries@[j].id,
                forall|t: int|
                    0 <= t < i && !has_key(self.entries@, #[trigger] out@[t].stable_key@) ==> out@[t].id
                        >= self.next_id,
                forall|t: int|
                    0 <= t < i && has_key(self.entries@, #[trigger] out@[t].stable_key@) ==> out@[t].id
                        < self.next_id,
                ids_unique(out@),
            decreases merged.len() - i,
        {
            let m = &merged[i];
            let ghost before = out@;
            let ghost mut hit: int = -1;
            let id = match find_key(&self.entries, &m.stable_key) {
                Some(j) => {
                    proof {
                        hit = j as int;
                    }
                    self.entries[j].id
                },
                None => {
                    let f = next;
                    next = next + 1;
                    f
                },
            };
            assert(hit >= 0 ==> 0 <= hit < self.entries@.len() && self.entries@[hit].stable_key@
                == m.stable_key@ && id == self.entries@[hit].id);
            assert(hit < 0 ==> !has_key(self.entries@, m.stable_key@) && id >= self.next_id);
            out.push(m.with_id(id));
            proof {
                let n = i as int;
                assert(out@[n].id == id);
                assert forall|t: int| 0 <= t < n + 1 && !has_key(self.entries@, #[trigger] out@[t].stable_key@) implies out@[t].id >= self.next_id by {
                    if t == n {
                        if hit >= 0 {
                            assert(self.entries@[hit].stable_key@ == out@[t].stable_key@);
                        }
                    } else {
                        assert(out@[t] == before[t]);
                        assert(!has_key(self.entries@, before[t].stable_key@));
                    }
                }
                assert(out@[n].stable_key@ == merged@[n].stable_key@);
                assert forall|t: int| 0 <= t < n implies #[trigger] out@[t] == before[t] by {}
                assert forall|t: int, j: int|
                    0 <= t < n + 1 && 0 <= j < self.entries@.len() && #[trigger] self.entries@[j].stable_key@
                        == #[trigger] out@[t].stable_key@ implies out@[t].id == self.entries@[j].id by {
                    if t == n {
                        assert(has_key(self.entries@, out@[t].stable_key@));
                        assert(hit >= 0);
                        assert(j == hit);
                    } else {
                        assert(out@[t] == before[t]);
                    }
                }
                assert forall|t: int| 0 <= t < n + 1 && has_key(self.entries@, #[trigger] out@[t].stable_key@) implies out@[t].id < self.next_id by {
                    if t == n {
                        assert(hit >= 0);
                    }
                }
                assert forall|t: int| 0 <= t < n implies out@[t].stable_key@ != out@[n].stable_key@ by {
                    assert(out@[t].stable_key@ == merged@[t].stable_key@);
                }
                assert forall|a: int, b: int|
                    0 <= a < out@.len() && 0 <= b < out@.len() && a != b implies #[trigger] out@[a].id != #[trigger] out@[b].id by {
                    if a < n && b < n {
                    } else {
                        let o = if a == n { b } else { a };
                        assert(out@[o] == before[o]);
                        if has_key(self.entries@, out@[n].stable_key@) {
                            if has_key(self.entries@, out@[o].stable_key@) {
                                let jn = choose|j: int| 0 <= j < self.entries@.len() && #[trigger] self.entries@[j].stable_key@ == out@[n].stable_key@;
                                let jo = choose|j: int| 0 <= j < self.entries@.len() && #[trigger] self.entries@[j].stable_key@ == out@[o].stable_key@;
                                assert(out@[o].id == self.entries@[jo].id);
                                assert(jn != jo);
                            }
                        }
                    }
                }
            }
            i += 1;
        }
        proof {
            assert forall|a: int, b: int|
                0 <= a < out@.len() && 0 <= b < out@.len() && a != b implies #[trigger] out@[a].stable_key@
                    != #[trigger] out@[b].stable_key@ by {
                assert(out@[a].stable_key@ == merged@[a].stable_key@);
                assert(out@[b].stable_key@ == merged@[b].stable_key@);
            }
        }
        (out, next)
    }

    /// Carries the usage table forward to a snapshot holding `entries`.
    fn carry_usage(&self, entries: &Vec<ProgramEntry>) -> (r: Vec<UsageRecord>)
        requires
            self.wf(),
        ensures
            usage_keys_unique(r@),
            forall|key: Seq<char>|
                carried(
                    #[trigger] usage_for(self.usage@, key),
                    usage_for(r@, key),
                    has_key(entries@, key),
                ),
    {
        let mut out: Vec<UsageRecord> = Vec::new();
        let ghost mut src: Seq<int> = Seq::empty();
        let mut i: usize = 0;
        while i < self.usage.len()
            invariant
                self.wf(),
                i <= self.usage@.len(),
                src.len() == out@.len(),
                forall|t: int| 0 <= t < out@.len() ==> 0 <= #[trigger] src[t] < i,
                forall|t: int|
                    0 <= t < out@.len() ==> carry_of(
                        self.usage@[src[t]],
                        #[trigger] out@[t],
                        has_key(entries@, self.usage@[src[t]].stable_key@),
                    ) && keeps(self.usage@[src[t]], has_key(entries@, self.usage@[src[t]].stable_key@)),
                forall|j: int|
                    0 <= j < i && keeps(#[trigger] self.usage@[j], has_key(entries@, self.usage@[j].stable_key@))
                        ==> exists|t: int| 0 <= t < out@.len() && src[t] == j,
                forall|a: int, b: int| 0 <= a < out@.len() && 0 <= b < out@.len() && a != b ==> #[trigger] src[a] != #[trigger] src[b],
            decreases self.usage.len() - i,
        {
            let rec = &self.usage[i];
            let present = find_key(entries, &rec.stable_key).is_some();
            if present || rec.missed_rebuilds < GRACE_REBUILDS - 1 {
                let missed: u8 = if present { 0 } else { rec.missed_rebuilds + 1 };
                let ghost before = out@;
                let ghost src0 = src;
                out.push(UsageRecord {
                    stable_key: rec.stable_key.clone(),
                    launch_count: rec.launch_count,
                    last_launched_at: rec.last_launched_at,
                    missed_rebuilds: missed,
                });
                proof {
                    src = src.push(i as int);
                    assert forall|t: int| 0 <= t < before.len() implies #[trigger] out@[t] == before[t] && src[t] == src0[t] by {}
                    assert forall|j: int|
                        0 <= j < i + 1 && keeps(#[trigger] self.usage@[j], has_key(entries@, self.usage@[j].stable_key@))
                            implies exists|t: int| 0 <= t < out@.len() && src[t] == j by {
                        if j == i {
                            assert(src[before.len() as int] == j);
                        } else {
                            let t = choose|t: int| 0 <= t < before.len() && src0[t] == j;
                            assert(src[t] == j);
                        }
                    }
                }
            }
            i += 1;
        }
        proof {
            assert(usage_keys_unique(out@)) by {
                assert forall|a: int, b: int|
                    0 <= a < out@.len() && 0 <= b < out@.len() && a != b implies #[trigger] out@[a].stable_key@
                        != #[trigger] out@[b].stable_key@ by {
                    assert(src[a] != src[b]);
                    assert(out@[a].stable_key@ == self.usage@[src[a]].stable_key@);
                    assert(out@[b].stable_key@ == self.usage@[src[b]].stable_key@);
                }
            }
            assert forall|key: Seq<char>|
                carried(#[trigger] usage_for(self.usage@, key), usage_for(out@, key), has_key(entries@, key)) by {
                if exists|j: int| 0 <= j < self.usage@.len() && #[trigger] self.usage@[j].stable_key@ == key {
                    let j = choose|j: int| 0 <= j < self.usage@.len() && #[trigger] self.usage@[j].stable_key@ == key;
                    lemma_usage_for_at(self.usage@, j);
                    if keeps(self.usage@[j], has_key(entries@, key)) {
                        let t = choose|t: int| 0 <= t < out@.len() && src[t] == j;
                        assert(carry_of(self.usage@[src[t]], out@[t], has_key(entries@, self.usage@[src[t]].stable_key@)));
                        lemma_usage_for_at(out@, t);
                    } else {
                        assert forall|t: int| 0 <= t < out@.len() implies #[trigger] out@[t].stable_key@ != key by {
                            assert(carry_of(self.usage@[src[t]], out@[t], has_key(entries@, self.usage@[src[t]].stable_key@)));
                            if out@[t].stable_key@ == key {
                                assert(self.usage@[src[t]].stable_key@ == self.usage@[j].stable_key@);
                                assert(src[t] == j);
                            }
                        }
                    }
                } else {
                    assert forall|t: int| 0 <= t < out@.len() implies #[trigger] out@[t].stable_key@ != key by {
                        assert(carry_of(self.usage@[src[t]], out@[t], has_key(entries@, self.usage@[src[t]].stable_key@)));
                        assert(self.usage@[src[t]].stable_key@ == out@[t].stable_key@);
                    }
                }
            }
        }
        out
    }

    /// Builds the next snapshot from the scanners' outcomes. This snapshot is
    /// left as it is; on an error it stays the one to serve.
    pub fn rebuild(&self, scans: &Vec<ScanOutcome>) -> (r: Result<IndexSnapshot, RebuildError>)
        requires
            self.wf(),
        ensures
            !any_found(scans@) ==> r == Err::<IndexSnapshot, RebuildError>(RebuildError::AllSourcesFailed),
            any_found(scans@) && !(self.version < u64::MAX && self.next_id + total_found(scans@) <= u64::MAX)
                ==> r == Err::<IndexSnapshot, RebuildError>(RebuildError::CounterExhausted),
            any_found(scans@) && self.version < u64::MAX && self.next_id + total_found(scans@) <= u64::MAX
                ==> (r matches Ok(n) && rebuilt(*self, scans@, n)),
    {
        let mut s: usize = 0;
        let mut found = false;
        while s < scans.len() && !found
            invariant
                s <= scans@.len(),
                found ==> any_found(scans@),
                !found ==> forall|t: int| 0 <= t < s ==> !(#[trigger] scans@[t] is Found),
            decreases scans.len() - s,
        {
            if let ScanOutcome::Found(_) = &scans[s] {
                found = true;
            }
            s += 1;
        }
        if !found {
            return Err(RebuildError::AllSourcesFailed);
        }
        if !self.counters_fit(scans) {
            return Err(RebuildError::CounterExhausted);
        }
        let merged = merge_scans(scans);
        let (entries, next_id) = self.assign_ids(&merged);
        let usage = self.carry_usage(&entries);
        let n = IndexSnapshot { version: self.version + 1, next_id, entries, usage };
        proof {
            assert forall|i: int| 0 <= i < n.entries@.len() implies first_of_best(scans@, #[trigger] n.entries@[i]) by {
                assert(first_of_best(scans@, merged@[i]));
                let (s2, k2) = choose|s2: int, k2: int|
                    #[trigger] found_at(scans@, s2, k2) is Some && same_except_id(merged@[i], found_at(scans@, s2, k2).unwrap()) && forall|s3: int, k3: int|
                        earlier(s3, k3, s2, k2) && #[trigger] found_at(scans@, s3, k3) is Some && found_at(scans@, s3, k3).unwrap().stable_key@
                            == merged@[i].stable_key@ ==> found_at(scans@, s3, k3).unwrap().source_kind.rank() < merged@[i].source_kind.rank();
                assert(same_except_id(n.entries@[i], found_at(scans@, s2, k2).unwrap()));
            }
            assert forall|s2: int, k2: int| #[trigger] found_at(scans@, s2, k2) is Some implies covers(n.entries@, found_at(scans@, s2, k2).unwrap()) by {
                let f = found_at(scans@, s2, k2).unwrap();
                assert(covers(merged@, f));
                let w = choose|i: int| 0 <= i < merged@.len() && #[trigger] merged@[i].stable_key@ == f.stable_key@;
                assert(n.entries@[w].stable_key@ == f.stable_key@);
                assert forall|i: int| 0 <= i < n.entries@.len() && #[trigger] n.entries@[i].stable_key@ == f.stable_key@
                    implies f.source_kind.rank() <= n.entries@[i].source_kind.rank() by {
                    assert(merged@[i].stable_key@ == f.stable_key@);
                }
            }
        }
        Ok(n)
    }

    /// The launch count recorded for a stable key.
    pub fn launch_count(&self, key: &String) -> (r: u64)
        requires
            self.wf(),
        ensures
            r == launch_count_of(self.usage@, key@),
    {
        match self.position_of_usage(key) {
            Some(i) => self.usage[i].launch_count,
            None => 0,
        }
    }

    /// The last launch time recorded for a stable key.
    pub fn last_launched_at(&self, key: &String) -> (r: u64)
        requires
            self.wf(),
        ensures
            r == last_launch_of(self.usage@, key@),
    {
        match self.position_of_usage(key) {
            Some(i) => self.usage[i].last_launched_at,
            None => 0,
        }
    }

    /// The launch target of entry `id` in this snapshot.
    pub fn launch_target(&self, id: u64) -> (r: Result<String, LaunchError>)
        requires
            self.wf(),
        ensures
            match entry_with_id(self.entries@, id) {
                None => r == Err::<String, LaunchError>(LaunchError::NotFound),
                Some(e) => r matches Ok(t) && t@ == e.launch_target@,
            },
    {
        match self.position_of_id(id) {
            None => Err(LaunchError::NotFound),
            Some(i) => Ok(self.entries[i].launch_target.clone()),
        }
    }

    /// Records the launch of entry `id`, given whether starting its target
    /// succeeded and the time `now`: the key's count goes up by one (it stays
    /// at `u64::MAX` there) and its last launch time becomes `now`.
    pub fn launch(&mut self, id: u64, started: bool, now: u64) -> (r: Result<LaunchHandle, LaunchError>)
        requires
            old(self).wf(),
        ensures
            final(self).wf(),
            final(self).version == old(self).version,
            final(self).next_id == old(self).next_id,
            final(self).entries@ == old(self).entries@,
            match entry_with_id(old(self).entries@, id) {
                None => r == Err::<LaunchHandle, LaunchError>(LaunchError::NotFound) && final(self).usage@ == old(self).usage@,
                Some(e) => if !started {
                    r == Err::<LaunchHandle, LaunchError>(LaunchError::LaunchFailed) && final(self).usage@ == old(self).usage@
                } else {
                    &&& r == Ok::<LaunchHandle, LaunchError>(
                        LaunchHandle { id, launch_count: next_count(launch_count_of(old(self).usage@, e.stable_key@)) },
                    )
                    &&& launch_recorded(old(self).usage@, final(self).usage@, e.stable_key@, now)
                },
            },
    {
        let pos = match self.position_of_id(id) {
            None => {
                return Err(LaunchError::NotFound);
            },
            Some(i) => i,
        };
        if !started {
            return Err(LaunchError::LaunchFailed);
        }
        let key = self.entries[pos].stable_key.clone();
        let ghost old_usage = self.usage@;
        match self.position_of_usage(&key) {
            Some(u) => {
                let count = self.usage[u].launch_count;
                let next = if count == u64::MAX { count } else { count + 1 };
                let rec = UsageRecord {
                    stable_key: self.usage[u].stable_key.clone(),
                    launch_count: next,
                    last_launched_at: now,
                    missed_rebuilds: 0,
                };
                self.usage.set(u, rec);
                proof {
                    assert(usage_keys_unique(self.usage@));
                    lemma_usage_for_at(self.usage@, u as int);
                    assert forall|k: Seq<char>| k != key@ implies #[trigger] usage_for(self.usage@, k)
                        == usage_for(old_usage, k) by {
                        if exists|i: int| 0 <= i < old_usage.len() && #[trigger] old_usage[i].stable_key@ == k {
                            let i = choose|i: int| 0 <= i < old_usage.len() && #[trigger] old_usage[i].stable_key@ == k;
                            lemma_usage_for_at(old_usage, i);
                            lemma_usage_for_at(self.usage@, i);
                        } else {
                            assert forall|i: int| 0 <= i < self.usage@.len() implies #[trigger] self.usage@[i].stable_key@ != k by {
                                if i != u {
                                    assert(self.usage@[i] == old_usage[i]);
                                }
                            }
                        }
                    }
                }
                Ok(LaunchHandle { id, launch_count: next })
            },
            None => {
                let rec = UsageRecord {
                    stable_key: key.clone(),
                    launch_count: 1,
                    last_launched_at: now,
                    missed_rebuilds: 0,
                };
                self.usage.push(rec);
                proof {
                    assert(self.usage@[old_usage.len() as int].stable_key@ == key@);
                    assert(usage_keys_unique(self.usage@)) by {
                        assert forall|i: int| 0 <= i < old_usage.len() implies #[trigger] old_usage[i].stable_key@ != key@ by {
                            if old_usage[i].stable_key@ == key@ {
                                assert(usage_for(old_usage, key@) is Some);
                            }
                        }
                    }
                    lemma_usage_for_at(self.usage@, old_usage.len() as int);
                    assert forall|k: Seq<char>| k != key@ implies #[trigger] usage_for(self.usage@, k)
                        == usage_for(old_usage, k) by {
                        if exists|i: int| 0 <= i < old_usage.len() && #[trigger] old_usage[i].stable_key@ == k {
                            let i = choose|i: int| 0 <= i < old_usage.len() && #[trigger] old_usage[i].stable_key@ == k;
                            lemma_usage_for_at(old_usage, i);
                            lemma_usage_for_at(self.usage@, i);
                        } else {
                            assert forall|i: int| 0 <= i < self.usage@.len() implies #[trigger] self.usage@[i].stable_key@ != k by {
                                if i < old_usage.len() {
                                    assert(self.usage@[i] == old_usage[i]);
                                }
                            }
                        }
                    }
                }
                Ok(LaunchHandle { id, launch_count: 1 })
            },
        }
    }
}

} // verus!
