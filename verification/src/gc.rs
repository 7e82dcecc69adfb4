//! Garbage collection of the store.
//!
//! A build directory is kept only when a snapshot still refers to its hash and
//! the build is complete; an input cache directory `{name}-{hash}` is kept only
//! when a snapshot refers to its hash. Everything else is deleted (or, in a dry
//! run, only counted).
use vstd::prelude::*;
use crate::strmap::{StrMap, StrSet};
use crate::text::{last_index_of, find_last_char, char_len, char_substring};

verus! {

/// Errors of garbage collection.
#[derive(Debug)]
pub enum GcError {
    /// Snapshots could not be listed.
    ListSnapshots(String),
    /// A snapshot could not be loaded.
    LoadSnapshot { id: String, message: String },
    /// A store directory could not be read.
    ReadStore(String),
    /// A path could not be deleted.
    Delete { path: String, message: String },
}

/// Counts of one garbage collection.
#[derive(Debug, Clone, Copy, PartialEq, Eq)]
pub struct GcStats {
    pub builds_scanned: usize,
    pub builds_deleted: usize,
    pub builds_bytes_freed: u64,
    pub inputs_scanned: usize,
    pub inputs_deleted: usize,
    pub inputs_bytes_freed: u64,
}

impl GcStats {
    /// All counts zero.
    pub fn new() -> (s: Self)
        ensures
            s == (GcStats {
                builds_scanned: 0,
                builds_deleted: 0,
                builds_bytes_freed: 0,
                inputs_scanned: 0,
                inputs_deleted: 0,
                inputs_bytes_freed: 0,
            }),
    {
        GcStats {
            builds_scanned: 0,
            builds_deleted: 0,
            builds_bytes_freed: 0,
            inputs_scanned: 0,
            inputs_deleted: 0,
            inputs_bytes_freed: 0,
        }
    }

    /// Builds and inputs deleted.
    pub fn total_deleted(&self) -> (n: usize)
        requires
            self.builds_deleted + self.inputs_deleted <= usize::MAX,
        ensures
            n == self.builds_deleted + self.inputs_deleted,
    {
        self.builds_deleted + self.inputs_deleted
    }

    /// Bytes freed by builds and inputs.
    pub fn total_bytes_freed(&self) -> (n: u64)
        requires
            self.builds_bytes_freed + self.inputs_bytes_freed <= u64::MAX,
        ensures
            n == self.builds_bytes_freed + self.inputs_bytes_freed,
    {
        self.builds_bytes_freed + self.inputs_bytes_freed
    }
}

/// The result of a garbage collection.
#[derive(Debug, Clone)]
pub struct GcResult {
    /// The counts.
    pub stats: GcStats,
    /// The deleted (or, in a dry run, deletable) paths, builds first.
    pub deleted_paths: Vec<String>,
}

/// The build and bind hashes one snapshot's manifest holds.
pub struct SnapshotHashes {
    pub builds: Vec<String>,
    pub bindings: Vec<String>,
}

/// The strings of a list, as a set.
pub open spec fn strings_set(v: Seq<String>) -> Set<Seq<char>> {
    v.map_values(|s: String| s@).to_set()
}

/// The hashes that snapshots refer to; a snapshot that could not be loaded
/// (`None`) refers to none.
pub open spec fn live_set(snaps: Seq<Option<SnapshotHashes>>) -> Set<Seq<char>>
    decreases snaps.len(),
{
    if snaps.len() == 0 {
        Set::empty()
    } else {
        live_set(snaps.drop_last()) + match snaps.last() {
            Some(h) => strings_set(h.builds@) + strings_set(h.bindings@),
            None => Set::empty(),
        }
    }
}

/// Adds each string of a list to a set.
fn insert_all(set: &mut StrSet, v: &Vec<String>)
    requires
        old(set).wf(),
    ensures
        final(set).wf(),
        final(set)@.dom() == old(set)@.dom() + strings_set(v@),
{
    let ghost start = set@.dom();
    let mut i: usize = 0;
    proof {
        assert(strings_set(v@.take(0)) =~= Set::<Seq<char>>::empty());
        assert(start + strings_set(v@.take(0)) =~= start);
    }
    while i < v.len()
        invariant
            i <= v@.len(),
            set.wf(),
            set@.dom() == start + strings_set(v@.take(i as int)),
        decreases v@.len() - i,
    {
        set.insert(v[i].clone(), ());
        proof {
            let a = v@.take(i as int).map_values(|s: String| s@);
            let b = v@.take(i + 1).map_values(|s: String| s@);
            assert(b =~= a.push(v@[i as int]@));
            assert(b.to_set() =~= a.to_set().insert(v@[i as int]@)) by {
                assert forall|x: Seq<char>| b.to_set().contains(x) <==> a.to_set().insert(v@[i as int]@).contains(x) by {
                    if b.contains(x) {
                        let k = choose|k: int| 0 <= k < b.len() && b[k] == x;
                        if k < a.len() {
                            assert(a[k] == x);
                        }
                    }
                    if a.contains(x) {
                        let k = choose|k: int| 0 <= k < a.len() && a[k] == x;
                        assert(b[k] == x);
                    }
                    if x == v@[i as int]@ {
                        assert(b[i as int] == x);
                    }
                }
            }
            assert(set@.dom() =~= start + strings_set(v@.take(i + 1)));
        }
        i = i + 1;
    }
    proof {
        assert(v@.take(i as int) =~= v@);
    }
}

/// The hashes that snapshots refer to, from the listing of the snapshot
/// store: an error where the listing failed; else the build and bind hashes
/// of every snapshot that could be loaded.
pub fn collect_live_hashes(listed: Result<Vec<Option<SnapshotHashes>>, String>) -> (r: Result<StrSet, GcError>)
    ensures
        match listed {
            Err(e) => r matches Err(GcError::ListSnapshots(m)) && m@ == e@,
            Ok(snaps) => r matches Ok(set) && set.wf() && set@.dom() == live_set(snaps@),
        },
{
    let snaps = match listed {
        Err(e) => return Err(GcError::ListSnapshots(e)),
        Ok(s) => s,
    };
    let mut live: StrSet = StrMap::new();
    let mut i: usize = 0;
    proof {
        assert(snaps@.take(0) =~= Seq::<Option<SnapshotHashes>>::empty());
        assert(live@.dom() =~= live_set(snaps@.take(0)));
    }
    while i < snaps.len()
        invariant
            i <= snaps@.len(),
            live.wf(),
            live@.dom() == live_set(snaps@.take(i as int)),
        decreases snaps@.len() - i,
    {
        proof {
            assert(snaps@.take(i + 1).drop_last() =~= snaps@.take(i as int));
        }
        match &snaps[i] {
            Some(h) => {
                insert_all(&mut live, &h.builds);
                insert_all(&mut live, &h.bindings);
                proof {
                    assert(live@.dom() =~= live_set(snaps@.take(i + 1)));
                }
            },
            None => {
                proof {
                    assert(live@.dom() =~= live_set(snaps@.take(i + 1)));
                }
            },
        }
        i = i + 1;
    }
    proof {
        assert(snaps@.take(i as int) =~= snaps@);
    }
    Ok(live)
}

/// The hash part of an input cache directory name: what follows the last `-`,
/// or the whole name when there is none.
pub open spec fn cache_name_hash(name: Seq<char>) -> Seq<char> {
    let i = last_index_of(name, '-');
    if i < 0 {
        name
    } else {
        name.subrange(i + 1, name.len() as int)
    }
}

/// Extracts the hash part of an input cache directory name.
pub fn extract_hash_from_cache_name(name: &str) -> (r: String)
    ensures
        r@ == cache_name_hash(name@),
{
    proof {
        crate::text::lemma_last_index_of(name@, '-');
    }
    let n = char_len(name);
    match find_last_char(name, '-') {
        Some(pos) => char_substring(name, pos + 1, n),
        None => name.to_owned(),
    }
}

/// A directory found in the store.
#[derive(Debug, Clone)]
pub struct StoreEntry {
    /// The directory name, when it is valid UTF-8 (other entries are counted, never deleted).
    pub name: Option<String>,
    /// The directory's path.
    pub path: String,
    /// Whether the directory holds a completion marker (builds only).
    pub complete: bool,
    /// Total size of the files under the directory, in bytes.
    pub size: u64,
}

/// A build directory is garbage unless a snapshot refers to it and it is complete.
pub open spec fn build_is_garbage(e: StoreEntry, live: Set<Seq<char>>) -> bool {
    e.name matches Some(n) && !(live.contains(n@) && e.complete)
}

/// An input cache directory is garbage unless a snapshot refers to its hash.
pub open spec fn input_is_garbage(e: StoreEntry, live: Set<Seq<char>>) -> bool {
    e.name matches Some(n) && !live.contains(cache_name_hash(n@))
}

/// Whether an entry is garbage, as a build directory or as an input cache directory.
pub open spec fn is_garbage(e: StoreEntry, live: Set<Seq<char>>, is_build: bool) -> bool {
    if is_build {
        build_is_garbage(e, live)
    } else {
        input_is_garbage(e, live)
    }
}

/// Decides whether one store entry is garbage.
pub fn entry_is_garbage(e: &StoreEntry, live: &StrSet, is_build: bool) -> (b: bool)
    requires
        live.wf(),
    ensures
        b == is_garbage(*e, live@.dom(), is_build),
{
    match &e.name {
        None => false,
        Some(n) => {
            if is_build {
                !(live.contains_key(n.as_str()) && e.complete)
            } else {
                let h = extract_hash_from_cache_name(n.as_str());
                !live.contains_key(h.as_str())
            }
        },
    }
}

/// The positions of the garbage entries, in order.
pub open spec fn garbage_positions(entries: Seq<StoreEntry>, live: Set<Seq<char>>, is_build: bool) -> Seq<int>
    decreases entries.len(),
{
    if entries.len() == 0 {
        Seq::empty()
    } else {
        let rest = garbage_positions(entries.drop_last(), live, is_build);
        if is_garbage(entries.last(), live, is_build) {
            rest.push(entries.len() - 1)
        } else {
            rest
        }
    }
}

/// Lists the positions of the garbage entries of one store directory, in order.
pub fn find_garbage(entries: &Vec<StoreEntry>, live: &StrSet, is_build: bool) -> (r: Vec<usize>)
    requires
        live.wf(),
    ensures
        r@.map_values(|i: usize| i as int) == garbage_positions(entries@, live@.dom(), is_build),
{
    let mut r: Vec<usize> = Vec::new();
    let mut i: usize = 0;
    while i < entries.len()
        invariant
            live.wf(),
            i <= entries@.len(),
            r@.map_values(|k: usize| k as int) == garbage_positions(entries@.take(i as int), live@.dom(), is_build),
        decreases entries@.len() - i,
    {
        proof {
            assert(entries@.take(i + 1).drop_last() =~= entries@.take(i as int));
        }
        if entry_is_garbage(&entries[i], live, is_build) {
            r.push(i);
            proof {
                assert(r@.map_values(|k: usize| k as int) =~= garbage_positions(entries@.take(i as int), live@.dom(), is_build).push(i as int));
            }
        }
        i = i + 1;
    }
    proof {
        assert(entries@.take(entries@.len() as int) =~= entries@);
    }
    r
}

/// The garbage entries that end up deleted: all of them in a dry run, else
/// those whose removal succeeded (`removed` holds one outcome per garbage entry).
pub open spec fn deleted_entries(entries: Seq<StoreEntry>, victims: Seq<int>, removed: Seq<bool>, dry_run: bool) -> Seq<StoreEntry>
    decreases victims.len(),
{
    if victims.len() == 0 {
        Seq::empty()
    } else {
        let rest = deleted_entries(entries, victims.drop_last(), removed.drop_last(), dry_run);
        if dry_run || removed.last() {
            rest.push(entries[victims.last()])
        } else {
            rest
        }
    }
}

/// The total size of some entries.
pub open spec fn total_size(es: Seq<StoreEntry>) -> nat
    decreases es.len(),
{
    if es.len() == 0 {
        0
    } else {
        total_size(es.drop_last()) + es.last().size as nat
    }
}

/// Tallies one store directory: the deleted entries' paths and count, and the bytes freed.
fn tally(entries: &Vec<StoreEntry>, victims: &Vec<usize>, removed: &Vec<bool>, dry_run: bool, paths: &mut Vec<String>) -> (r: (usize, u64))
    requires
        forall|k: int| 0 <= k < victims@.len() ==> victims@[k] < entries@.len(),
        dry_run || removed@.len() == victims@.len(),
        total_size(deleted_entries(entries@, victims@.map_values(|i: usize| i as int), if dry_run { victims@.map_values(|i: usize| true) } else { removed@ }, dry_run)) <= u64::MAX,
    ensures
        ({
            let d = deleted_entries(entries@, victims@.map_values(|i: usize| i as int), if dry_run { victims@.map_values(|i: usize| true) } else { removed@ }, dry_run);
            &&& r.0 == d.len()
            &&& r.1 == total_size(d)
            &&& final(paths)@.map_values(|s: String| s@) == old(paths)@.map_values(|s: String| s@) + d.map_values(|e: StoreEntry| e.path@)
        }),
{
    let ghost vs = victims@.map_values(|i: usize| i as int);
    let ghost rs = if dry_run { victims@.map_values(|i: usize| true) } else { removed@ };
    let ghost p0 = paths@.map_values(|s: String| s@);
    let mut count: usize = 0;
    let mut bytes: u64 = 0;
    let mut k: usize = 0;
    proof {
        lemma_total_size_prefix(entries@, vs, rs, dry_run, 0);
    }
    while k < victims.len()
        invariant
            k <= victims@.len(),
            vs == victims@.map_values(|i: usize| i as int),
            rs == (if dry_run { victims@.map_values(|i: usize| true) } else { removed@ }),
            rs.len() == vs.len(),
            forall|j: int| 0 <= j < victims@.len() ==> victims@[j] < entries@.len(),
            total_size(deleted_entries(entries@, vs, rs, dry_run)) <= u64::MAX,
            count == deleted_entries(entries@, vs.take(k as int), rs.take(k as int), dry_run).len(),
            bytes == total_size(deleted_entries(entries@, vs.take(k as int), rs.take(k as int), dry_run)),
            paths@.map_values(|s: String| s@) == p0 + deleted_entries(entries@, vs.take(k as int), rs.take(k as int), dry_run).map_values(|e: StoreEntry| e.path@),
            count <= k,
        decreases victims@.len() - k,
    {
        let v = victims[k];
        proof {
            assert(vs.take(k + 1).drop_last() =~= vs.take(k as int));
            assert(rs.take(k + 1).drop_last() =~= rs.take(k as int));
            lemma_total_size_prefix(entries@, vs, rs, dry_run, k + 1);
        }
        let ok = if dry_run { true } else { removed[k] };
        if ok {
            let e = &entries[v];
            proof {
                assert(rs.take(k + 1).last() == rs[k as int]);
                assert(vs.take(k + 1).last() == v as int);
            }
            proof {
                let d0 = deleted_entries(entries@, vs.take(k as int), rs.take(k as int), dry_run);
                let d = deleted_entries(entries@, vs.take(k + 1), rs.take(k + 1), dry_run);
                assert(d == d0.push(entries@[v as int]));
                assert(d.drop_last() =~= d0);
                assert(total_size(d) == total_size(d0) + e.size);
            }
            bytes = bytes + e.size;
            count = count + 1;
            let ghost pv_before = paths@.map_values(|s: String| s@);
            let c = e.path.clone();
            paths.push(c);
            proof {
                assert(paths@.map_values(|s: String| s@) =~= pv_before.push(e.path@));
            }
            proof {
                let d0 = deleted_entries(entries@, vs.take(k as int), rs.take(k as int), dry_run);
                let d = deleted_entries(entries@, vs.take(k + 1), rs.take(k + 1), dry_run);
                assert(d == d0.push(entries@[v as int]));
                assert(d.drop_last() =~= d0);
                assert(d.map_values(|e: StoreEntry| e.path@) =~= d0.map_values(|e: StoreEntry| e.path@).push(e.path@));
                assert(paths@.map_values(|s: String| s@) =~= p0 + d.map_values(|e: StoreEntry| e.path@));
            }
        } else {
            proof {
                assert(rs.take(k + 1).last() == rs[k as int]);
            }
        }
        k = k + 1;
    }
    proof {
        assert(vs.take(victims@.len() as int) =~= vs);
        assert(rs.take(victims@.len() as int) =~= rs);
    }
    (count, bytes)
}

/// The deleted entries of a prefix of the garbage are no larger than those of all of it.
proof fn lemma_total_size_prefix(entries: Seq<StoreEntry>, vs: Seq<int>, rs: Seq<bool>, dry_run: bool, k: int)
    requires
        0 <= k <= vs.len(),
        rs.len() == vs.len(),
    ensures
        total_size(deleted_entries(entries, vs.take(k), rs.take(k), dry_run)) <= total_size(deleted_entries(entries, vs, rs, dry_run)),
    decreases vs.len() - k,
{
    if k < vs.len() {
        lemma_total_size_prefix(entries, vs, rs, dry_run, k + 1);
        assert(vs.take(k + 1).drop_last() =~= vs.take(k));
        assert(rs.take(k + 1).drop_last() =~= rs.take(k));
        let a = deleted_entries(entries, vs.take(k), rs.take(k), dry_run);
        let b = deleted_entries(entries, vs.take(k + 1), rs.take(k + 1), dry_run);
        if dry_run || rs.take(k + 1).last() {
            assert(b == a.push(entries[vs.take(k + 1).last()]));
            assert(b.drop_last() =~= a);
            assert(total_size(b) == total_size(a) + entries[vs.take(k + 1).last()].size);
        } else {
            assert(b == a);
        }
    } else {
        assert(vs.take(k) =~= vs);
        assert(rs.take(k) =~= rs);
    }
}

/// Collects garbage, given what the store holds: the live hashes (those that
/// snapshots refer to), the build and input cache directories found, and, for
/// a real run, the outcome of removing each garbage directory in order
/// (`build_removed` and `input_removed`). In a dry run every garbage directory
/// counts as deleted. Every directory counts as scanned.
pub fn collect_garbage(
    dry_run: bool,
    live_hashes: &StrSet,
    builds: &Vec<StoreEntry>,
    inputs: &Vec<StoreEntry>,
    build_removed: &Vec<bool>,
    input_removed: &Vec<bool>,
) -> (r: GcResult)
    requires
        live_hashes.wf(),
        dry_run || build_removed@.len() == garbage_positions(builds@, live_hashes@.dom(), true).len(),
        dry_run || input_removed@.len() == garbage_positions(inputs@, live_hashes@.dom(), false).len(),
        total_size(deleted_entries(builds@, garbage_positions(builds@, live_hashes@.dom(), true), if dry_run {
            garbage_positions(builds@, live_hashes@.dom(), true).map_values(|i: int| true)
        } else {
            build_removed@
        }, dry_run)) <= u64::MAX,
        total_size(deleted_entries(inputs@, garbage_positions(inputs@, live_hashes@.dom(), false), if dry_run {
            garbage_positions(inputs@, live_hashes@.dom(), false).map_values(|i: int| true)
        } else {
            input_removed@
        }, dry_run)) <= u64::MAX,
    ensures
        ({
            let bv = garbage_positions(builds@, live_hashes@.dom(), true);
            let iv = garbage_positions(inputs@, live_hashes@.dom(), false);
            let bd = deleted_entries(builds@, bv, if dry_run { bv.map_values(|i: int| true) } else { build_removed@ }, dry_run);
            let id = deleted_entries(inputs@, iv, if dry_run { iv.map_values(|i: int| true) } else { input_removed@ }, dry_run);
            &&& r.stats.builds_scanned == builds@.len()
            &&& r.stats.inputs_scanned == inputs@.len()
            &&& r.stats.builds_deleted == bd.len()
            &&& r.stats.inputs_deleted == id.len()
            &&& r.stats.builds_bytes_freed == total_size(bd)
            &&& r.stats.inputs_bytes_freed == total_size(id)
            &&& r.deleted_paths@.map_values(|s: String| s@) == bd.map_values(|e: StoreEntry| e.path@) + id.map_values(|e: StoreEntry| e.path@)
        }),
{
    let bv = find_garbage(builds, live_hashes, true);
    let iv = find_garbage(inputs, live_hashes, false);
    let mut paths: Vec<String> = Vec::new();
    proof {
        lemma_garbage_positions_bounded(builds@, live_hashes@.dom(), true);
        lemma_garbage_positions_bounded(inputs@, live_hashes@.dom(), false);
        assert(bv@.map_values(|i: usize| i as int).len() == bv@.len());
        assert forall|k: int| 0 <= k < bv@.len() implies bv@[k] < builds@.len() by {
            assert(bv@.map_values(|i: usize| i as int)[k] == bv@[k] as int);
        }
        assert forall|k: int| 0 <= k < iv@.len() implies iv@[k] < inputs@.len() by {
            assert(iv@.map_values(|i: usize| i as int)[k] == iv@[k] as int);
        }
        assert(bv@.map_values(|i: usize| true) =~= garbage_positions(builds@, live_hashes@.dom(), true).map_values(|i: int| true));
        assert(iv@.map_values(|i: usize| true) =~= garbage_positions(inputs@, live_hashes@.dom(), false).map_values(|i: int| true));
    }
    let (bd, bb) = tally(builds, &bv, build_removed, dry_run, &mut paths);
    proof {
        assert(Seq::<String>::empty().map_values(|s: String| s@) =~= Seq::<Seq<char>>::empty());
    }
    let (id, ib) = tally(inputs, &iv, input_removed, dry_run, &mut paths);
    let stats = GcStats {
        builds_scanned: builds.len(),
        builds_deleted: bd,
        builds_bytes_freed: bb,
        inputs_scanned: inputs.len(),
        inputs_deleted: id,
        inputs_bytes_freed: ib,
    };
    GcResult { stats, deleted_paths: paths }
}

/// Garbage positions lie inside the entry list and increase.
proof fn lemma_garbage_positions_bounded(entries: Seq<StoreEntry>, live: Set<Seq<char>>, is_build: bool)
    ensures
        forall|k: int| 0 <= k < garbage_positions(entries, live, is_build).len() ==> 0 <= #[trigger] garbage_positions(entries, live, is_build)[k] < entries.len(),
        forall|a: int, b: int| 0 <= a < b < garbage_positions(entries, live, is_build).len() ==> garbage_positions(entries, live, is_build)[a] < garbage_positions(entries, live, is_build)[b],
    decreases entries.len(),
{
    if entries.len() > 0 {
        lemma_garbage_positions_bounded(entries.drop_last(), live, is_build);
        let rest = garbage_positions(entries.drop_last(), live, is_build);
        let g = garbage_positions(entries, live, is_build);
        if is_garbage(entries.last(), live, is_build) {
            assert(g == rest.push(entries.len() - 1));
            assert forall|k: int| 0 <= k < g.len() implies 0 <= #[trigger] g[k] < entries.len() by {
                if k < rest.len() {
                    assert(g[k] == rest[k]);
                }
            }
            assert forall|a: int, b: int| 0 <= a < b < g.len() implies g[a] < g[b] by {
                assert(g[a] == rest[a]);
                if b < rest.len() {
                    assert(g[b] == rest[b]);
                }
            }
        } else {
            assert(g == rest);
        }
    }
}

} // verus!
