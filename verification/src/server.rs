//! The server: its state as clients see it, and what it starts at boot.
use vstd::prelude::*;
use vstd::utf8::encode_utf8;

use crate::notify::DEFAULT_LOG_ORDINAL;
use crate::outlines::OUTLINE_CACHE_CAP;
use crate::model::{RelPath, ToolError};
use crate::proposals::paths_of;

verus! {

// ─── Lifecycle ───────────────────────────────────────────────────────────────

/// What the server is doing, so that an empty or partial result is not taken for "no matches".
#[derive(Debug, Clone, Copy, PartialEq, Eq, Structural)]
pub enum Lifecycle {
    Ready,
    WarmingUp,
    BuildingIndex,
    Rescanning,
}

impl Lifecycle {
    /// The state that the flags stand for: building an index outranks warming up, which outranks a
    /// rescan.
    pub fn from_flags(building: bool, warming: bool, rescanning: bool) -> (s: Lifecycle)
        ensures
            s == Lifecycle::BuildingIndex <==> building,
            s == Lifecycle::WarmingUp <==> !building && warming,
            s == Lifecycle::Rescanning <==> !building && !warming && rescanning,
            s == Lifecycle::Ready <==> !building && !warming && !rescanning,
    {
        if building {
            Lifecycle::BuildingIndex
        } else if warming {
            Lifecycle::WarmingUp
        } else if rescanning {
            Lifecycle::Rescanning
        } else {
            Lifecycle::Ready
        }
    }
}

/// A notice that a result may be incomplete.
#[derive(Debug)]
pub struct LifecycleNotice {
    /// The state, as a stable tag.
    pub state: &'static str,
    /// Whether asking again later gives a complete result.
    pub retry: bool,
}

impl LifecycleNotice {
    /// The notice for a state; none where the server is ready. The results of a rescan are usable, so
    /// it asks for no retry.
    pub fn for_state(s: Lifecycle) -> (n: Option<LifecycleNotice>)
        ensures
            match n {
                Some(x) => match s {
                    Lifecycle::Ready => false,
                    Lifecycle::WarmingUp => x.state@ == "warming_up"@ && x.retry,
                    Lifecycle::BuildingIndex => x.state@ == "building_index"@ && x.retry,
                    Lifecycle::Rescanning => x.state@ == "rescanning"@ && !x.retry,
                },
                None => s == Lifecycle::Ready,
            },
    {
        match s {
            Lifecycle::Ready => None,
            Lifecycle::WarmingUp => Some(LifecycleNotice { state: "warming_up", retry: true }),
            Lifecycle::BuildingIndex => Some(
                LifecycleNotice { state: "building_index", retry: true },
            ),
            Lifecycle::Rescanning => Some(LifecycleNotice { state: "rescanning", retry: false }),
        }
    }
}

// ─── Boot ────────────────────────────────────────────────────────────────────

/// Switches for a new server.
#[derive(Debug, Clone, Copy)]
pub struct ServerOptions {
    /// Run the initial scan, a watcher and the blob collection.
    pub background: bool,
    /// Watch the file system, rather than the index that others write.
    pub watch: bool,
    /// Another process holds the write lock.
    pub read_only: bool,
    /// Writes are handed to the machine daemon.
    pub daemon_writer: bool,
}

impl Default for ServerOptions {
    fn default() -> (o: ServerOptions)
        ensures
            o.background,
            o.watch,
            !o.read_only,
            !o.daemon_writer,
    {
        ServerOptions { background: true, watch: true, read_only: false, daemon_writer: false }
    }
}

impl ServerOptions {
    /// The switches of a server that answers one query and exits.
    pub fn oneshot() -> (o: ServerOptions)
        ensures
            !o.background,
            !o.watch,
            !o.read_only,
            !o.daemon_writer,
    {
        ServerOptions { background: false, watch: false, read_only: false, daemon_writer: false }
    }

    /// Whether the server may have its index written, by itself or by the daemon.
    pub open spec fn writes(self) -> bool {
        self.daemon_writer || !self.read_only
    }
}

/// What is known at boot.
#[derive(Debug)]
pub struct BootFacts {
    /// The scope of the repository, where there is one.
    pub repo_scope: Option<String>,
    /// The root, as shown.
    pub root: String,
    /// Whether the history index is switched on.
    pub history_enabled: bool,
    /// Whether the served view is the working tree.
    pub view_is_working: bool,
    /// The size of each indexed file.
    pub file_sizes: Vec<u64>,
    /// Whether the symbol index on disk is empty, where there is one.
    pub symbols_empty: Option<bool>,
}

/// A watcher that keeps the map current.
#[derive(Debug, Clone, Copy, PartialEq, Eq, Structural)]
pub enum WatcherKind {
    /// Watches the files and rescans what changes.
    FileSystem,
    /// Watches the index that another process writes.
    View,
}

/// What the server does at boot.
#[derive(Debug)]
pub struct BootPlan {
    pub scope: String,
    pub corpus_bytes: u64,
    /// Open the history index.
    pub open_history: bool,
    /// Start with an empty map and load it later; otherwise load it at once.
    pub defer_warm: bool,
    pub watcher: Option<WatcherKind>,
    /// Bring the history index up to date, once it is open.
    pub sync_history: bool,
    pub initial_scan: bool,
    /// Load the map in the background.
    pub warm_cache: bool,
    pub collect_blobs: bool,
    /// The number of the first snapshot of the map.
    pub generation: u32,
    /// Whether the server refuses rescans.
    pub read_only: bool,
    /// Whether the daemon writes the index.
    pub daemon_writer: bool,
    /// Whether the map counts as being loaded, before any background work.
    pub cache_warming: bool,
    /// Whether the first scan counts as running, before any background work.
    pub initial_scan_active: bool,
    /// Whether a rescan counts as running.
    pub rescan_active: bool,
    /// The threshold of the messages to the client.
    pub log_ordinal: u8,
    /// How many outlines are kept.
    pub outline_cap: usize,
}

/// The sum of the first `n` numbers.
pub open spec fn sum_upto(list: Seq<u64>, n: int) -> int
    decreases n,
{
    if n <= 0 {
        0
    } else {
        sum_upto(list, n - 1) + list[n - 1]
    }
}

/// Whether the index has to be built: it may be written, the view is the working tree, and nothing
/// is indexed yet.
pub open spec fn needs_scan(f: BootFacts, o: ServerOptions) -> bool {
    o.writes() && f.view_is_working && (f.file_sizes@.len() == 0 || f.symbols_empty == Some(true))
}

proof fn lemma_sum_grows(list: Seq<u64>, n: int, m: int)
    requires
        0 <= n <= m <= list.len(),
    ensures
        0 <= sum_upto(list, n) <= sum_upto(list, m),
    decreases m,
{
    if n < m {
        lemma_sum_grows(list, n, m - 1);
    } else if n > 0 {
        lemma_sum_grows(list, n - 1, m - 1);
    }
}

/// `p` is the plan of a boot: a read-only server never scans nor watches files itself, and a server
/// without background work only loads the map. Snapshots of the map are numbered from 1.
pub open spec fn is_boot_plan(p: BootPlan, f: BootFacts, o: ServerOptions) -> bool {
    &&& p.scope@ == (match f.repo_scope {
        Some(s) => s@,
        None => "path:"@ + f.root@,
    })
    &&& p.corpus_bytes == sum_upto(f.file_sizes@, f.file_sizes@.len() as int)
    &&& p.open_history == (!o.read_only && f.repo_scope is Some && f.history_enabled)
    &&& p.defer_warm == (o.background && !needs_scan(f, o))
    &&& p.watcher == (if !o.background {
        None
    } else if o.watch && o.writes() && f.view_is_working {
        Some(WatcherKind::FileSystem)
    } else {
        Some(WatcherKind::View)
    })
    &&& p.sync_history == (o.background && p.open_history)
    &&& p.initial_scan == (o.background && needs_scan(f, o))
    &&& p.warm_cache == p.defer_warm
    &&& p.collect_blobs == (o.background && !needs_scan(f, o))
    &&& p.generation == 1
    &&& p.read_only == o.read_only
    &&& p.daemon_writer == o.daemon_writer
    &&& p.cache_warming == p.defer_warm
    &&& !p.initial_scan_active
    &&& !p.rescan_active
    &&& p.log_ordinal == DEFAULT_LOG_ORDINAL
    &&& p.outline_cap == OUTLINE_CACHE_CAP
}

/// Plan the boot. A read-only server never scans nor watches files itself; a server without
/// background work only loads the map.
pub fn plan_boot(facts: &BootFacts, options: ServerOptions) -> (p: BootPlan)
    requires
        sum_upto(facts.file_sizes@, facts.file_sizes@.len() as int) <= u64::MAX,
    ensures
        is_boot_plan(p, *facts, options),
{
    let scope = match &facts.repo_scope {
        Some(s) => s.clone(),
        None => {
            let mut t = String::from_str("path:");
            t.append(facts.root.as_str());
            t
        },
    };
    let mut corpus_bytes: u64 = 0;
    let mut i: usize = 0;
    while i < facts.file_sizes.len()
        invariant
            i <= facts.file_sizes@.len(),
            sum_upto(facts.file_sizes@, facts.file_sizes@.len() as int) <= u64::MAX,
            corpus_bytes == sum_upto(facts.file_sizes@, i as int),
        decreases facts.file_sizes@.len() - i,
    {
        proof {
            lemma_sum_grows(facts.file_sizes@, i + 1, facts.file_sizes@.len() as int);
        }
        corpus_bytes = corpus_bytes + facts.file_sizes[i];
        i += 1;
    }
    let writes: bool = options.daemon_writer || !options.read_only;
    let symbols_empty: bool = match facts.symbols_empty {
        Some(e) => e,
        None => false,
    };
    let scan: bool = writes && facts.view_is_working && (facts.file_sizes.len() == 0
        || symbols_empty);
    let open_history: bool = !options.read_only && facts.repo_scope.is_some()
        && facts.history_enabled;
    let watcher = if !options.background {
        None
    } else if options.watch && writes && facts.view_is_working {
        Some(WatcherKind::FileSystem)
    } else {
        Some(WatcherKind::View)
    };
    BootPlan {
        scope,
        corpus_bytes,
        open_history,
        defer_warm: options.background && !scan,
        watcher,
        sync_history: options.background && open_history,
        initial_scan: options.background && scan,
        warm_cache: options.background && !scan,
        collect_blobs: options.background && !scan,
        generation: 1,
        read_only: options.read_only,
        daemon_writer: options.daemon_writer,
        cache_warming: options.background && !scan,
        initial_scan_active: false,
        rescan_active: false,
        log_ordinal: DEFAULT_LOG_ORDINAL,
        outline_cap: OUTLINE_CACHE_CAP,
    }
}

// ─── Rescans ─────────────────────────────────────────────────────────────────

/// Refuse a rescan where another process holds the write lock.
pub fn check_writable(read_only: bool) -> (r: Result<(), ToolError>)
    ensures
        match r {
            Ok(_) => !read_only,
            Err(e) => read_only && e is InvalidRequest && e.text()
                == "this basemind serve is read-only: another serve process holds the write lock for this repo, so it owns index refresh. Reads are served from the shared index; run rescans from the lock-holding serve (or close it and retry)."@,
        },
{
    if read_only {
        Err(
            ToolError::InvalidRequest(
                String::from_str(
                    "this basemind serve is read-only: another serve process holds the write lock for this repo, so it owns index refresh. Reads are served from the shared index; run rescans from the lock-holding serve (or close it and retry).",
                ),
            ),
        )
    } else {
        Ok(())
    }
}

/// What a scan did with a file.
#[derive(Debug, Clone, Copy, PartialEq, Eq, Structural)]
pub enum FileStatus {
    Updated,
    Removed,
    /// Neither: the file was the same as before, or was passed over.
    Untouched,
}

/// What a scan says of a file.
#[derive(Debug)]
pub struct FileVerdict {
    pub path: String,
    pub status: FileStatus,
}

/// How the map is refreshed after a scan.
#[derive(Debug)]
pub enum Refresh {
    /// It is current as it is.
    Nothing,
    /// These paths are taken in anew, and those dropped.
    Delta { updated: Vec<RelPath>, removed: Vec<RelPath> },
    /// It is built anew.
    Rebuild,
}

/// The paths of the first `n` files with this status.
pub open spec fn paths_with(results: Seq<FileVerdict>, status: FileStatus, n: int) -> Seq<Seq<u8>>
    decreases n,
{
    if n <= 0 {
        Seq::empty()
    } else if results[n - 1].status == status {
        paths_with(results, status, n - 1).push(encode_utf8(results[n - 1].path@))
    } else {
        paths_with(results, status, n - 1)
    }
}

fn collect_paths(results: &Vec<FileVerdict>, status: FileStatus) -> (out: Vec<RelPath>)
    ensures
        paths_of(out@) == paths_with(results@, status, results@.len() as int),
{
    let mut out: Vec<RelPath> = Vec::new();
    let mut i: usize = 0;
    assert(paths_of(out@) =~= Seq::empty());
    while i < results.len()
        invariant
            i <= results@.len(),
            paths_of(out@) == paths_with(results@, status, i as int),
        decreases results@.len() - i,
    {
        if results[i].status == status {
            let ghost before = out@;
            let p = RelPath::from_text(results[i].path.as_str());
            let ghost v = p@;
            out.push(p);
            assert(paths_of(out@) =~= paths_of(before).push(v));
        }
        i += 1;
    }
    out
}

/// `r` is how the map is refreshed after a scan that touched so many files.
pub open spec fn is_refresh(
    r: Refresh,
    was_scoped: bool,
    updated: u64,
    removed: u64,
    results: Seq<FileVerdict>,
) -> bool {
    match r {
        Refresh::Nothing => was_scoped && updated == 0 && removed == 0,
        Refresh::Delta { updated: up, removed: gone } => {
            &&& was_scoped
            &&& updated > 0 || removed > 0
            &&& paths_of(up@) == paths_with(results, FileStatus::Updated, results.len() as int)
            &&& paths_of(gone@) == paths_with(results, FileStatus::Removed, results.len() as int)
        },
        Refresh::Rebuild => !was_scoped,
    }
}

/// Decide how the map is refreshed after a scan. A scan of given paths that changed nothing leaves
/// it alone; one that changed something patches it; a full scan always builds it anew.
pub fn plan_refresh(was_scoped: bool, updated: u64, removed: u64, results: &Vec<FileVerdict>) -> (r:
    Refresh)
    ensures
        is_refresh(r, was_scoped, updated, removed, results@),
{
    if !was_scoped {
        return Refresh::Rebuild;
    }
    if updated == 0 && removed == 0 {
        return Refresh::Nothing;
    }
    Refresh::Delta {
        updated: collect_paths(results, FileStatus::Updated),
        removed: collect_paths(results, FileStatus::Removed),
    }
}

/// The snapshot number after a refresh: the next one, unless the map was left alone. Cursors of an
/// earlier snapshot are no longer valid.
pub open spec fn generation_after(generation: u32, r: Refresh) -> u32 {
    if r is Nothing {
        generation
    } else if generation == u32::MAX {
        0
    } else {
        (generation + 1) as u32
    }
}

/// The snapshot number after a refresh.
pub fn next_generation(generation: u32, r: &Refresh) -> (g: u32)
    ensures
        g == generation_after(generation, *r),
{
    match r {
        Refresh::Nothing => generation,
        _ => generation.wrapping_add(1),
    }
}

/// What follows a rescan that the daemon carried out.
#[derive(Debug, Clone, Copy, PartialEq, Eq, Structural)]
pub struct ForwardedRefresh {
    /// Whether the map is built anew: not where the files behind it are the same.
    pub rebuild: bool,
    /// The new snapshot number. Every rescan ends the cursors before it.
    pub generation: u32,
}

/// Decide what follows a rescan that the daemon carried out. Equal fingerprints mean equal files.
pub fn plan_forwarded(current_fingerprint: u64, new_fingerprint: u64, generation: u32) -> (r:
    ForwardedRefresh)
    ensures
        r.rebuild == (current_fingerprint != new_fingerprint),
        r.generation == generation_after(generation, Refresh::Rebuild),
{
    ForwardedRefresh {
        rebuild: current_fingerprint != new_fingerprint,
        generation: generation.wrapping_add(1),
    }
}

// ─── Laws ────────────────────────────────────────────────────────────────────

/// A server without background work starts nothing: it loads the map at once, and neither scans,
/// watches, loads later, syncs nor collects. Whether it may write is as its options say.
pub proof fn law_oneshot_boots_still(p: BootPlan, f: BootFacts, o: ServerOptions)
    requires
        is_boot_plan(p, f, o),
        !o.background,
    ensures
        !p.defer_warm,
        !p.cache_warming,
        !p.initial_scan_active,
        !p.initial_scan,
        !p.warm_cache,
        !p.collect_blobs,
        !p.sync_history,
        p.watcher is None,
        p.generation == 1,
        p.read_only == o.read_only,
{
}

/// A server that may not write starts nothing that writes: no scan, no watcher of files, no history
/// index.
pub proof fn law_read_only_boots_quietly(p: BootPlan, f: BootFacts, o: ServerOptions)
    requires
        !o.writes(),
        is_boot_plan(p, f, o),
    ensures
        !p.initial_scan,
        p.watcher != Some(WatcherKind::FileSystem),
        !p.open_history,
{
}

/// A rescan that was asked for outright ends the cursors before it, and a watcher's rescan that
/// changed nothing does not.
pub proof fn law_rescans_roll_the_snapshot(
    r: Refresh,
    was_scoped: bool,
    updated: u64,
    removed: u64,
    results: Seq<FileVerdict>,
    generation: u32,
)
    requires
        is_refresh(r, was_scoped, updated, removed, results),
    ensures
        !was_scoped ==> generation_after(generation, r) != generation,
        was_scoped && updated == 0 && removed == 0 ==> generation_after(generation, r)
            == generation,
{
}

} // verus!
