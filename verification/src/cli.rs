//! The command line: what its flags mean, apart from reading and printing.
use vstd::prelude::*;

use crate::numbers::{number_of, parse_number};
use crate::text::{list_holds, opt_str, quoted, quoted_text, same_str, texts};

verus! {

/// How much is printed.
#[derive(Debug, Clone, Copy, PartialEq, Eq, Structural)]
pub enum Verbosity {
    Quiet,
    Default,
    Verbose,
}

impl Verbosity {
    /// What the flags ask for. They exclude each other; should both be given, quiet wins.
    pub fn from_flags(quiet: bool, verbose: bool) -> (v: Verbosity)
        ensures
            v == (if quiet {
                Verbosity::Quiet
            } else if verbose {
                Verbosity::Verbose
            } else {
                Verbosity::Default
            }),
    {
        if quiet {
            Verbosity::Quiet
        } else if verbose {
            Verbosity::Verbose
        } else {
            Verbosity::Default
        }
    }
}

/// The log threshold where the environment sets none.
pub fn default_log_directive(verbosity: Verbosity) -> (d: &'static str)
    ensures
        d@ == (match verbosity {
            Verbosity::Quiet => "warn"@,
            Verbosity::Default => "info"@,
            Verbosity::Verbose => "debug"@,
        }),
{
    match verbosity {
        Verbosity::Quiet => "warn",
        Verbosity::Default => "info",
        Verbosity::Verbose => "debug",
    }
}

/// The subcommands.
#[derive(Debug, Clone, Copy, PartialEq, Eq, Structural)]
pub enum CommandKind {
    Init,
    Scan,
    Rescan,
    Watch,
    Query,
    Git,
    Memory,
    Governance,
    Web,
    Telemetry,
    Hook,
    Lang,
    Text,
    Serve,
    Cache,
    Comms,
    Agent,
}

/// Whether a subcommand prints JSON when asked to.
pub open spec fn consumes_json(cmd: CommandKind) -> bool {
    cmd == CommandKind::Query || cmd == CommandKind::Git || cmd == CommandKind::Memory || cmd
        == CommandKind::Web || cmd == CommandKind::Telemetry || cmd == CommandKind::Cache || cmd
        == CommandKind::Comms
}

/// Which global flags were given to a subcommand that has no use for them.
#[derive(Debug, Clone, Copy, PartialEq, Eq, Structural)]
pub struct IgnoredFlags {
    pub json: bool,
    pub view: bool,
}

/// Which global flags a subcommand ignores.
pub fn warn_ignored_global_flags(cmd: CommandKind, json: bool, view: &str) -> (w: IgnoredFlags)
    ensures
        w.json == (json && !consumes_json(cmd)),
        w.view == (view@ != "working"@ && !consumes_json(cmd) && cmd != CommandKind::Serve),
{
    let takes_json: bool = cmd == CommandKind::Query || cmd == CommandKind::Git || cmd
        == CommandKind::Memory || cmd == CommandKind::Web || cmd == CommandKind::Telemetry || cmd
        == CommandKind::Cache || cmd == CommandKind::Comms;
    let takes_view: bool = takes_json || cmd == CommandKind::Serve;
    IgnoredFlags { json: json && !takes_json, view: !same_str(view, "working") && !takes_view }
}

/// Whether a rescan takes in the whole tree: where that is asked for, or no path is given.
pub fn rescans_all(full: bool, paths: &Vec<String>) -> (yes: bool)
    ensures
        yes == (full || paths@.len() == 0),
{
    full || paths.len() == 0
}

/// Check the view to serve: one that was never scanned is refused, but for the working tree, which is
/// scanned on the first run.
pub fn check_served_view(view: &str, has_index: bool) -> (r: Result<(), String>)
    ensures
        match r {
            Ok(_) => view@ == "working"@ || has_index,
            Err(m) => view@ != "working"@ && !has_index && m@ == "view "@ + quoted_text(view@)
                + " has not been scanned; run `basemind scan --view "@ + view@
                + "` first (or omit --view to serve the working view)"@,
        },
{
    if same_str(view, "working") || has_index {
        return Ok(());
    }
    let mut m = String::from_str("view ");
    m.append(quoted(view).as_str());
    m.append(" has not been scanned; run `basemind scan --view ");
    m.append(view);
    m.append("` first (or omit --view to serve the working view)");
    Err(m)
}

/// Where a scan reads the files from.
#[derive(Debug, Clone, Copy, PartialEq, Eq, Structural)]
pub enum ScanTarget {
    WorkingTree,
    Staged,
    Revision,
}

/// Where a scan reads the files from. The staging area is asked before a revision.
pub fn scan_target(staged: bool, has_rev: bool) -> (t: ScanTarget)
    ensures
        t == (if staged {
            ScanTarget::Staged
        } else if has_rev {
            ScanTarget::Revision
        } else {
            ScanTarget::WorkingTree
        }),
{
    if staged {
        ScanTarget::Staged
    } else if has_rev {
        ScanTarget::Revision
    } else {
        ScanTarget::WorkingTree
    }
}

// ─── Languages ───────────────────────────────────────────────────────────────

/// The languages as the listing shows them: those with queries, each with whether its grammar is
/// there, and the others whose grammar is.
#[derive(Debug)]
pub struct LanguageListing {
    pub ready: Vec<bool>,
    pub extras: Vec<String>,
}

/// The condition that a language has no queries.
pub open spec fn unsupported(supported: Seq<Seq<char>>) -> spec_fn(Seq<char>) -> bool {
    |n: Seq<char>| !supported.contains(n)
}

/// List languages.
pub fn list_languages(supported: &Vec<String>, installed: &Vec<String>) -> (l: LanguageListing)
    ensures
        l.ready@.len() == supported@.len(),
        forall|i: int|
            0 <= i < l.ready@.len() ==> #[trigger] l.ready@[i] == texts(installed@).contains(
                supported@[i]@,
            ),
        texts(l.extras@) == texts(installed@).filter(unsupported(texts(supported@))),
{
    let mut ready: Vec<bool> = Vec::new();
    let mut i: usize = 0;
    while i < supported.len()
        invariant
            i <= supported@.len(),
            ready@.len() == i,
            forall|j: int|
                0 <= j < i ==> #[trigger] ready@[j] == texts(installed@).contains(supported@[j]@),
        decreases supported@.len() - i,
    {
        ready.push(list_holds(installed.as_slice(), supported[i].as_str()));
        i += 1;
    }
    let ghost all = texts(installed@);
    let ghost p = unsupported(texts(supported@));
    let mut extras: Vec<String> = Vec::new();
    let mut n: usize = 0;
    proof {
        reveal(Seq::filter);
        assert(all.take(0).filter(p) =~= Seq::empty());
        assert(texts(extras@) =~= Seq::empty());
    }
    while n < installed.len()
        invariant
            n <= installed@.len(),
            all == texts(installed@),
            p == unsupported(texts(supported@)),
            texts(extras@) == all.take(n as int).filter(p),
        decreases installed@.len() - n,
    {
        proof {
            crate::seqs::lemma_filter_take(all, n as int, p);
            assert(all[n as int] == installed@[n as int]@);
        }
        if !list_holds(supported.as_slice(), installed[n].as_str()) {
            let ghost before = extras@;
            extras.push(installed[n].clone());
            assert(texts(extras@) =~= texts(before).push(installed@[n as int]@));
        }
        n += 1;
    }
    assert(all.take(n as int) =~= all);
    LanguageListing { ready, extras }
}

// ─── Parsing time ────────────────────────────────────────────────────────────

/// How long a file may take to parse, in milliseconds, where the environment says nothing.
pub const DEFAULT_PARSE_TIMEOUT_MS: u64 = 5000;

/// How long a file may take to parse: what the environment says, where that is a number.
pub open spec fn timeout_of(value: Option<Seq<char>>) -> int {
    match value {
        Some(v) => match number_of(v, u64::MAX as int) {
            Some(n) => n,
            None => DEFAULT_PARSE_TIMEOUT_MS as int,
        },
        None => DEFAULT_PARSE_TIMEOUT_MS as int,
    }
}

/// How long a file may take to parse, in milliseconds.
pub fn parse_timeout_ms(value: Option<&str>) -> (ms: u64)
    ensures
        ms == timeout_of(opt_str(value)),
{
    match value {
        Some(v) => match parse_number(v) {
            Some(n) => n,
            None => DEFAULT_PARSE_TIMEOUT_MS,
        },
        None => DEFAULT_PARSE_TIMEOUT_MS,
    }
}

/// How a parse ended.
#[derive(Debug, Clone, Copy, PartialEq, Eq, Structural)]
pub enum ParseEnd {
    Parsed,
    Failed,
    TimedOut,
}

/// How a parse ended: a tree counts, even where time ran out.
pub fn parse_end(has_tree: bool, timed_out: bool) -> (e: ParseEnd)
    ensures
        e == (if has_tree {
            ParseEnd::Parsed
        } else if timed_out {
            ParseEnd::TimedOut
        } else {
            ParseEnd::Failed
        }),
{
    if has_tree {
        ParseEnd::Parsed
    } else if timed_out {
        ParseEnd::TimedOut
    } else {
        ParseEnd::Failed
    }
}

} // verus!
