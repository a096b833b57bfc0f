//! Auditing memories against the code they rest on.
//!
//! A memory names files, symbols and commands. It is stale when a file or a symbol is gone, or when
//! the body of a symbol is no longer the one it was recorded with. Commands only ever warn.
use vstd::prelude::*;
use vstd::utf8::encode_utf8;

use crate::history::HashMode;
use crate::lang::{intern, overridden};
use crate::memory::{opt_bytes, MemoryRecord, SymbolRef, VerifyState};
use crate::model::{
    code_kind_named, file_table, kind_name, kind_to_str, locate, parse_kind_opt, paths_ascend,
    FileMapL1, MappedFile, RelPath, Symbol, SymbolKind,
};
use crate::navigate::{lossy, lossy_text};
use crate::syntax::{fingerprint, fits, symbol_fingerprint, SyntaxNode};
use crate::text::{
    char_is_space, from_range, is_space, list_holds, opt_text, same_bytes, same_str, texts,
    to_chars, trim_start_index, trim_start_of,
};

verus! {

// ─── The code that memories rest on ──────────────────────────────────────────

/// The present bytes of a file, with its syntax tree where it could be parsed.
#[derive(Debug)]
pub struct ParsedFile {
    pub path: RelPath,
    pub source: Vec<u8>,
    pub tree: Option<SyntaxNode>,
}

/// The code as an audit sees it.
#[derive(Debug)]
pub struct CodeState {
    /// The code map, by ascending path.
    pub files: Vec<MappedFile>,
    /// The paths that the store holds.
    pub indexed: Vec<RelPath>,
    /// The files that could be read.
    pub sources: Vec<ParsedFile>,
    /// The languages that the language pack knows.
    pub known: Vec<String>,
}

impl CodeState {
    /// Paths ascend, and every tree lies within its source.
    pub open spec fn wf(&self) -> bool {
        &&& paths_ascend(self.files@)
        &&& forall|i: int|
            0 <= i < self.sources@.len() ==> tree_fits(#[trigger] self.sources@[i])
    }
}

/// The tree of a file lies within its source.
pub open spec fn tree_fits(f: ParsedFile) -> bool {
    f.tree is Some ==> fits(f.tree->0, f.source@.len() as int)
}

/// `i` is the first file of `sources` at the path `p`.
pub open spec fn is_source_of(sources: Seq<ParsedFile>, p: Seq<u8>, i: int) -> bool {
    &&& 0 <= i < sources.len()
    &&& sources[i].path@ == p
    &&& forall|j: int| 0 <= j < i ==> (#[trigger] sources[j]).path@ != p
}

/// The first file of `sources` at the path `p`.
pub open spec fn source_of(sources: Seq<ParsedFile>, p: Seq<u8>) -> Option<ParsedFile> {
    if exists|i: int| is_source_of(sources, p, i) {
        Some(sources[choose|i: int| is_source_of(sources, p, i)])
    } else {
        None
    }
}

fn find_source<'a>(sources: &'a Vec<ParsedFile>, p: &RelPath) -> (f: Option<&'a ParsedFile>)
    ensures
        match f {
            Some(x) => source_of(sources@, p@) == Some(*x) && exists|i: int|
                0 <= i < sources@.len() && #[trigger] sources@[i] == *x,
            None => source_of(sources@, p@) is None,
        },
{
    let mut i: usize = 0;
    while i < sources.len()
        invariant
            i <= sources@.len(),
            forall|j: int| 0 <= j < i ==> (#[trigger] sources@[j]).path@ != p@,
        decreases sources@.len() - i,
    {
        if sources[i].path.same(p) {
            proof {
                assert(is_source_of(sources@, p@, i as int));
                let k = choose|k: int| is_source_of(sources@, p@, k);
                assert(k == i);
            }
            return Some(&sources[i]);
        }
        i += 1;
    }
    None
}

// ─── Symbols ─────────────────────────────────────────────────────────────────

/// Whether a symbol is the one that a reference names: by name and, where given, by the name of its
/// kind.
pub open spec fn answers(s: Symbol, r: SymbolRef) -> bool {
    s.name@ == r.name@ && (r.kind is None || kind_name(s.kind) == r.kind->0@)
}

/// Whether one of the symbols is the one that a reference names.
pub open spec fn has_symbol(symbols: Seq<Symbol>, r: SymbolRef) -> bool {
    exists|i: int| 0 <= i < symbols.len() && answers(#[trigger] symbols[i], r)
}

fn find_ref(symbols: &Vec<Symbol>, r: &SymbolRef) -> (found: bool)
    ensures
        found == has_symbol(symbols@, *r),
{
    let mut i: usize = 0;
    while i < symbols.len()
        invariant
            i <= symbols@.len(),
            forall|j: int| 0 <= j < i ==> !answers(#[trigger] symbols@[j], *r),
        decreases symbols@.len() - i,
    {
        let s = &symbols[i];
        if same_str(s.name.as_str(), r.name.as_str()) {
            let kind_fits: bool = match &r.kind {
                Some(k) => same_str(kind_to_str(s.kind), k.as_str()),
                None => true,
            };
            if kind_fits {
                assert(answers(symbols@[i as int], *r));
                return true;
            }
        }
        i += 1;
    }
    false
}

/// The kind that a reference asks for, where it names one.
pub open spec fn kind_asked(kind: Option<String>) -> Option<SymbolKind> {
    match kind {
        Some(k) => code_kind_named(k@),
        None => None,
    }
}

/// The present fingerprint of the symbol that a reference names. `None` where its language is
/// unknown, its file cannot be read, or it has no fingerprint.
pub open spec fn present_hash(code: CodeState, l1: FileMapL1, r: SymbolRef) -> Option<Seq<u8>> {
    if !(overridden(l1.language@) || texts(code.known@).contains(l1.language@)) {
        None
    } else {
        match source_of(code.sources@, r.path@) {
            None => None,
            Some(f) => fingerprint(
                l1,
                f.source@,
                f.tree,
                r.name@,
                kind_asked(r.kind),
                l1.language@,
                HashMode::StructuralExact,
            ),
        }
    }
}

fn hash_now(code: &CodeState, l1: &FileMapL1, r: &SymbolRef) -> (h: Option<Vec<u8>>)
    requires
        code.wf(),
    ensures
        opt_bytes(h) == present_hash(*code, *l1, *r),
{
    let known: bool = list_holds(code.known.as_slice(), l1.language.as_str());
    let lang = match intern(l1.language.as_str(), known) {
        Some(l) => l,
        None => {
            return None;
        },
    };
    match find_source(&code.sources, &r.path) {
        Some(f) => {
            let kind = match &r.kind {
                Some(k) => parse_kind_opt(k.as_str()),
                None => None,
            };
            let tree = match &f.tree {
                Some(t) => Some(t),
                None => None,
            };
            assert(tree_fits(*f));
            symbol_fingerprint(
                l1,
                f.source.as_slice(),
                tree,
                r.name.as_str(),
                kind,
                lang.as_str(),
                HashMode::StructuralExact,
            )
        },
        None => None,
    }
}

/// Why a reference to a symbol no longer holds, if it does not.
pub open spec fn symbol_reason(code: CodeState, r: SymbolRef) -> Option<Seq<char>> {
    let table = file_table(code.files@);
    if !table.contains_key(r.path@) {
        Some("symbol not found: "@ + r.name@ + " (file gone: "@ + lossy_text(r.path@) + ")"@)
    } else if !has_symbol(table[r.path@].symbols@, r) {
        Some("symbol not found: "@ + r.name@)
    } else if r.structural_hash is Some && present_hash(code, table[r.path@], r) is Some
        && present_hash(code, table[r.path@], r)->0 != r.structural_hash->0@ {
        Some("symbol body changed: "@ + r.name@)
    } else {
        None
    }
}

fn check_symbol(code: &CodeState, r: &SymbolRef) -> (reason: Option<String>)
    requires
        code.wf(),
    ensures
        opt_text(reason) == symbol_reason(*code, *r),
{
    let (at, found) = locate(&code.files, &r.path);
    if !found {
        let mut t = String::from_str("symbol not found: ");
        t.append(r.name.as_str());
        t.append(" (file gone: ");
        t.append(lossy(r.path.bytes.as_slice()).as_str());
        t.append(")");
        return Some(t);
    }
    let l1 = &code.files[at].map;
    proof {
        crate::model::lemma_table_at(code.files@, at as int);
    }
    if !find_ref(&l1.symbols, r) {
        let mut t = String::from_str("symbol not found: ");
        t.append(r.name.as_str());
        return Some(t);
    }
    match &r.structural_hash {
        Some(stored) => match hash_now(code, l1, r) {
            Some(current) => {
                if same_bytes(current.as_slice(), stored.as_slice()) {
                    None
                } else {
                    let mut t = String::from_str("symbol body changed: ");
                    t.append(r.name.as_str());
                    Some(t)
                }
            },
            None => None,
        },
        None => None,
    }
}

// ─── Files and commands ──────────────────────────────────────────────────────

/// Why a reference to a file no longer holds, if it does not.
pub open spec fn file_reason(code: CodeState, p: Seq<u8>) -> Option<Seq<char>> {
    if file_table(code.files@).contains_key(p) {
        None
    } else {
        Some("file deleted: "@ + lossy_text(p))
    }
}

fn check_file(code: &CodeState, p: &RelPath) -> (reason: Option<String>)
    requires
        code.wf(),
    ensures
        opt_text(reason) == file_reason(*code, p@),
{
    let (_at, found) = locate(&code.files, p);
    if found {
        None
    } else {
        let mut t = String::from_str("file deleted: ");
        t.append(lossy(p.bytes.as_slice()).as_str());
        Some(t)
    }
}

/// The length of the run without white space that `s` starts with.
pub open spec fn word_len(s: Seq<char>) -> int
    decreases s.len(),
{
    if s.len() == 0 || is_space(s[0]) {
        0
    } else {
        1 + word_len(s.drop_first())
    }
}

/// The first word of a command; a blank command is its own first word.
pub open spec fn first_token(cmd: Seq<char>) -> Seq<char> {
    let s = trim_start_of(cmd);
    if s.len() == 0 {
        cmd
    } else {
        s.take(word_len(s))
    }
}

fn token_of(cmd: &str) -> (t: String)
    ensures
        t@ == first_token(cmd@),
{
    let chars = to_chars(cmd);
    let from: usize = trim_start_index(chars.as_slice());
    if from == chars.len() {
        return cmd.to_string();
    }
    let ghost s = chars@.skip(from as int);
    let mut to: usize = from;
    assert(s.skip(0) =~= s);
    while to < chars.len() && !char_is_space(chars[to])
        invariant
            from <= to <= chars@.len(),
            s == chars@.skip(from as int),
            word_len(s) == (to - from) + word_len(s.skip(to - from)),
        decreases chars@.len() - to,
    {
        assert(s.skip(to - from).drop_first() =~= s.skip(to - from + 1));
        assert(s.skip(to - from)[0] == chars@[to as int]);
        to += 1;
    }
    proof {
        if to < chars@.len() {
            assert(s.skip(to - from)[0] == chars@[to as int]);
        }
        assert(chars@.subrange(from as int, to as int) =~= s.take(to - from));
    }
    from_range(chars.as_slice(), from, to)
}

/// Whether the store holds the path `p`.
pub open spec fn is_indexed(indexed: Seq<RelPath>, p: Seq<u8>) -> bool {
    exists|i: int| 0 <= i < indexed.len() && (#[trigger] indexed[i])@ == p
}

fn indexes(indexed: &Vec<RelPath>, p: &RelPath) -> (yes: bool)
    ensures
        yes == is_indexed(indexed@, p@),
{
    let mut i: usize = 0;
    while i < indexed.len()
        invariant
            i <= indexed@.len(),
            forall|j: int| 0 <= j < i ==> (#[trigger] indexed@[j])@ != p@,
        decreases indexed@.len() - i,
    {
        if indexed[i].same(p) {
            return true;
        }
        i += 1;
    }
    false
}

/// The warning about a command, if its first word is a mapped path that the store has lost.
pub open spec fn command_reason(code: CodeState, cmd: Seq<char>) -> Option<Seq<char>> {
    let p = encode_utf8(first_token(cmd));
    if file_table(code.files@).contains_key(p) && !is_indexed(code.indexed@, p) {
        Some("command may be stale: "@ + cmd)
    } else {
        None
    }
}

fn check_command(code: &CodeState, cmd: &str) -> (reason: Option<String>)
    requires
        code.wf(),
    ensures
        opt_text(reason) == command_reason(*code, cmd@),
{
    let p = RelPath::from_text(token_of(cmd).as_str());
    let (_at, found) = locate(&code.files, &p);
    if found && !indexes(&code.indexed, &p) {
        let mut t = String::from_str("command may be stale: ");
        t.append(cmd);
        Some(t)
    } else {
        None
    }
}

// ─── The verdict ─────────────────────────────────────────────────────────────

/// What an audit finds of a record.
#[derive(Debug)]
pub struct AuditVerdict {
    pub state: VerifyState,
    pub reasons: Vec<String>,
}

/// A list with a reason added where there is one.
pub open spec fn with_reason(list: Seq<Seq<char>>, r: Option<Seq<char>>) -> Seq<Seq<char>> {
    match r {
        Some(t) => list.push(t),
        None => list,
    }
}

/// The reasons that the first `n` files give.
pub open spec fn file_reasons(code: CodeState, files: Seq<RelPath>, n: int) -> Seq<Seq<char>>
    decreases n,
{
    if n <= 0 {
        Seq::empty()
    } else {
        with_reason(file_reasons(code, files, n - 1), file_reason(code, files[n - 1]@))
    }
}

/// The reasons that the first `n` symbols give.
pub open spec fn symbol_reasons(code: CodeState, refs: Seq<SymbolRef>, n: int) -> Seq<Seq<char>>
    decreases n,
{
    if n <= 0 {
        Seq::empty()
    } else {
        with_reason(symbol_reasons(code, refs, n - 1), symbol_reason(code, refs[n - 1]))
    }
}

/// The warnings that the first `n` commands give.
pub open spec fn command_reasons(code: CodeState, cmds: Seq<String>, n: int) -> Seq<Seq<char>>
    decreases n,
{
    if n <= 0 {
        Seq::empty()
    } else {
        with_reason(command_reasons(code, cmds, n - 1), command_reason(code, cmds[n - 1]@))
    }
}

/// Whether a record rests on nothing.
pub open spec fn rests_on_nothing(r: MemoryRecord) -> bool {
    r.provenance.files@.len() == 0 && r.provenance.symbols@.len() == 0
        && r.provenance.commands@.len() == 0
}

/// The reasons by which a record is stale: one for each file and symbol that no longer holds.
pub open spec fn faults(code: CodeState, r: MemoryRecord) -> Seq<Seq<char>> {
    file_reasons(code, r.provenance.files@, r.provenance.files@.len() as int) + symbol_reasons(
        code,
        r.provenance.symbols@,
        r.provenance.symbols@.len() as int,
    )
}

/// What an audit finds of a record: stale where a file or symbol fails; verified where it names one
/// and none fails; unverified otherwise.
pub open spec fn verdict_state(code: CodeState, r: MemoryRecord) -> VerifyState {
    if faults(code, r).len() > 0 {
        VerifyState::Stale
    } else if r.provenance.files@.len() > 0 || r.provenance.symbols@.len() > 0 {
        VerifyState::Verified
    } else {
        VerifyState::Unverified
    }
}

/// Why an audit finds so: what no longer holds, then what commands call for attention.
pub open spec fn verdict_reasons(code: CodeState, r: MemoryRecord) -> Seq<Seq<char>> {
    if rests_on_nothing(r) {
        seq!["no provenance"@]
    } else {
        faults(code, r) + command_reasons(
            code,
            r.provenance.commands@,
            r.provenance.commands@.len() as int,
        )
    }
}

fn add_reason(reasons: &mut Vec<String>, r: Option<String>)
    ensures
        texts(final(reasons)@) == with_reason(texts(old(reasons)@), opt_text(r)),
{
    match r {
        Some(t) => {
            reasons.push(t);
            assert(texts(reasons@) =~= texts(old(reasons)@).push(t@));
        },
        None => {},
    }
}

/// Audit one record against the code.
pub fn audit_one_record(code: &CodeState, record: &MemoryRecord) -> (v: AuditVerdict)
    requires
        code.wf(),
    ensures
        v.state == verdict_state(*code, *record),
        texts(v.reasons@) == verdict_reasons(*code, *record),
{
    let prov = &record.provenance;
    if prov.files.len() == 0 && prov.symbols.len() == 0 && prov.commands.len() == 0 {
        let mut reasons: Vec<String> = Vec::new();
        reasons.push(String::from_str("no provenance"));
        assert(texts(reasons@) =~= seq!["no provenance"@]);
        return AuditVerdict { state: VerifyState::Unverified, reasons };
    }
    let mut reasons: Vec<String> = Vec::new();
    let mut i: usize = 0;
    assert(texts(reasons@) =~= Seq::empty());
    while i < prov.files.len()
        invariant
            code.wf(),
            prov == &record.provenance,
            i <= prov.files@.len(),
            texts(reasons@) == file_reasons(*code, prov.files@, i as int),
        decreases prov.files@.len() - i,
    {
        let r = check_file(code, &prov.files[i]);
        add_reason(&mut reasons, r);
        i += 1;
    }
    let ghost by_file = texts(reasons@);
    let mut j: usize = 0;
    assert(texts(reasons@) =~= by_file + symbol_reasons(*code, prov.symbols@, 0));
    while j < prov.symbols.len()
        invariant
            code.wf(),
            prov == &record.provenance,
            j <= prov.symbols@.len(),
            texts(reasons@) == by_file + symbol_reasons(*code, prov.symbols@, j as int),
        decreases prov.symbols@.len() - j,
    {
        let r = check_symbol(code, &prov.symbols[j]);
        let ghost sofar = texts(reasons@);
        let ghost why = opt_text(r);
        add_reason(&mut reasons, r);
        proof {
            assert(with_reason(sofar, why) =~= by_file + with_reason(
                symbol_reasons(*code, prov.symbols@, j as int),
                why,
            ));
        }
        j += 1;
    }
    let ghost failing = texts(reasons@);
    let stale: bool = reasons.len() > 0;
    assert(failing.len() == reasons@.len());
    let mut k: usize = 0;
    assert(texts(reasons@) =~= failing + command_reasons(*code, prov.commands@, 0));
    while k < prov.commands.len()
        invariant
            code.wf(),
            prov == &record.provenance,
            k <= prov.commands@.len(),
            texts(reasons@) == failing + command_reasons(*code, prov.commands@, k as int),
        decreases prov.commands@.len() - k,
    {
        let r = check_command(code, prov.commands[k].as_str());
        let ghost sofar = texts(reasons@);
        let ghost why = opt_text(r);
        add_reason(&mut reasons, r);
        proof {
            assert(with_reason(sofar, why) =~= failing + with_reason(
                command_reasons(*code, prov.commands@, k as int),
                why,
            ));
        }
        k += 1;
    }
    let state = if stale {
        VerifyState::Stale
    } else if prov.files.len() > 0 || prov.symbols.len() > 0 {
        VerifyState::Verified
    } else {
        VerifyState::Unverified
    };
    AuditVerdict { state, reasons }
}

proof fn lemma_file_reasons(code: CodeState, files: Seq<RelPath>, n: int)
    requires
        0 <= n <= files.len(),
    ensures
        (file_reasons(code, files, n).len() == 0) == (forall|i: int|
            0 <= i < n ==> file_table(code.files@).contains_key((#[trigger] files[i])@)),
    decreases n,
{
    if n > 0 {
        lemma_file_reasons(code, files, n - 1);
        if file_table(code.files@).contains_key(files[n - 1]@) {
            assert(file_reasons(code, files, n) == file_reasons(code, files, n - 1));
        } else {
            assert(file_reasons(code, files, n).len() > 0);
        }
    }
}

/// A memory that rests on files alone is stale exactly when one of them is gone from the code map.
pub proof fn law_stale_when_a_file_is_gone(code: CodeState, r: MemoryRecord)
    requires
        r.provenance.files@.len() > 0,
        r.provenance.symbols@.len() == 0,
    ensures
        verdict_state(code, r) != VerifyState::Unverified,
        (verdict_state(code, r) == VerifyState::Stale) == (exists|i: int|
            0 <= i < r.provenance.files@.len() && !file_table(code.files@).contains_key(
                (#[trigger] r.provenance.files@[i])@,
            )),
{
    lemma_file_reasons(code, r.provenance.files@, r.provenance.files@.len() as int);
}

/// Commands never make a memory stale: two records that differ in nothing but their commands get
/// the same verdict.
pub proof fn law_commands_only_warn(code: CodeState, a: MemoryRecord, b: MemoryRecord)
    requires
        a.provenance.files == b.provenance.files,
        a.provenance.symbols == b.provenance.symbols,
    ensures
        verdict_state(code, a) == verdict_state(code, b),
{
}

} // verus!
