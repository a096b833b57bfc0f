//! Structural fingerprints: a digest over the shape of a syntax tree that formatting and comments
//! do not move.
use vstd::prelude::*;
use vstd::utf8::{encode_utf8, valid_utf8};

use crate::digest::{blake3_digest, blake3_of};
use crate::history::{normal_form, normalize_for_history, HashMode};
use crate::keys::push_all;
use crate::model::{FileMapL1, Symbol, SymbolKind};
use crate::text::{same_str, utf8_text};

verus! {

/// A node of a parsed file: its grammar kind, its byte range, and its children.
#[derive(Debug)]
pub struct SyntaxNode {
    pub kind: String,
    pub start: usize,
    pub end: usize,
    /// A named grammar rule, as opposed to a token like `{`.
    pub named: bool,
    /// A comment or another node that may stand anywhere.
    pub extra: bool,
    pub children: Vec<SyntaxNode>,
}

// ─── Leaves ──────────────────────────────────────────────────────────────────

/// Whether a node kind is an identifier.
pub open spec fn identifier_kind(kind: Seq<char>) -> bool {
    ||| kind == "identifier"@
    ||| kind == "property_identifier"@
    ||| kind == "type_identifier"@
    ||| kind == "shorthand_property_identifier"@
    ||| kind == "shorthand_property_identifier_pattern"@
    ||| kind == "field_identifier"@
    ||| kind == "scoped_identifier"@
    ||| kind == "scoped_type_identifier"@
    ||| kind == "namespace_identifier"@
}

/// Whether a node kind is an identifier.
pub fn is_identifier_kind(kind: &str) -> (yes: bool)
    ensures
        yes == identifier_kind(kind@),
{
    same_str(kind, "identifier") || same_str(kind, "property_identifier") || same_str(
        kind,
        "type_identifier",
    ) || same_str(kind, "shorthand_property_identifier") || same_str(
        kind,
        "shorthand_property_identifier_pattern",
    ) || same_str(kind, "field_identifier") || same_str(kind, "scoped_identifier") || same_str(
        kind,
        "scoped_type_identifier",
    ) || same_str(kind, "namespace_identifier")
}

/// Whether a node kind is a literal in every language.
pub open spec fn common_literal(kind: Seq<char>) -> bool {
    ||| kind == "string"@
    ||| kind == "string_fragment"@
    ||| kind == "string_content"@
    ||| kind == "template_string"@
    ||| kind == "template_substitution"@
    ||| kind == "number"@
    ||| kind == "integer"@
    ||| kind == "float"@
    ||| kind == "true"@
    ||| kind == "false"@
    ||| kind == "null"@
    ||| kind == "none"@
}

/// Whether a node kind is a literal of Rust.
pub open spec fn rust_literal(kind: Seq<char>) -> bool {
    ||| kind == "char_literal"@
    ||| kind == "string_literal"@
    ||| kind == "byte_string_literal"@
    ||| kind == "raw_string_literal"@
    ||| kind == "integer_literal"@
    ||| kind == "float_literal"@
    ||| kind == "boolean_literal"@
}

/// Whether a node kind is a literal of Go.
pub open spec fn go_literal(kind: Seq<char>) -> bool {
    ||| kind == "interpreted_string_literal"@
    ||| kind == "raw_string_literal"@
    ||| kind == "rune_literal"@
    ||| kind == "int_literal"@
    ||| kind == "float_literal"@
    ||| kind == "imaginary_literal"@
}

/// Whether a node kind is a literal of a language.
pub open spec fn literal_kind(lang: Seq<char>, kind: Seq<char>) -> bool {
    common_literal(kind) || (lang == "rust"@ && rust_literal(kind)) || (lang == "go"@ && go_literal(
        kind,
    ))
}

/// Whether a node kind is a literal of a language.
pub fn is_literal_kind(lang: &str, kind: &str) -> (yes: bool)
    ensures
        yes == literal_kind(lang@, kind@),
{
    if same_str(kind, "string") || same_str(kind, "string_fragment") || same_str(
        kind,
        "string_content",
    ) || same_str(kind, "template_string") || same_str(kind, "template_substitution") || same_str(
        kind,
        "number",
    ) || same_str(kind, "integer") || same_str(kind, "float") || same_str(kind, "true") || same_str(
        kind,
        "false",
    ) || same_str(kind, "null") || same_str(kind, "none") {
        return true;
    }
    if same_str(lang, "rust") && (same_str(kind, "char_literal") || same_str(kind, "string_literal")
        || same_str(kind, "byte_string_literal") || same_str(kind, "raw_string_literal")
        || same_str(kind, "integer_literal") || same_str(kind, "float_literal") || same_str(
        kind,
        "boolean_literal",
    )) {
        return true;
    }
    same_str(lang, "go") && (same_str(kind, "interpreted_string_literal") || same_str(
        kind,
        "raw_string_literal",
    ) || same_str(kind, "rune_literal") || same_str(kind, "int_literal") || same_str(
        kind,
        "float_literal",
    ) || same_str(kind, "imaginary_literal"))
}

// ─── The digested bytes ──────────────────────────────────────────────────────

/// The four bytes of `n`, least significant first.
pub open spec fn le4(n: u32) -> Seq<u8> {
    seq![
        (n % 256) as u8,
        ((n / 256) % 256) as u8,
        ((n / 65536) % 256) as u8,
        (n / 16777216) as u8,
    ]
}

fn push_le4(out: &mut Vec<u8>, n: u32)
    ensures
        final(out)@ == old(out)@ + le4(n),
{
    let ghost before = out@;
    out.push((n % 256) as u8);
    out.push(((n / 256) % 256) as u8);
    out.push(((n / 65536) % 256) as u8);
    out.push((n / 16777216) as u8);
    assert(out@ =~= before + le4(n));
}

/// Whether a child enters the fingerprint: it is named and no comment.
pub open spec fn counts(n: SyntaxNode) -> bool {
    n.named && !n.extra
}

/// How many of the first `n` children enter the fingerprint.
pub open spec fn counted(children: Seq<SyntaxNode>, n: int) -> int
    decreases n,
{
    if n <= 0 {
        0
    } else {
        counted(children, n - 1) + (if counts(children[n - 1]) { 1int } else { 0 })
    }
}

/// What a leaf contributes after its kind: its text where that matters and is UTF-8, else nothing.
/// Both come with their length.
pub open spec fn leaf_feed(
    node: SyntaxNode,
    source: Seq<u8>,
    literals: bool,
    lang: Seq<char>,
) -> Seq<u8> {
    let text = source.subrange(node.start as int, node.end as int);
    if (identifier_kind(node.kind@) || (literals && literal_kind(lang, node.kind@))) && valid_utf8(
        text,
    ) {
        le4(text.len() as u32) + text
    } else {
        le4(0)
    }
}

/// The bytes that a subtree feeds into the digest: its kind, then the text of a leaf or the number
/// and bytes of the children that count.
pub open spec fn feed(node: SyntaxNode, source: Seq<u8>, literals: bool, lang: Seq<char>) -> Seq<u8>
    decreases node, node.children@.len() as int + 1,
{
    if node.extra {
        Seq::empty()
    } else {
        let kind = encode_utf8(node.kind@);
        let n = counted(node.children@, node.children@.len() as int);
        le4(kind.len() as u32) + kind + (if n == 0 {
            leaf_feed(node, source, literals, lang)
        } else {
            le4(n as u32) + feed_children(node, node.children@.len() as int, source, literals, lang)
        })
    }
}

/// The bytes of the first `n` children that count.
pub open spec fn feed_children(
    node: SyntaxNode,
    n: int,
    source: Seq<u8>,
    literals: bool,
    lang: Seq<char>,
) -> Seq<u8>
    decreases node, n,
    when 0 <= n <= node.children@.len()
{
    if n <= 0 {
        Seq::empty()
    } else if counts(node.children@[n - 1]) {
        feed_children(node, n - 1, source, literals, lang) + feed(
            node.children@[n - 1],
            source,
            literals,
            lang,
        )
    } else {
        feed_children(node, n - 1, source, literals, lang)
    }
}

/// Every range of the tree lies in a source of this length.
pub open spec fn fits(node: SyntaxNode, len: int) -> bool
    decreases node, node.children@.len() as int + 1,
{
    node.start <= node.end <= len && node.children@.len() <= u32::MAX && fits_children(
        node,
        node.children@.len() as int,
        len,
    )
}

/// Every range of the first `n` children lies in a source of this length.
pub open spec fn fits_children(node: SyntaxNode, n: int, len: int) -> bool
    decreases node, n,
    when 0 <= n <= node.children@.len()
{
    n <= 0 || (fits_children(node, n - 1, len) && fits(node.children@[n - 1], len))
}

pub(crate) proof fn lemma_child_fits(node: SyntaxNode, n: int, len: int, k: int)
    requires
        0 <= k < n <= node.children@.len(),
        fits_children(node, n, len),
    ensures
        fits(node.children@[k], len),
    decreases n,
{
    if k < n - 1 {
        lemma_child_fits(node, n - 1, len, k);
    }
}

fn count_children(children: &Vec<SyntaxNode>) -> (n: usize)
    ensures
        n == counted(children@, children@.len() as int),
        n <= children@.len(),
{
    let mut n: usize = 0;
    let mut i: usize = 0;
    while i < children.len()
        invariant
            i <= children@.len(),
            n == counted(children@, i as int),
            n <= i,
        decreases children.len() - i,
    {
        if children[i].named && !children[i].extra {
            n += 1;
        }
        i += 1;
    }
    n
}

/// Append the bytes that a subtree feeds into the digest.
pub fn walk_structural(
    node: &SyntaxNode,
    source: &[u8],
    include_literals: bool,
    lang: &str,
    out: &mut Vec<u8>,
)
    requires
        fits(*node, source@.len() as int),
    ensures
        final(out)@ == old(out)@ + feed(*node, source@, include_literals, lang@),
    decreases node,
{
    let ghost before = out@;
    if node.extra {
        assert(out@ =~= before + Seq::<u8>::empty());
        return;
    }
    let kind = node.kind.as_str().as_bytes();
    push_le4(out, kind.len() as u32);
    push_all(out, kind);
    let n: usize = count_children(&node.children);
    if n == 0 {
        let emit: bool = is_identifier_kind(node.kind.as_str()) || (include_literals
            && is_literal_kind(lang, node.kind.as_str()));
        let text = vstd::slice::slice_subrange(source, node.start, node.end);
        let readable: bool = match utf8_text(text) {
            Some(t) => {
                proof {
                    vstd::utf8::encode_utf8_valid_utf8(t@);
                }
                true
            },
            None => false,
        };
        if emit && readable {
            push_le4(out, text.len() as u32);
            push_all(out, text);
        } else {
            push_le4(out, 0);
        }
        assert(out@ =~= before + feed(*node, source@, include_literals, lang@));
        return;
    }
    push_le4(out, n as u32);
    let ghost head = out@;
    let mut i: usize = 0;
    assert(out@ =~= head + feed_children(*node, 0, source@, include_literals, lang@));
    while i < node.children.len()
        invariant
            i <= node.children@.len(),
            fits(*node, source@.len() as int),
            out@ == head + feed_children(*node, i as int, source@, include_literals, lang@),
        decreases node.children.len() - i,
    {
        let child = &node.children[i];
        let ghost was = out@;
        if child.named && !child.extra {
            proof {
                lemma_child_fits(
                    *node,
                    node.children@.len() as int,
                    source@.len() as int,
                    i as int,
                );
            }
            assert(decreases_to!(*node => node.children@[i as int]));
            walk_structural(child, source, include_literals, lang, out);
        }
        i += 1;
        assert(out@ =~= head + feed_children(*node, i as int, source@, include_literals, lang@));
    }
    assert(out@ =~= before + feed(*node, source@, include_literals, lang@));
}

// ─── The node of a range ─────────────────────────────────────────────────────

/// Whether a node spans exactly `start..end`.
pub open spec fn exact(n: SyntaxNode, start: int, end: int) -> bool {
    n.start == start && n.end == end
}

/// Whether a node spans `start..end` and perhaps more.
pub open spec fn spans(n: SyntaxNode, start: int, end: int) -> bool {
    n.start <= start && n.end >= end
}

/// The nodes around `start..end`: a node before its children, later children before earlier ones.
pub open spec fn visited(node: SyntaxNode, start: int, end: int) -> Seq<SyntaxNode>
    decreases node, node.children@.len() as int + 1,
{
    if spans(node, start, end) {
        seq![node] + visited_children(node, node.children@.len() as int, start, end)
    } else {
        Seq::empty()
    }
}

/// The nodes around `start..end` below the first `n` children.
pub open spec fn visited_children(node: SyntaxNode, n: int, start: int, end: int) -> Seq<SyntaxNode>
    decreases node, n,
    when 0 <= n <= node.children@.len()
{
    if n <= 0 {
        Seq::empty()
    } else {
        visited(node.children@[n - 1], start, end) + visited_children(node, n - 1, start, end)
    }
}

/// The better of two nodes: an exact one once found, else the shorter one, the earlier on a tie.
pub open spec fn better(
    best: Option<SyntaxNode>,
    n: SyntaxNode,
    start: int,
    end: int,
) -> Option<SyntaxNode> {
    match best {
        None => Some(n),
        Some(b) => if exact(b, start, end) {
            Some(b)
        } else if exact(n, start, end) || n.end - n.start < b.end - b.start {
            Some(n)
        } else {
            Some(b)
        },
    }
}

/// The best of `best` and the nodes of `list`.
pub open spec fn best_of(
    best: Option<SyntaxNode>,
    list: Seq<SyntaxNode>,
    start: int,
    end: int,
) -> Option<SyntaxNode>
    decreases list.len(),
{
    if list.len() == 0 {
        best
    } else {
        best_of(better(best, list[0], start, end), list.drop_first(), start, end)
    }
}

proof fn lemma_best_add(
    best: Option<SyntaxNode>,
    a: Seq<SyntaxNode>,
    b: Seq<SyntaxNode>,
    start: int,
    end: int,
)
    ensures
        best_of(best, a + b, start, end) == best_of(best_of(best, a, start, end), b, start, end),
    decreases a.len(),
{
    if a.len() == 0 {
        assert(a + b =~= b);
    } else {
        assert((a + b).drop_first() =~= a.drop_first() + b);
        lemma_best_add(better(best, a[0], start, end), a.drop_first(), b, start, end);
    }
}

/// The node that an optional reference points at.
pub open spec fn pointed(n: Option<&SyntaxNode>) -> Option<SyntaxNode> {
    match n {
        Some(x) => Some(*x),
        None => None,
    }
}

fn search<'a>(
    node: &'a SyntaxNode,
    start: usize,
    end: usize,
    best: Option<&'a SyntaxNode>,
) -> (found: Option<&'a SyntaxNode>)
    requires
        fits(*node, usize::MAX as int),
        best is Some ==> best->0.start <= best->0.end,
    ensures
        pointed(found) == best_of(
            pointed(best),
            visited(*node, start as int, end as int),
            start as int,
            end as int,
        ),
        found is Some ==> found->0.start <= found->0.end,
    decreases node,
{
    if !(node.start <= start && node.end >= end) {
        return best;
    }
    let ghost s = start as int;
    let ghost e = end as int;
    let mut now: Option<&'a SyntaxNode> = match best {
        None => Some(node),
        Some(b) => if b.start == start && b.end == end {
            Some(b)
        } else if (node.start == start && node.end == end) || node.end - node.start < b.end
            - b.start {
            Some(node)
        } else {
            Some(b)
        },
    };
    let mut n: usize = node.children.len();
    let ghost total = n as int;
    proof {
        let list = visited(*node, s, e);
        assert(list[0] == *node);
        assert(list.drop_first() =~= visited_children(*node, total, s, e));
        assert(pointed(now) == better(pointed(best), *node, s, e));
        assert(best_of(pointed(best), list, s, e) == best_of(
            pointed(now),
            visited_children(*node, total, s, e),
            s,
            e,
        ));
    }
    while n > 0
        invariant
            n <= node.children@.len(),
            s == start,
            e == end,
            fits(*node, usize::MAX as int),
            best_of(pointed(now), visited_children(*node, n as int, s, e), s, e) == best_of(
                pointed(best),
                visited(*node, s, e),
                s,
                e,
            ),
            now is Some ==> now->0.start <= now->0.end,
        decreases n,
    {
        let child = &node.children[n - 1];
        proof {
            lemma_child_fits(*node, node.children@.len() as int, usize::MAX as int, n - 1);
            lemma_best_add(
                pointed(now),
                visited(node.children@[n - 1], s, e),
                visited_children(*node, n - 1, s, e),
                s,
                e,
            );
            assert(decreases_to!(*node => node.children@[n - 1]));
        }
        now = search(child, start, end, now);
        n -= 1;
    }
    now
}

/// The node of the range `start..end`: one that spans exactly it, else the shortest that covers
/// it. `None` where the root does not cover it.
pub fn find_node_for_range(root: &SyntaxNode, start: usize, end: usize) -> (found: Option<&SyntaxNode>)
    requires
        fits(*root, usize::MAX as int),
    ensures
        pointed(found) == best_of(
            None,
            visited(*root, start as int, end as int),
            start as int,
            end as int,
        ),
{
    search(root, start, end, None)
}

// ─── Fingerprints ────────────────────────────────────────────────────────────

/// The structural digest of the symbol at `start..end`, given the parsed file. `None` where there
/// is no parse, or no node covers the symbol.
pub fn structural_hash_of_symbol(
    tree: Option<&SyntaxNode>,
    lang: &str,
    source: &[u8],
    range: (usize, usize),
    include_literals: bool,
) -> (hash: Option<Vec<u8>>)
    requires
        tree is Some ==> fits(*tree->0, source@.len() as int),
    ensures
        match hash {
            Some(h) => tree is Some && structural_digest(
                *tree->0,
                lang@,
                source@,
                range,
                include_literals,
            ) == Some(h@),
            None => tree is Some ==> structural_digest(
                *tree->0,
                lang@,
                source@,
                range,
                include_literals,
            ) is None,
        },
{
    let root = match tree {
        Some(t) => t,
        None => {
            return None;
        },
    };
    let len: usize = source.len();
    proof {
        lemma_fits_grows(*root, len as int, usize::MAX as int);
    }
    match find_node_for_range(root, range.0, range.1) {
        Some(node) => {
            proof {
                let list = visited(*root, range.0 as int, range.1 as int);
                lemma_best_member(None, list, range.0 as int, range.1 as int);
                lemma_visited_fit(*root, source@.len() as int, range.0 as int, range.1 as int);
                assert(list.contains(*node));
                let k = list.index_of(*node);
                assert(fits(list[k], source@.len() as int));
            }
            let mut bytes: Vec<u8> = Vec::new();
            walk_structural(node, source, include_literals, lang, &mut bytes);
            assert(bytes@ =~= feed(*node, source@, include_literals, lang@));
            Some(blake3_digest(bytes.as_slice()))
        },
        None => None,
    }
}

/// The structural digest of a range of a parsed file.
pub open spec fn structural_digest(
    root: SyntaxNode,
    lang: Seq<char>,
    source: Seq<u8>,
    range: (usize, usize),
    literals: bool,
) -> Option<Seq<u8>> {
    match best_of(
        None,
        visited(root, range.0 as int, range.1 as int),
        range.0 as int,
        range.1 as int,
    ) {
        Some(n) => Some(blake3_of(feed(n, source, literals, lang))),
        None => None,
    }
}

proof fn lemma_fits_grows(node: SyntaxNode, a: int, b: int)
    requires
        fits(node, a),
        a <= b,
    ensures
        fits(node, b),
    decreases node, node.children@.len() as int + 1,
{
    lemma_fits_children_grows(node, node.children@.len() as int, a, b);
}

proof fn lemma_fits_children_grows(node: SyntaxNode, n: int, a: int, b: int)
    requires
        0 <= n <= node.children@.len(),
        fits_children(node, n, a),
        a <= b,
    ensures
        fits_children(node, n, b),
    decreases node, n,
{
    if n > 0 {
        lemma_fits_children_grows(node, n - 1, a, b);
        assert(decreases_to!(node => node.children@[n - 1]));
        lemma_fits_grows(node.children@[n - 1], a, b);
    }
}

pub(crate) proof fn lemma_best_member(
    best: Option<SyntaxNode>,
    list: Seq<SyntaxNode>,
    start: int,
    end: int,
)
    ensures
        best_of(best, list, start, end) == best || (best_of(best, list, start, end) is Some
            && list.contains(best_of(best, list, start, end)->0)),
    decreases list.len(),
{
    if list.len() > 0 {
        let next = better(best, list[0], start, end);
        let rest = list.drop_first();
        lemma_best_member(next, rest, start, end);
        let r = best_of(next, rest, start, end);
        if r == next {
            if next != best {
                assert(list[0] == r->0);
            }
        } else {
            let k = rest.index_of(r->0);
            assert(list[k + 1] == r->0);
        }
    }
}

proof fn lemma_visited_fit(node: SyntaxNode, len: int, start: int, end: int)
    requires
        fits(node, len),
    ensures
        forall|k: int|
            0 <= k < visited(node, start, end).len() ==> fits(
                #[trigger] visited(node, start, end)[k],
                len,
            ),
    decreases node, node.children@.len() as int + 1,
{
    if spans(node, start, end) {
        lemma_visited_children_fit(node, node.children@.len() as int, len, start, end);
        let below = visited_children(node, node.children@.len() as int, start, end);
        let all = visited(node, start, end);
        assert forall|k: int| 0 <= k < all.len() implies fits(#[trigger] all[k], len) by {
            if k > 0 {
                assert(all[k] == below[k - 1]);
            }
        }
    }
}

proof fn lemma_visited_children_fit(node: SyntaxNode, n: int, len: int, start: int, end: int)
    requires
        0 <= n <= node.children@.len(),
        fits_children(node, n, len),
    ensures
        forall|k: int|
            0 <= k < visited_children(node, n, start, end).len() ==> fits(
                #[trigger] visited_children(node, n, start, end)[k],
                len,
            ),
    decreases node, n,
{
    if n > 0 {
        assert(decreases_to!(node => node.children@[n - 1]));
        lemma_visited_fit(node.children@[n - 1], len, start, end);
        lemma_visited_children_fit(node, n - 1, len, start, end);
        let a = visited(node.children@[n - 1], start, end);
        let b = visited_children(node, n - 1, start, end);
        let all = visited_children(node, n, start, end);
        assert forall|k: int| 0 <= k < all.len() implies fits(#[trigger] all[k], len) by {
            if k < a.len() {
                assert(all[k] == a[k]);
            } else {
                assert(all[k] == b[k - a.len()]);
            }
        }
    }
}

/// The first symbol with this name and, where one is asked for, this kind.
pub open spec fn first_named(
    symbols: Seq<Symbol>,
    name: Seq<char>,
    kind: Option<SymbolKind>,
) -> Option<int> {
    if exists|i: int| is_first_named(symbols, name, kind, i) {
        Some(choose|i: int| is_first_named(symbols, name, kind, i))
    } else {
        None
    }
}

/// Whether a symbol has this name and, where one is asked for, this kind.
pub open spec fn is_named(sym: Symbol, name: Seq<char>, kind: Option<SymbolKind>) -> bool {
    sym.name@ == name && (kind is None || kind == Some(sym.kind))
}

/// `i` is the first symbol with this name and kind.
pub open spec fn is_first_named(
    symbols: Seq<Symbol>,
    name: Seq<char>,
    kind: Option<SymbolKind>,
    i: int,
) -> bool {
    0 <= i < symbols.len() && is_named(symbols[i], name, kind) && forall|j: int|
        0 <= j < i ==> !is_named(#[trigger] symbols[j], name, kind)
}

/// The first symbol with this name and, where one is asked for, this kind.
pub fn find_symbol(symbols: &Vec<Symbol>, name: &str, kind: Option<SymbolKind>) -> (at: Option<usize>)
    ensures
        match at {
            Some(i) => first_named(symbols@, name@, kind) == Some(i as int) && is_first_named(
                symbols@,
                name@,
                kind,
                i as int,
            ),
            None => first_named(symbols@, name@, kind) is None && forall|j: int|
                0 <= j < symbols@.len() ==> !is_named(#[trigger] symbols@[j], name@, kind),
        },
{
    let mut i: usize = 0;
    while i < symbols.len()
        invariant
            i <= symbols@.len(),
            forall|j: int| 0 <= j < i ==> !is_named(#[trigger] symbols@[j], name@, kind),
        decreases symbols.len() - i,
    {
        let kind_ok: bool = match kind {
            Some(k) => symbols[i].kind == k,
            None => true,
        };
        if kind_ok && same_str(symbols[i].name.as_str(), name) {
            proof {
                assert(is_first_named(symbols@, name@, kind, i as int));
                let k = first_named(symbols@, name@, kind)->0;
                assert(is_first_named(symbols@, name@, kind, k));
                if k < i {
                    assert(!is_named(symbols@[k], name@, kind));
                } else if i < k {
                    assert(!is_named(symbols@[i as int], name@, kind));
                }
            }
            return Some(i);
        }
        i += 1;
    }
    None
}

/// The bytes of a symbol: from its start to its end, but no further than the source reaches.
pub open spec fn symbol_end(sym: Symbol, len: int) -> int {
    if (sym.end_byte as int) < len {
        sym.end_byte as int
    } else {
        len
    }
}

/// The fingerprint of the symbol of this name: its normalized bytes, or the digest of its shape.
pub open spec fn fingerprint(
    map: FileMapL1,
    source: Seq<u8>,
    tree: Option<SyntaxNode>,
    name: Seq<char>,
    kind: Option<SymbolKind>,
    lang: Seq<char>,
    mode: HashMode,
) -> Option<Seq<u8>> {
    match first_named(map.symbols@, name, kind) {
        None => None,
        Some(i) => {
            let s = map.symbols@[i].start_byte as int;
            let e = symbol_end(map.symbols@[i], source.len() as int);
            if s >= e {
                None
            } else if mode == HashMode::Normalized {
                Some(normal_form(lang, source.subrange(s, e)))
            } else {
                match tree {
                    Some(t) => structural_digest(
                        t,
                        lang,
                        source,
                        (s as usize, e as usize),
                        mode == HashMode::StructuralExact,
                    ),
                    None => None,
                }
            }
        },
    }
}

/// The fingerprint of a symbol, by which revisions of its body are compared. `None` where the
/// symbol is absent or empty, or the mode needs a parse and there is none.
pub fn symbol_fingerprint(
    map: &FileMapL1,
    source: &[u8],
    tree: Option<&SyntaxNode>,
    name: &str,
    kind: Option<SymbolKind>,
    lang: &str,
    mode: HashMode,
) -> (print: Option<Vec<u8>>)
    requires
        tree is Some ==> fits(*tree->0, source@.len() as int),
    ensures
        (match print {
            Some(p) => Some(p@),
            None => None,
        }) == fingerprint(*map, source@, pointed(tree), name@, kind, lang@, mode),
{
    let i: usize = match find_symbol(&map.symbols, name, kind) {
        Some(i) => i,
        None => {
            return None;
        },
    };
    let sym = &map.symbols[i];
    let s: usize = sym.start_byte as usize;
    let e: usize = if (sym.end_byte as usize) < source.len() {
        sym.end_byte as usize
    } else {
        source.len()
    };
    if s >= e {
        return None;
    }
    match mode {
        HashMode::Normalized => Some(
            normalize_for_history(lang, vstd::slice::slice_subrange(source, s, e)),
        ),
        HashMode::StructuralExact => structural_hash_of_symbol(tree, lang, source, (s, e), true),
        HashMode::StructuralLoose => structural_hash_of_symbol(tree, lang, source, (s, e), false),
    }
}

/// Comments do not move a fingerprint: a child that is an extra node feeds nothing and is not
/// counted.
pub proof fn law_extras_are_ignored(node: SyntaxNode, n: int, source: Seq<u8>, literals: bool, lang: Seq<char>)
    requires
        0 < n <= node.children@.len(),
        node.children@[n - 1].extra,
    ensures
        feed_children(node, n, source, literals, lang) == feed_children(
            node,
            n - 1,
            source,
            literals,
            lang,
        ),
        counted(node.children@, n) == counted(node.children@, n - 1),
{
}

/// Whether two sources read alike wherever the tree has an identifier.
pub open spec fn same_names(node: SyntaxNode, a: Seq<u8>, b: Seq<u8>) -> bool
    decreases node, node.children@.len() as int + 1,
{
    &&& counted(node.children@, node.children@.len() as int) == 0 && identifier_kind(node.kind@)
        ==> a.subrange(node.start as int, node.end as int) == b.subrange(
        node.start as int,
        node.end as int,
    )
    &&& same_names_below(node, node.children@.len() as int, a, b)
}

/// Whether two sources read alike wherever the first `n` children that count have an identifier.
pub open spec fn same_names_below(node: SyntaxNode, n: int, a: Seq<u8>, b: Seq<u8>) -> bool
    decreases node, n,
    when 0 <= n <= node.children@.len()
{
    n <= 0 || (same_names_below(node, n - 1, a, b) && (counts(node.children@[n - 1]) ==> same_names(
        node.children@[n - 1],
        a,
        b,
    )))
}

/// The loose fingerprint ignores what literals hold: two sources that read alike wherever the tree
/// has an identifier feed the same.
pub proof fn law_loose_ignores_literals(node: SyntaxNode, a: Seq<u8>, b: Seq<u8>, lang: Seq<char>)
    requires
        same_names(node, a, b),
    ensures
        feed(node, a, false, lang) == feed(node, b, false, lang),
    decreases node, node.children@.len() as int + 1,
{
    lemma_loose_below(node, node.children@.len() as int, a, b, lang);
}

proof fn lemma_loose_below(node: SyntaxNode, n: int, a: Seq<u8>, b: Seq<u8>, lang: Seq<char>)
    requires
        0 <= n <= node.children@.len(),
        same_names_below(node, n, a, b),
    ensures
        feed_children(node, n, a, false, lang) == feed_children(node, n, b, false, lang),
    decreases node, n,
{
    if n > 0 {
        lemma_loose_below(node, n - 1, a, b, lang);
        if counts(node.children@[n - 1]) {
            law_loose_ignores_literals(node.children@[n - 1], a, b, lang);
        }
    }
}

/// What a fingerprint sees of a subtree: kinds, the text of leaves where it matters, and the
/// children that count. Positions, comments and unnamed nodes are not part of it.
pub struct Shape {
    pub kind: Seq<char>,
    pub text: Seq<u8>,
    pub children: Seq<Shape>,
}

/// The text that a leaf contributes.
pub open spec fn leaf_text(node: SyntaxNode, source: Seq<u8>, literals: bool, lang: Seq<char>) -> Seq<u8> {
    let text = source.subrange(node.start as int, node.end as int);
    if (identifier_kind(node.kind@) || (literals && literal_kind(lang, node.kind@))) && valid_utf8(
        text,
    ) {
        text
    } else {
        Seq::empty()
    }
}

/// The shape of a subtree.
pub open spec fn shape_of(node: SyntaxNode, source: Seq<u8>, literals: bool, lang: Seq<char>) -> Shape
    decreases node, node.children@.len() as int + 1,
{
    let leaf = counted(node.children@, node.children@.len() as int) == 0;
    Shape {
        kind: node.kind@,
        text: if leaf {
            leaf_text(node, source, literals, lang)
        } else {
            Seq::empty()
        },
        children: shapes_below(node, node.children@.len() as int, source, literals, lang),
    }
}

/// The shapes of the first `n` children that count.
pub open spec fn shapes_below(
    node: SyntaxNode,
    n: int,
    source: Seq<u8>,
    literals: bool,
    lang: Seq<char>,
) -> Seq<Shape>
    decreases node, n,
    when 0 <= n <= node.children@.len()
{
    if n <= 0 {
        Seq::empty()
    } else if counts(node.children@[n - 1]) {
        shapes_below(node, n - 1, source, literals, lang).push(
            shape_of(node.children@[n - 1], source, literals, lang),
        )
    } else {
        shapes_below(node, n - 1, source, literals, lang)
    }
}

/// The bytes that a shape feeds.
pub open spec fn shape_feed(s: Shape) -> Seq<u8>
    decreases s, s.children.len() as int + 1,
{
    let kind = encode_utf8(s.kind);
    le4(kind.len() as u32) + kind + (if s.children.len() == 0 {
        le4(s.text.len() as u32) + s.text
    } else {
        le4(s.children.len() as u32) + shape_feeds(s, s.children.len() as int)
    })
}

/// The bytes that the first `n` children of a shape feed.
pub open spec fn shape_feeds(s: Shape, n: int) -> Seq<u8>
    decreases s, n,
    when 0 <= n <= s.children.len()
{
    if n <= 0 {
        Seq::empty()
    } else {
        shape_feeds(s, n - 1) + shape_feed(s.children[n - 1])
    }
}

/// A fingerprint is one of the shape alone: what is not part of the shape does not move it.
pub proof fn law_feed_is_of_the_shape(node: SyntaxNode, source: Seq<u8>, literals: bool, lang: Seq<char>)
    requires
        !node.extra,
    ensures
        feed(node, source, literals, lang) == shape_feed(shape_of(node, source, literals, lang)),
    decreases node, node.children@.len() as int + 1,
{
    let shape = shape_of(node, source, literals, lang);
    lemma_below(node, node.children@.len() as int, source, literals, lang, shape);
    assert(leaf_feed(node, source, literals, lang) =~= le4(
        leaf_text(node, source, literals, lang).len() as u32,
    ) + leaf_text(node, source, literals, lang));
}

proof fn lemma_below(
    node: SyntaxNode,
    n: int,
    source: Seq<u8>,
    literals: bool,
    lang: Seq<char>,
    shape: Shape,
)
    requires
        0 <= n <= node.children@.len(),
        shape.children.len() >= shapes_below(node, n, source, literals, lang).len(),
        forall|i: int|
            0 <= i < shapes_below(node, n, source, literals, lang).len()
                ==> #[trigger] shape.children[i] == shapes_below(node, n, source, literals, lang)[i],
    ensures
        shapes_below(node, n, source, literals, lang).len() == counted(node.children@, n),
        feed_children(node, n, source, literals, lang) == shape_feeds(
            shape,
            counted(node.children@, n),
        ),
    decreases node, n,
{
    if n > 0 {
        let below = shapes_below(node, n - 1, source, literals, lang);
        assert forall|i: int| 0 <= i < below.len() implies #[trigger] shape.children[i] == below[i] by {
            assert(shapes_below(node, n, source, literals, lang)[i] == below[i]);
        }
        lemma_below(node, n - 1, source, literals, lang, shape);
        if counts(node.children@[n - 1]) {
            law_feed_is_of_the_shape(node.children@[n - 1], source, literals, lang);
            assert(shape.children[below.len() as int] == shape_of(
                node.children@[n - 1],
                source,
                literals,
                lang,
            ));
        }
    }
}

/// Whether two shapes have the same kinds at the same places.
pub open spec fn same_frame(s: Shape, t: Shape) -> bool
    decreases s, s.children.len() as int + 1,
{
    s.kind == t.kind && s.children.len() == t.children.len() && same_frames(
        s,
        t,
        s.children.len() as int,
    )
}

/// Whether the first `n` children of two shapes have the same kinds at the same places.
pub open spec fn same_frames(s: Shape, t: Shape, n: int) -> bool
    decreases s, n,
    when 0 <= n <= s.children.len()
{
    n <= 0 || (same_frames(s, t, n - 1) && same_frame(s.children[n - 1], t.children[n - 1]))
}

/// Whether no number in the shape goes over four bytes, and branches have no text.
pub open spec fn measured(s: Shape) -> bool
    decreases s, s.children.len() as int + 1,
{
    &&& s.text.len() <= u32::MAX
    &&& s.children.len() > 0 ==> s.text.len() == 0
    &&& s.children.len() <= u32::MAX
    &&& all_measured(s, s.children.len() as int)
}

/// Whether that holds of the first `n` children.
pub open spec fn all_measured(s: Shape, n: int) -> bool
    decreases s, n,
    when 0 <= n <= s.children.len()
{
    n <= 0 || (all_measured(s, n - 1) && measured(s.children[n - 1]))
}

pub(crate) proof fn lemma_le4(a: u32, b: u32)
    requires
        le4(a) == le4(b),
    ensures
        a == b,
{
    let x = le4(a);
    assert(a == x[0] as int + 256 * x[1] as int + 65536 * x[2] as int + 16777216 * x[3] as int);
    assert(b == x[0] as int + 256 * x[1] as int + 65536 * x[2] as int + 16777216 * x[3] as int);
}

pub(crate) proof fn lemma_cut<T>(a: Seq<T>, x: Seq<T>, b: Seq<T>, y: Seq<T>)
    requires
        a + x == b + y,
        a.len() == b.len(),
    ensures
        a == b,
        x == y,
{
    assert(a =~= (a + x).take(a.len() as int));
    assert(b =~= (b + y).take(a.len() as int));
    assert(x =~= (a + x).skip(a.len() as int));
    assert(y =~= (b + y).skip(a.len() as int));
}

pub(crate) proof fn lemma_apart(s: Shape, t: Shape, x: Seq<u8>, y: Seq<u8>)
    requires
        same_frame(s, t),
        measured(s),
        measured(t),
        shape_feed(s) + x == shape_feed(t) + y,
    ensures
        s == t,
        x == y,
    decreases s, s.children.len() as int + 1,
{
    let kind = encode_utf8(s.kind);
    let head = le4(kind.len() as u32) + kind;
    let n = s.children.len() as int;
    if n == 0 {
        let a = le4(s.text.len() as u32);
        let b = le4(t.text.len() as u32);
        assert(shape_feed(s) + x =~= head + (a + (s.text + x)));
        assert(shape_feed(t) + y =~= head + (b + (t.text + y)));
        lemma_cut(head, a + (s.text + x), head, b + (t.text + y));
        lemma_cut(a, s.text + x, b, t.text + y);
        lemma_le4(s.text.len() as u32, t.text.len() as u32);
        lemma_cut(s.text, x, t.text, y);
        assert(s.children =~= t.children);
    } else {
        let a = le4(n as u32);
        assert(shape_feed(s) + x =~= head + (a + (shape_feeds(s, n) + x)));
        assert(shape_feed(t) + y =~= head + (a + (shape_feeds(t, n) + y)));
        lemma_cut(head, a + (shape_feeds(s, n) + x), head, a + (shape_feeds(t, n) + y));
        lemma_cut(a, shape_feeds(s, n) + x, a, shape_feeds(t, n) + y);
        lemma_feeds_from(s, 0);
        lemma_feeds_from(t, 0);
        assert(shape_feeds(s, 0) + feeds_from(s, 0) =~= feeds_from(s, 0));
        assert(shape_feeds(t, 0) + feeds_from(t, 0) =~= feeds_from(t, 0));
        lemma_all_apart(s, t, 0, x, y);
        assert(s.text =~= t.text);
        assert(s.children =~= t.children);
    }
}

/// The bytes of the children from `k` on.
spec fn feeds_from(s: Shape, k: int) -> Seq<u8>
    decreases s.children.len() - k,
{
    if k >= s.children.len() {
        Seq::empty()
    } else {
        shape_feed(s.children[k]) + feeds_from(s, k + 1)
    }
}

proof fn lemma_feeds_from(s: Shape, k: int)
    requires
        0 <= k <= s.children.len(),
    ensures
        shape_feeds(s, k) + feeds_from(s, k) == shape_feeds(s, s.children.len() as int),
    decreases s.children.len() - k,
{
    if k < s.children.len() {
        lemma_feeds_from(s, k + 1);
        assert(shape_feeds(s, k) + feeds_from(s, k) =~= shape_feeds(s, k + 1) + feeds_from(
            s,
            k + 1,
        ));
    } else {
        assert(shape_feeds(s, k) + feeds_from(s, k) =~= shape_feeds(s, k));
    }
}

proof fn lemma_child(s: Shape, t: Shape, n: int, k: int)
    requires
        0 <= k < n <= s.children.len(),
        n <= t.children.len(),
        same_frames(s, t, n),
        all_measured(s, n),
        all_measured(t, n),
    ensures
        same_frame(s.children[k], t.children[k]),
        measured(s.children[k]),
        measured(t.children[k]),
    decreases n,
{
    if k < n - 1 {
        lemma_child(s, t, n - 1, k);
    }
}

proof fn lemma_all_apart(s: Shape, t: Shape, k: int, x: Seq<u8>, y: Seq<u8>)
    requires
        same_frame(s, t),
        measured(s),
        measured(t),
        0 <= k <= s.children.len(),
        feeds_from(s, k) + x == feeds_from(t, k) + y,
    ensures
        forall|i: int| k <= i < s.children.len() ==> #[trigger] s.children[i] == t.children[i],
        x == y,
    decreases s, s.children.len() - k,
{
    if k < s.children.len() {
        let rest = feeds_from(s, k + 1) + x;
        let other = feeds_from(t, k + 1) + y;
        lemma_child(s, t, s.children.len() as int, k);
        assert(feeds_from(s, k) + x =~= shape_feed(s.children[k]) + rest);
        assert(feeds_from(t, k) + y =~= shape_feed(t.children[k]) + other);
        lemma_apart(s.children[k], t.children[k], rest, other);
        lemma_all_apart(s, t, k + 1, x, y);
    } else {
        assert(feeds_from(s, k) + x =~= x);
        assert(feeds_from(t, k) + y =~= y);
    }
}

pub(crate) proof fn lemma_shape_measured(node: SyntaxNode, source: Seq<u8>, literals: bool, lang: Seq<char>)
    requires
        fits(node, source.len() as int),
        source.len() <= u32::MAX,
    ensures
        measured(shape_of(node, source, literals, lang)),
    decreases node, node.children@.len() as int + 1,
{
    let shape = shape_of(node, source, literals, lang);
    lemma_shapes_measured(node, node.children@.len() as int, source, literals, lang, shape);
}

proof fn lemma_shapes_measured(
    node: SyntaxNode,
    n: int,
    source: Seq<u8>,
    literals: bool,
    lang: Seq<char>,
    shape: Shape,
)
    requires
        0 <= n <= node.children@.len(),
        fits_children(node, n, source.len() as int),
        source.len() <= u32::MAX,
        shape.children.len() >= shapes_below(node, n, source, literals, lang).len(),
        forall|i: int|
            0 <= i < shapes_below(node, n, source, literals, lang).len()
                ==> #[trigger] shape.children[i] == shapes_below(node, n, source, literals, lang)[i],
    ensures
        shapes_below(node, n, source, literals, lang).len() == counted(node.children@, n) <= n,
        all_measured(shape, counted(node.children@, n)),
    decreases node, n,
{
    if n > 0 {
        let below = shapes_below(node, n - 1, source, literals, lang);
        assert forall|i: int| 0 <= i < below.len() implies #[trigger] shape.children[i] == below[i] by {
            assert(shapes_below(node, n, source, literals, lang)[i] == below[i]);
        }
        lemma_shapes_measured(node, n - 1, source, literals, lang, shape);
        if counts(node.children@[n - 1]) {
            lemma_shape_measured(node.children@[n - 1], source, literals, lang);
            assert(shape.children[below.len() as int] == shape_of(
                node.children@[n - 1],
                source,
                literals,
                lang,
            ));
        }
    }
}

/// What is fed tells texts apart: two subtrees with the same kinds at the same places feed the same
/// bytes only where every identifier, and every literal that matters, reads alike. So to rename an
/// identifier always moves what is fed.
pub proof fn law_feed_tells_texts_apart(
    a: SyntaxNode,
    b: SyntaxNode,
    source: Seq<u8>,
    other: Seq<u8>,
    literals: bool,
    lang: Seq<char>,
)
    requires
        !a.extra,
        !b.extra,
        fits(a, source.len() as int),
        fits(b, other.len() as int),
        source.len() <= u32::MAX,
        other.len() <= u32::MAX,
        same_frame(shape_of(a, source, literals, lang), shape_of(b, other, literals, lang)),
    ensures
        (feed(a, source, literals, lang) == feed(b, other, literals, lang)) == (shape_of(
            a,
            source,
            literals,
            lang,
        ) == shape_of(b, other, literals, lang)),
{
    let s = shape_of(a, source, literals, lang);
    let t = shape_of(b, other, literals, lang);
    law_feed_is_of_the_shape(a, source, literals, lang);
    law_feed_is_of_the_shape(b, other, literals, lang);
    lemma_shape_measured(a, source, literals, lang);
    lemma_shape_measured(b, other, literals, lang);
    if feed(a, source, literals, lang) == feed(b, other, literals, lang) {
        lemma_apart(s, t, Seq::empty(), Seq::empty());
    }
}

} // verus!
