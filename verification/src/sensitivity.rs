//! What moves a fingerprint and what does not.
use vstd::prelude::*;
use vstd::utf8::{encode_utf8, valid_utf8};

use crate::digest::blake3_of;
use crate::history::{normal_form, HashMode};
use crate::model::{FileMapL1, SymbolKind};
use crate::syntax::{
    best_of, better, counted, counts, feed, feed_children, fingerprint, first_named, fits,
    is_first_named, is_identifier_kind, is_literal_kind, is_named, le4, leaf_feed, leaf_text,
    lemma_best_member, lemma_cut, lemma_le4, same_frame, same_frames, shape_of, shapes_below,
    visited, visited_children, Shape, SyntaxNode,
};

verus! {

// ─── The text of leaves ──────────────────────────────────────────────────────

/// The node that `path` leads to from `node`: at each step it names a child that is named and no
/// comment.
pub open spec fn descendant(node: SyntaxNode, path: Seq<int>) -> Option<SyntaxNode>
    decreases path.len(),
{
    if path.len() == 0 {
        Some(node)
    } else if 0 <= path[0] < node.children@.len() && node.children@[path[0]].named
        && !node.children@[path[0]].extra {
        descendant(node.children@[path[0]], path.drop_first())
    } else {
        None
    }
}

/// The node is a leaf: it has no child that is named and no comment.
pub open spec fn is_leaf(node: SyntaxNode) -> bool {
    forall|i: int|
        0 <= i < node.children@.len() ==> !(#[trigger] node.children@[i]).named
            || node.children@[i].extra
}

proof fn lemma_leaf(node: SyntaxNode, n: int)
    requires
        is_leaf(node),
        0 <= n <= node.children@.len(),
    ensures
        counted(node.children@, n) == 0,
    decreases n,
{
    if n > 0 {
        lemma_leaf(node, n - 1);
        assert(!node.children@[n - 1].named || node.children@[n - 1].extra);
    }
}

proof fn lemma_same_tree(node: SyntaxNode, a: Seq<u8>, b: Seq<u8>, literals: bool, lang: Seq<char>)
    ensures
        same_frame(shape_of(node, a, literals, lang), shape_of(node, b, literals, lang)),
    decreases node, node.children@.len() as int + 1,
{
    let n = node.children@.len() as int;
    let s = shape_of(node, a, literals, lang);
    let t = shape_of(node, b, literals, lang);
    lemma_same_trees(node, n, a, b, literals, lang, s, t);
}

proof fn lemma_same_trees(
    node: SyntaxNode,
    n: int,
    a: Seq<u8>,
    b: Seq<u8>,
    literals: bool,
    lang: Seq<char>,
    s: Shape,
    t: Shape,
)
    requires
        0 <= n <= node.children@.len(),
        s.children.len() >= shapes_below(node, n, a, literals, lang).len(),
        t.children.len() >= shapes_below(node, n, b, literals, lang).len(),
        forall|i: int|
            0 <= i < shapes_below(node, n, a, literals, lang).len() ==> #[trigger] s.children[i]
                == shapes_below(node, n, a, literals, lang)[i],
        forall|i: int|
            0 <= i < shapes_below(node, n, b, literals, lang).len() ==> #[trigger] t.children[i]
                == shapes_below(node, n, b, literals, lang)[i],
    ensures
        shapes_below(node, n, a, literals, lang).len() == counted(node.children@, n),
        shapes_below(node, n, b, literals, lang).len() == counted(node.children@, n),
        counted(node.children@, n) >= 0,
        same_frames(s, t, counted(node.children@, n)),
    decreases node, n,
{
    if n > 0 {
        let x = shapes_below(node, n - 1, a, literals, lang);
        let y = shapes_below(node, n - 1, b, literals, lang);
        assert forall|i: int| 0 <= i < x.len() implies #[trigger] s.children[i] == x[i] by {
            assert(shapes_below(node, n, a, literals, lang)[i] == x[i]);
        }
        assert forall|i: int| 0 <= i < y.len() implies #[trigger] t.children[i] == y[i] by {
            assert(shapes_below(node, n, b, literals, lang)[i] == y[i]);
        }
        lemma_same_trees(node, n - 1, a, b, literals, lang, s, t);
        if counts(node.children@[n - 1]) {
            let child = node.children@[n - 1];
            lemma_same_tree(child, a, b, literals, lang);
            assert(s.children[x.len() as int] == shape_of(child, a, literals, lang));
            assert(t.children[y.len() as int] == shape_of(child, b, literals, lang));
        }
    }
}

proof fn lemma_shape_at(
    node: SyntaxNode,
    n: int,
    source: Seq<u8>,
    literals: bool,
    lang: Seq<char>,
    k: int,
)
    requires
        0 <= k < n <= node.children@.len(),
        counts(node.children@[k]),
    ensures
        0 <= counted(node.children@, k) < shapes_below(node, n, source, literals, lang).len(),
        shapes_below(node, n, source, literals, lang).len() == counted(node.children@, n),
        shapes_below(node, n, source, literals, lang)[counted(node.children@, k)] == shape_of(
            node.children@[k],
            source,
            literals,
            lang,
        ),
    decreases n,
{
    lemma_shapes_len(node, n, source, literals, lang);
    lemma_shapes_len(node, n - 1, source, literals, lang);
    if k < n - 1 {
        lemma_shape_at(node, n - 1, source, literals, lang, k);
    }
}

proof fn lemma_shapes_len(node: SyntaxNode, n: int, source: Seq<u8>, literals: bool, lang: Seq<char>)
    requires
        0 <= n <= node.children@.len(),
    ensures
        shapes_below(node, n, source, literals, lang).len() == counted(node.children@, n),
    decreases n,
{
    if n > 0 {
        lemma_shapes_len(node, n - 1, source, literals, lang);
    }
}

proof fn lemma_leaf_shows(
    node: SyntaxNode,
    path: Seq<int>,
    a: Seq<u8>,
    b: Seq<u8>,
    literals: bool,
    lang: Seq<char>,
)
    requires
        descendant(node, path) is Some,
        is_leaf(descendant(node, path)->0),
        leaf_text(descendant(node, path)->0, a, literals, lang) != leaf_text(
            descendant(node, path)->0,
            b,
            literals,
            lang,
        ),
    ensures
        shape_of(node, a, literals, lang) != shape_of(node, b, literals, lang),
    decreases path.len(),
{
    let n = node.children@.len() as int;
    if path.len() == 0 {
        lemma_leaf(node, n);
        assert(shape_of(node, a, literals, lang).text == leaf_text(node, a, literals, lang));
        assert(shape_of(node, b, literals, lang).text == leaf_text(node, b, literals, lang));
    } else {
        let k = path[0];
        let child = node.children@[k];
        lemma_leaf_shows(child, path.drop_first(), a, b, literals, lang);
        lemma_shape_at(node, n, a, literals, lang, k);
        lemma_shape_at(node, n, b, literals, lang, k);
        let at = counted(node.children@, k);
        assert(shape_of(node, a, literals, lang).children[at] == shape_of(child, a, literals, lang));
        assert(shape_of(node, b, literals, lang).children[at] == shape_of(child, b, literals, lang));
    }
}

proof fn lemma_leaf_moves(
    node: SyntaxNode,
    path: Seq<int>,
    a: Seq<u8>,
    b: Seq<u8>,
    literals: bool,
    lang: Seq<char>,
)
    requires
        !node.extra,
        fits(node, a.len() as int),
        fits(node, b.len() as int),
        a.len() <= u32::MAX,
        b.len() <= u32::MAX,
        descendant(node, path) is Some,
        is_leaf(descendant(node, path)->0),
        leaf_text(descendant(node, path)->0, a, literals, lang) != leaf_text(
            descendant(node, path)->0,
            b,
            literals,
            lang,
        ),
    ensures
        feed(node, a, literals, lang) != feed(node, b, literals, lang),
{
    lemma_same_tree(node, a, b, literals, lang);
    lemma_leaf_shows(node, path, a, b, literals, lang);
    crate::syntax::law_feed_tells_texts_apart(node, node, a, b, literals, lang);
}

/// The exact fingerprint sees what a literal holds. Where two sources under one tree differ in the
/// text of a leaf that is a string, a number, a truth value or a null, in whatever language, what is
/// fed in exact mode differs. In Rust and in Go that holds of the kinds that their grammars have for
/// literals too.
pub proof fn law_exact_sees_literals(
    node: SyntaxNode,
    path: Seq<int>,
    a: Seq<u8>,
    b: Seq<u8>,
    lang: Seq<char>,
)
    requires
        !node.extra,
        fits(node, a.len() as int),
        fits(node, b.len() as int),
        a.len() <= u32::MAX,
        b.len() <= u32::MAX,
        descendant(node, path) is Some,
        is_leaf(descendant(node, path)->0),
        ({
            let leaf = descendant(node, path)->0;
            let kind = leaf.kind@;
            let x = a.subrange(leaf.start as int, leaf.end as int);
            let y = b.subrange(leaf.start as int, leaf.end as int);
            &&& x != y
            &&& valid_utf8(x)
            &&& valid_utf8(y)
            &&& {
                ||| kind == "string"@
                ||| kind == "string_fragment"@
                ||| kind == "string_content"@
                ||| kind == "template_string"@
                ||| kind == "template_substitution"@
                ||| kind == "number"@
                ||| kind == "integer"@
                ||| kind == "float"@
                ||| kind == "true"@
                ||| kind == "false"@
                ||| kind == "null"@
                ||| kind == "none"@
                ||| lang == "rust"@ && kind == "char_literal"@
                ||| lang == "rust"@ && kind == "string_literal"@
                ||| lang == "rust"@ && kind == "byte_string_literal"@
                ||| lang == "rust"@ && kind == "raw_string_literal"@
                ||| lang == "rust"@ && kind == "integer_literal"@
                ||| lang == "rust"@ && kind == "float_literal"@
                ||| lang == "rust"@ && kind == "boolean_literal"@
                ||| lang == "go"@ && kind == "interpreted_string_literal"@
                ||| lang == "go"@ && kind == "raw_string_literal"@
                ||| lang == "go"@ && kind == "rune_literal"@
                ||| lang == "go"@ && kind == "int_literal"@
                ||| lang == "go"@ && kind == "float_literal"@
                ||| lang == "go"@ && kind == "imaginary_literal"@
            }
        }),
    ensures
        feed(node, a, true, lang) != feed(node, b, true, lang),
{
    lemma_leaf_moves(node, path, a, b, true, lang);
}

/// Both fingerprints see names. Where two sources under one tree differ in the text of a leaf that is
/// an identifier, what is fed differs, in exact mode as in loose.
pub proof fn law_both_modes_see_names(
    node: SyntaxNode,
    path: Seq<int>,
    a: Seq<u8>,
    b: Seq<u8>,
    literals: bool,
    lang: Seq<char>,
)
    requires
        !node.extra,
        fits(node, a.len() as int),
        fits(node, b.len() as int),
        a.len() <= u32::MAX,
        b.len() <= u32::MAX,
        descendant(node, path) is Some,
        is_leaf(descendant(node, path)->0),
        ({
            let leaf = descendant(node, path)->0;
            let kind = leaf.kind@;
            let x = a.subrange(leaf.start as int, leaf.end as int);
            let y = b.subrange(leaf.start as int, leaf.end as int);
            &&& x != y
            &&& valid_utf8(x)
            &&& valid_utf8(y)
            &&& {
                ||| kind == "identifier"@
                ||| kind == "property_identifier"@
                ||| kind == "type_identifier"@
                ||| kind == "shorthand_property_identifier"@
                ||| kind == "shorthand_property_identifier_pattern"@
                ||| kind == "field_identifier"@
                ||| kind == "scoped_identifier"@
                ||| kind == "scoped_type_identifier"@
                ||| kind == "namespace_identifier"@
            }
        }),
    ensures
        feed(node, a, literals, lang) != feed(node, b, literals, lang),
{
    lemma_leaf_moves(node, path, a, b, literals, lang);
}

/// Whether two sources read alike at every leaf below `node` whose kind, as `seen` says, matters.
pub open spec fn alike(node: SyntaxNode, a: Seq<u8>, b: Seq<u8>, seen: spec_fn(Seq<char>) -> bool) -> bool {
    forall|path: Seq<int>|
        (#[trigger] descendant(node, path)) is Some && is_leaf(descendant(node, path)->0) && seen(
            descendant(node, path)->0.kind@,
        ) ==> {
            let leaf = descendant(node, path)->0;
            a.subrange(leaf.start as int, leaf.end as int) == b.subrange(
                leaf.start as int,
                leaf.end as int,
            )
        }
}

proof fn lemma_alike_child(
    node: SyntaxNode,
    a: Seq<u8>,
    b: Seq<u8>,
    seen: spec_fn(Seq<char>) -> bool,
    k: int,
)
    requires
        alike(node, a, b, seen),
        0 <= k < node.children@.len(),
        counts(node.children@[k]),
    ensures
        alike(node.children@[k], a, b, seen),
{
    let child = node.children@[k];
    assert forall|path: Seq<int>|
        (#[trigger] descendant(child, path)) is Some && is_leaf(descendant(child, path)->0) && seen(
            descendant(child, path)->0.kind@,
        ) implies ({
        let leaf = descendant(child, path)->0;
        a.subrange(leaf.start as int, leaf.end as int) == b.subrange(
            leaf.start as int,
            leaf.end as int,
        )
    }) by {
        let whole = seq![k] + path;
        assert(whole.drop_first() =~= path);
        assert(descendant(node, whole) == descendant(child, path));
    }
}

proof fn lemma_alike_feeds(
    node: SyntaxNode,
    a: Seq<u8>,
    b: Seq<u8>,
    literals: bool,
    lang: Seq<char>,
    seen: spec_fn(Seq<char>) -> bool,
)
    requires
        alike(node, a, b, seen),
        forall|k: Seq<char>|
            #[trigger] crate::syntax::identifier_kind(k) ==> seen(k),
        literals ==> forall|k: Seq<char>|
            #[trigger] crate::syntax::literal_kind(lang, k) ==> seen(k),
    ensures
        feed(node, a, literals, lang) == feed(node, b, literals, lang),
    decreases node, node.children@.len() as int + 1,
{
    let n = node.children@.len() as int;
    lemma_alike_below(node, n, a, b, literals, lang, seen);
    if counted(node.children@, n) == 0 {
        lemma_no_children(node, n);
        assert(descendant(node, Seq::empty()) == Some(node));
        assert(is_leaf(node));
        assert(leaf_feed(node, a, literals, lang) == leaf_feed(node, b, literals, lang));
    }
}

proof fn lemma_no_children(node: SyntaxNode, n: int)
    requires
        0 <= n <= node.children@.len(),
    ensures
        counted(node.children@, n) >= 0,
        counted(node.children@, n) == 0 ==> forall|i: int|
            0 <= i < n ==> !(#[trigger] node.children@[i]).named || node.children@[i].extra,
    decreases n,
{
    if n > 0 {
        lemma_no_children(node, n - 1);
    }
}

proof fn lemma_alike_below(
    node: SyntaxNode,
    n: int,
    a: Seq<u8>,
    b: Seq<u8>,
    literals: bool,
    lang: Seq<char>,
    seen: spec_fn(Seq<char>) -> bool,
)
    requires
        0 <= n <= node.children@.len(),
        alike(node, a, b, seen),
        forall|k: Seq<char>|
            #[trigger] crate::syntax::identifier_kind(k) ==> seen(k),
        literals ==> forall|k: Seq<char>|
            #[trigger] crate::syntax::literal_kind(lang, k) ==> seen(k),
    ensures
        feed_children(node, n, a, literals, lang) == feed_children(node, n, b, literals, lang),
    decreases node, n,
{
    if n > 0 {
        lemma_alike_below(node, n - 1, a, b, literals, lang, seen);
        if counts(node.children@[n - 1]) {
            lemma_alike_child(node, a, b, seen, n - 1);
            lemma_alike_feeds(node.children@[n - 1], a, b, literals, lang, seen);
        }
    }
}

/// The loose fingerprint sees nothing but names: two sources that read alike at every leaf that is an
/// identifier feed the same in loose mode, whatever else they hold.
pub proof fn law_loose_sees_only_names(node: SyntaxNode, a: Seq<u8>, b: Seq<u8>, lang: Seq<char>)
    requires
        alike(
            node,
            a,
            b,
            |k: Seq<char>|
                k == "identifier"@ || k == "property_identifier"@ || k == "type_identifier"@ || k
                    == "shorthand_property_identifier"@ || k
                    == "shorthand_property_identifier_pattern"@ || k == "field_identifier"@ || k
                    == "scoped_identifier"@ || k == "scoped_type_identifier"@ || k
                    == "namespace_identifier"@,
        ),
    ensures
        feed(node, a, false, lang) == feed(node, b, false, lang),
{
    lemma_alike_feeds(
        node,
        a,
        b,
        false,
        lang,
        |k: Seq<char>|
            k == "identifier"@ || k == "property_identifier"@ || k == "type_identifier"@ || k
                == "shorthand_property_identifier"@ || k
                == "shorthand_property_identifier_pattern"@ || k == "field_identifier"@ || k
                == "scoped_identifier"@ || k == "scoped_type_identifier"@ || k
                == "namespace_identifier"@,
    );
}

/// Outside leaves the text does not matter: two sources that read alike at every leaf feed the same in
/// both modes. Comments and layout are no leaves.
pub proof fn law_only_leaves_matter(node: SyntaxNode, a: Seq<u8>, b: Seq<u8>, literals: bool, lang: Seq<char>)
    requires
        alike(node, a, b, |k: Seq<char>| true),
    ensures
        feed(node, a, literals, lang) == feed(node, b, literals, lang),
{
    lemma_alike_feeds(node, a, b, literals, lang, |k: Seq<char>| true);
}

/// A node of another kind feeds something else.
pub proof fn law_kinds_are_told_apart(
    x: SyntaxNode,
    y: SyntaxNode,
    a: Seq<u8>,
    b: Seq<u8>,
    literals: bool,
    lang: Seq<char>,
)
    requires
        !x.extra,
        !y.extra,
        x.kind@ != y.kind@,
        encode_utf8(x.kind@).len() <= u32::MAX,
        encode_utf8(y.kind@).len() <= u32::MAX,
    ensures
        feed(x, a, literals, lang) != feed(y, b, literals, lang),
{
    let s = encode_utf8(x.kind@);
    let t = encode_utf8(y.kind@);
    let p = feed(x, a, literals, lang);
    let q = feed(y, b, literals, lang);
    if p == q {
        let l = le4(s.len() as u32);
        let m = le4(t.len() as u32);
        let u = p.skip(4 + s.len() as int);
        let v = q.skip(4 + t.len() as int);
        assert(p =~= l + (s + u));
        assert(q =~= m + (t + v));
        lemma_cut(l, s + u, m, t + v);
        lemma_le4(s.len() as u32, t.len() as u32);
        lemma_cut(s, u, t, v);
        vstd::utf8::encode_utf8_decode_utf8(x.kind@);
        vstd::utf8::encode_utf8_decode_utf8(y.kind@);
    }
}

// ─── The node of a range ─────────────────────────────────────────────────────

/// The node that `path` leads to from `node`, where each node on the way, both ends among them,
/// covers `start..end`.
pub open spec fn covering(node: SyntaxNode, path: Seq<int>, start: int, end: int) -> Option<SyntaxNode>
    decreases path.len(),
{
    if !(node.start <= start && end <= node.end) {
        None
    } else if path.len() == 0 {
        Some(node)
    } else if 0 <= path[0] < node.children@.len() {
        covering(node.children@[path[0]], path.drop_first(), start, end)
    } else {
        None
    }
}

proof fn lemma_covering_visited(node: SyntaxNode, path: Seq<int>, start: int, end: int) -> (k: int)
    requires
        covering(node, path, start, end) is Some,
    ensures
        0 <= k < visited(node, start, end).len(),
        visited(node, start, end)[k] == covering(node, path, start, end)->0,
    decreases path.len(),
{
    if path.len() == 0 {
        0
    } else {
        let n = node.children@.len() as int;
        let k = lemma_covering_visited(node.children@[path[0]], path.drop_first(), start, end);
        let j = lemma_visited_child(node, n, path[0], k, start, end);
        j + 1
    }
}

proof fn lemma_visited_child(node: SyntaxNode, n: int, c: int, k: int, start: int, end: int) -> (j: int)
    requires
        0 <= c < n <= node.children@.len(),
        0 <= k < visited(node.children@[c], start, end).len(),
    ensures
        0 <= j < visited_children(node, n, start, end).len(),
        visited_children(node, n, start, end)[j] == visited(node.children@[c], start, end)[k],
    decreases n,
{
    if c == n - 1 {
        k
    } else {
        visited(node.children@[n - 1], start, end).len() + lemma_visited_child(
            node,
            n - 1,
            c,
            k,
            start,
            end,
        )
    }
}

proof fn lemma_visited_covers(node: SyntaxNode, k: int, start: int, end: int) -> (path: Seq<int>)
    requires
        0 <= k < visited(node, start, end).len(),
    ensures
        covering(node, path, start, end) == Some(visited(node, start, end)[k]),
    decreases node, node.children@.len() as int + 1,
{
    if k == 0 {
        Seq::empty()
    } else {
        let n = node.children@.len() as int;
        assert(visited(node, start, end)[k] == visited_children(node, n, start, end)[k - 1]);
        let path = lemma_visited_below_covers(node, n, k - 1, start, end);
        path
    }
}

proof fn lemma_visited_below_covers(node: SyntaxNode, n: int, k: int, start: int, end: int) -> (path: Seq<
    int,
>)
    requires
        0 <= n <= node.children@.len(),
        node.start <= start && end <= node.end,
        0 <= k < visited_children(node, n, start, end).len(),
    ensures
        covering(node, path, start, end) == Some(visited_children(node, n, start, end)[k]),
    decreases node, n,
{
    let a = visited(node.children@[n - 1], start, end);
    if k < a.len() {
        let tail = lemma_visited_covers(node.children@[n - 1], k, start, end);
        let path = seq![n - 1] + tail;
        assert(path.drop_first() =~= tail);
        path
    } else {
        lemma_visited_below_covers(node, n - 1, k - a.len(), start, end)
    }
}

proof fn lemma_best_so_far(best: Option<SyntaxNode>, list: Seq<SyntaxNode>, start: int, end: int)
    ensures
        best is Some || list.len() > 0 ==> best_of(best, list, start, end) is Some,
        best is Some ==> ({
            let b = best->0;
            let w = best_of(best, list, start, end)->0;
            &&& b.start == start && b.end == end ==> w.start == start && w.end == end
            &&& (w.start == start && w.end == end) || w.end - w.start <= b.end - b.start
        }),
        forall|k: int|
            0 <= k < list.len() ==> {
                let m = #[trigger] list[k];
                let w = best_of(best, list, start, end)->0;
                &&& m.start == start && m.end == end ==> w.start == start && w.end == end
                &&& (w.start == start && w.end == end) || w.end - w.start <= m.end - m.start
            },
    decreases list.len(),
{
    if list.len() > 0 {
        let next = better(best, list[0], start, end);
        lemma_best_so_far(next, list.drop_first(), start, end);
        assert forall|k: int| 0 <= k < list.len() implies ({
            let m = #[trigger] list[k];
            let w = best_of(best, list, start, end)->0;
            &&& m.start == start && m.end == end ==> w.start == start && w.end == end
            &&& (w.start == start && w.end == end) || w.end - w.start <= m.end - m.start
        }) by {
            if k > 0 {
                assert(list.drop_first()[k - 1] == list[k]);
            }
        }
    }
}

/// The node looked up for a range is one of those that cover it, reached through others that do: one
/// that spans exactly the range if there is such a one, and else a shortest. `None` comes back just where
/// the root does not cover the range. The result is the way to the node.
pub proof fn law_range_lookup(root: SyntaxNode, start: int, end: int, found: Option<SyntaxNode>) -> (path: Seq<
    int,
>)
    requires
        found == best_of(None, visited(root, start, end), start, end),
    ensures
        found is None <==> !(root.start <= start && end <= root.end),
        found is Some ==> covering(root, path, start, end) == found,
        forall|other: Seq<int>|
            (#[trigger] covering(root, other, start, end)) is Some ==> {
                let m = covering(root, other, start, end)->0;
                let w = found->0;
                &&& found is Some
                &&& m.start == start && m.end == end ==> w.start == start && w.end == end
                &&& (w.start == start && w.end == end) || w.end - w.start <= m.end - m.start
            },
{
    let list = visited(root, start, end);
    lemma_best_so_far(None, list, start, end);
    lemma_best_member(None, list, start, end);
    assert forall|other: Seq<int>|
        (#[trigger] covering(root, other, start, end)) is Some implies ({
        let m = covering(root, other, start, end)->0;
        let w = found->0;
        &&& found is Some
        &&& m.start == start && m.end == end ==> w.start == start && w.end == end
        &&& (w.start == start && w.end == end) || w.end - w.start <= m.end - m.start
    }) by {
        let k = lemma_covering_visited(root, other, start, end);
        assert(list[k] == covering(root, other, start, end)->0);
    }
    if root.start <= start && end <= root.end {
        assert(list[0] == root);
    }
    if found is Some {
        let k = list.index_of(found->0);
        lemma_visited_covers(root, k, start, end)
    } else {
        Seq::empty()
    }
}

// ─── Modes ───────────────────────────────────────────────────────────────────

/// What the three modes compare of the first symbol of a name. Where its range holds a byte of the
/// source, the normalized mode takes the normal form of those bytes; the structural modes take the
/// digest of what one node feeds, the exact one with literals and the loose one without, and nothing
/// where there is no parse. That node is the one looked up for the symbol's range.
pub proof fn law_what_modes_compare(
    map: FileMapL1,
    source: Seq<u8>,
    tree: Option<SyntaxNode>,
    name: Seq<char>,
    kind: Option<SymbolKind>,
    lang: Seq<char>,
    i: int,
)
    requires
        source.len() <= usize::MAX,
        0 <= i < map.symbols@.len(),
        map.symbols@[i].name@ == name,
        kind is Some ==> map.symbols@[i].kind == kind->0,
        forall|j: int|
            0 <= j < i && (#[trigger] map.symbols@[j]).name@ == name ==> kind is Some
                && map.symbols@[j].kind != kind->0,
    ensures
        ({
            let s = map.symbols@[i].start_byte as int;
            let e = if map.symbols@[i].end_byte as int <= source.len() {
                map.symbols@[i].end_byte as int
            } else {
                source.len() as int
            };
            let normal = fingerprint(map, source, tree, name, kind, lang, HashMode::Normalized);
            let exact = fingerprint(map, source, tree, name, kind, lang, HashMode::StructuralExact);
            let loose = fingerprint(map, source, tree, name, kind, lang, HashMode::StructuralLoose);
            &&& s >= e ==> normal is None && exact is None && loose is None
            &&& s < e ==> normal == Some(normal_form(lang, source.subrange(s, e)))
            &&& s < e && tree is None ==> exact is None && loose is None
            &&& s < e && tree is Some ==> {
                let node = best_of(None, visited(tree->0, s, e), s, e);
                &&& node is None <==> !(tree->0.start <= s && e <= tree->0.end)
                &&& node is None ==> exact is None && loose is None
                &&& node is Some ==> exact == Some(blake3_of(feed(node->0, source, true, lang)))
                &&& node is Some ==> loose == Some(blake3_of(feed(node->0, source, false, lang)))
            }
        }),
{
    assert(is_first_named(map.symbols@, name, kind, i));
    let k = first_named(map.symbols@, name, kind)->0;
    assert(is_first_named(map.symbols@, name, kind, k));
    if k < i {
        assert(!is_named(map.symbols@[k], name, kind));
    } else if i < k {
        assert(!is_named(map.symbols@[i], name, kind));
    }
    let s = map.symbols@[i].start_byte as int;
    let e = if map.symbols@[i].end_byte as int <= source.len() {
        map.symbols@[i].end_byte as int
    } else {
        source.len() as int
    };
    if s < e && tree is Some {
        let node = best_of(None, visited(tree->0, s, e), s, e);
        let path = law_range_lookup(tree->0, s, e, node);
    }
}

/// A symbol that is not there has no fingerprint.
pub proof fn law_absent_symbols_have_no_fingerprint(
    map: FileMapL1,
    source: Seq<u8>,
    tree: Option<SyntaxNode>,
    name: Seq<char>,
    kind: Option<SymbolKind>,
    lang: Seq<char>,
    mode: HashMode,
)
    requires
        forall|j: int|
            0 <= j < map.symbols@.len() && (#[trigger] map.symbols@[j]).name@ == name ==> kind is Some
                && map.symbols@[j].kind != kind->0,
    ensures
        fingerprint(map, source, tree, name, kind, lang, mode) is None,
{
    if first_named(map.symbols@, name, kind) is Some {
        let k = first_named(map.symbols@, name, kind)->0;
        assert(is_first_named(map.symbols@, name, kind, k));
        assert(is_named(map.symbols@[k], name, kind));
    }
}

// ─── Kinds ───────────────────────────────────────────────────────────────────

/// Which kinds `is_literal_kind` and `is_identifier_kind` say yes to: in every language those of strings, numbers, truth
/// values and nulls, in Rust and in Go those of their own grammars too; and those of names.
pub proof fn law_literals_and_names(lang: &str, kind: &str, literal: bool, name: bool)
    requires
        call_ensures(is_literal_kind, (lang, kind), literal),
        call_ensures(is_identifier_kind, (kind,), name),
    ensures
        literal <==> {
            ||| kind@ == "string"@
            ||| kind@ == "string_fragment"@
            ||| kind@ == "string_content"@
            ||| kind@ == "template_string"@
            ||| kind@ == "template_substitution"@
            ||| kind@ == "number"@
            ||| kind@ == "integer"@
            ||| kind@ == "float"@
            ||| kind@ == "true"@
            ||| kind@ == "false"@
            ||| kind@ == "null"@
            ||| kind@ == "none"@
            ||| lang@ == "rust"@ && (kind@ == "char_literal"@ || kind@ == "string_literal"@ || kind@
                == "byte_string_literal"@ || kind@ == "raw_string_literal"@ || kind@
                == "integer_literal"@ || kind@ == "float_literal"@ || kind@ == "boolean_literal"@)
            ||| lang@ == "go"@ && (kind@ == "interpreted_string_literal"@ || kind@
                == "raw_string_literal"@ || kind@ == "rune_literal"@ || kind@ == "int_literal"@ || kind@
                == "float_literal"@ || kind@ == "imaginary_literal"@)
        },
        name <==> {
            ||| kind@ == "identifier"@
            ||| kind@ == "property_identifier"@
            ||| kind@ == "type_identifier"@
            ||| kind@ == "shorthand_property_identifier"@
            ||| kind@ == "shorthand_property_identifier_pattern"@
            ||| kind@ == "field_identifier"@
            ||| kind@ == "scoped_identifier"@
            ||| kind@ == "scoped_type_identifier"@
            ||| kind@ == "namespace_identifier"@
        },
{
}

} // verus!
