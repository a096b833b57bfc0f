//! Normal forms are final: to normalize one again changes nothing.
use vstd::prelude::*;

use crate::history::{
    block_comments, block_open, collapsed, hash_comments, is_squeezed, is_white,
    law_normal_form_is_tight, lemma_scans, marker_of, normal_form, squeeze_one, squeezed, stripped,
    unpadded,
};
use crate::text::occurs_at;

verus! {

/// Whether no comment opens anywhere in a source.
pub open spec fn markless(s: Seq<u8>, marker: Seq<u8>, block: bool) -> bool {
    &&& marker.len() > 0 ==> forall|i: int| !#[trigger] occurs_at(s, marker, i)
    &&& block ==> forall|i: int| !#[trigger] occurs_at(s, block_open(), i)
}

/// Whether the comments of a language are opened by one byte, or all by a slash, or there are none.
spec fn regular(marker: Seq<u8>, block: bool) -> bool {
    ||| marker.len() == 0 && !block
    ||| marker == seq![35u8] && !block
    ||| marker == seq![47u8, 47u8]
}

/// The same of bytes: no byte, and no two bytes in a row, open a comment.
spec fn bare(s: Seq<u8>, marker: Seq<u8>, block: bool) -> bool {
    &&& marker == seq![35u8] ==> forall|i: int| 0 <= i < s.len() ==> #[trigger] s[i] != 35
    &&& marker == seq![47u8, 47u8] ==> forall|i: int|
        0 <= i < s.len() - 1 && #[trigger] s[i] == 47 ==> s[i + 1] != 47 && (block ==> s[i + 1]
            != 42)
}

proof fn lemma_bare(s: Seq<u8>, marker: Seq<u8>, block: bool)
    requires
        regular(marker, block),
    ensures
        bare(s, marker, block) == markless(s, marker, block),
{
    if bare(s, marker, block) {
        assert forall|i: int| marker.len() > 0 implies !#[trigger] occurs_at(s, marker, i) by {
            if occurs_at(s, marker, i) {
                assert(s.subrange(i, i + marker.len())[0] == s[i]);
                if marker.len() == 2 {
                    assert(s.subrange(i, i + 2)[1] == s[i + 1]);
                }
            }
        }
        assert forall|i: int| block implies !#[trigger] occurs_at(s, block_open(), i) by {
            if occurs_at(s, block_open(), i) {
                assert(s.subrange(i, i + 2)[0] == s[i]);
                assert(s.subrange(i, i + 2)[1] == s[i + 1]);
            }
        }
    }
    if markless(s, marker, block) {
        if marker == seq![35u8] {
            assert forall|i: int| 0 <= i < s.len() implies #[trigger] s[i] != 35 by {
                assert(!occurs_at(s, marker, i));
                if s[i] == 35 {
                    assert(s.subrange(i, i + 1) =~= marker);
                }
            }
        }
        if marker == seq![47u8, 47u8] {
            assert forall|i: int| 0 <= i < s.len() - 1 && #[trigger] s[i] == 47 implies s[i + 1]
                != 47 && (block ==> s[i + 1] != 42) by {
                assert(!occurs_at(s, marker, i));
                if s[i + 1] == 47 {
                    assert(s.subrange(i, i + 2) =~= marker);
                }
                if block && s[i + 1] == 42 {
                    assert(!occurs_at(s, block_open(), i));
                    assert(s.subrange(i, i + 2) =~= block_open());
                }
            }
        }
    }
}

/// Where nothing opens a comment, the byte stays.
proof fn lemma_kept(raw: Seq<u8>, at: int, marker: Seq<u8>, block: bool)
    requires
        regular(marker, block),
        0 <= at < raw.len(),
        marker == seq![35u8] ==> raw[at] != 35,
        marker == seq![47u8, 47u8] ==> raw[at] != 47,
    ensures
        stripped(raw, at, marker, block) == seq![raw[at]] + stripped(raw, at + 1, marker, block),
{
    if marker.len() > 0 && occurs_at(raw, marker, at) {
        assert(raw.subrange(at, at + marker.len())[0] == raw[at]);
    }
    if block && occurs_at(raw, block_open(), at) {
        assert(raw.subrange(at, at + 2)[0] == raw[at]);
    }
}

/// Stripping leaves nothing that opens a comment.
proof fn lemma_stripped_bare(raw: Seq<u8>, at: int, marker: Seq<u8>, block: bool)
    requires
        regular(marker, block),
        0 <= at <= raw.len(),
    ensures
        bare(stripped(raw, at, marker, block), marker, block),
    decreases raw.len() - at,
{
    let out = stripped(raw, at, marker, block);
    if at < raw.len() {
        if marker.len() > 0 && occurs_at(raw, marker, at) {
            lemma_scans(raw, at + marker.len());
            lemma_stripped_bare(
                raw,
                crate::history::feed_from(raw, at + marker.len()),
                marker,
                block,
            );
        } else if block && occurs_at(raw, block_open(), at) {
            lemma_scans(raw, at + 2);
            lemma_stripped_bare(raw, crate::history::close_from(raw, at + 2), marker, block);
        } else {
            lemma_stripped_bare(raw, at + 1, marker, block);
            let tail = stripped(raw, at + 1, marker, block);
            assert(out == seq![raw[at]] + tail);
            if marker == seq![35u8] {
                assert(raw[at] != 35) by {
                    if raw[at] == 35 {
                        assert(raw.subrange(at, at + 1) =~= marker);
                    }
                }
                assert forall|i: int| 0 <= i < out.len() implies #[trigger] out[i] != 35 by {
                    if i > 0 {
                        assert(out[i] == tail[i - 1]);
                    }
                }
            }
            if marker == seq![47u8, 47u8] {
                if raw[at] == 47 && at + 1 < raw.len() {
                    if raw[at + 1] == 47 {
                        assert(raw.subrange(at, at + 2) =~= marker);
                    }
                    if block && raw[at + 1] == 42 {
                        assert(raw.subrange(at, at + 2) =~= block_open());
                    }
                    lemma_kept(raw, at + 1, marker, block);
                    assert(tail[0] == raw[at + 1]);
                }
                assert forall|i: int| 0 <= i < out.len() - 1 && #[trigger] out[i] == 47 implies out[i
                    + 1] != 47 && (block ==> out[i + 1] != 42) by {
                    assert(out[i + 1] == tail[i]);
                    if i > 0 {
                        assert(out[i] == tail[i - 1]);
                        assert(tail[i - 1] == 47);
                    } else {
                        assert(at + 1 < raw.len());
                    }
                }
            }
        }
    }
}

/// A source in which nothing opens a comment is stripped of nothing.
proof fn lemma_bare_stays(s: Seq<u8>, at: int, marker: Seq<u8>, block: bool)
    requires
        markless(s, marker, block),
        0 <= at <= s.len(),
    ensures
        stripped(s, at, marker, block) == s.skip(at),
    decreases s.len() - at,
{
    if at < s.len() {
        lemma_bare_stays(s, at + 1, marker, block);
        assert(seq![s[at]] + s.skip(at + 1) =~= s.skip(at));
    } else {
        assert(stripped(s, at, marker, block) =~= s.skip(at));
    }
}

/// Squeezing joins nothing that opens a comment.
proof fn lemma_squeezed_bare(out: Seq<u8>, s: Seq<u8>, marker: Seq<u8>, block: bool)
    requires
        regular(marker, block),
        bare(out + s, marker, block),
    ensures
        bare(squeezed(out, s), marker, block),
    decreases s.len(),
{
    if s.len() == 0 {
        assert(out + s =~= out);
    } else {
        let all = out + s;
        let more = squeeze_one(out, s[0]);
        let tail = s.drop_first();
        let next = more + tail;
        let n = out.len() as int;
        if more.len() > n {
            assert(next.len() == all.len());
            assert forall|i: int| 0 <= i < next.len() implies #[trigger] next[i] == (if i == n {
                more[n]
            } else {
                all[i]
            }) by {}
            assert(all[n] == s[0]);
            if marker == seq![35u8] {
                assert forall|i: int| 0 <= i < next.len() implies #[trigger] next[i] != 35 by {
                    assert(all[i] != 35);
                }
            }
            if marker == seq![47u8, 47u8] {
                assert forall|i: int| 0 <= i < next.len() - 1 && #[trigger] next[i] == 47 implies next[i
                    + 1] != 47 && (block ==> next[i + 1] != 42) by {
                    if i != n {
                        assert(all[i] == 47);
                    } else {
                        assert(more[n] == s[0]);
                        assert(all[i] == 47);
                    }
                }
            }
        } else {
            assert(more == out);
            assert forall|i: int| 0 <= i < next.len() implies #[trigger] next[i] == (if i < n {
                all[i]
            } else {
                all[i + 1]
            }) by {}
            if marker == seq![35u8] {
                assert forall|i: int| 0 <= i < next.len() implies #[trigger] next[i] != 35 by {
                    assert(all[i] != 35 && all[i + 1] != 35);
                }
            }
            if marker == seq![47u8, 47u8] {
                assert forall|i: int| 0 <= i < next.len() - 1 && #[trigger] next[i] == 47 implies next[i
                    + 1] != 47 && (block ==> next[i + 1] != 42) by {
                    if i < n - 1 {
                        assert(all[i] == 47);
                    } else if i == n - 1 {
                        assert(out.last() == 32);
                    } else {
                        assert(all[i + 1] == 47);
                    }
                }
            }
        }
        lemma_squeezed_bare(more, tail, marker, block);
    }
}

proof fn lemma_unpadded_front(s: Seq<u8>)
    ensures
        unpadded(s).len() <= s.len(),
        unpadded(s) == s.take(unpadded(s).len() as int),
    decreases s.len(),
{
    if s.len() > 0 && s.last() == 32 {
        let front = s.drop_last();
        lemma_unpadded_front(front);
        assert(front.take(unpadded(s).len() as int) =~= s.take(unpadded(s).len() as int));
    } else {
        assert(s.take(s.len() as int) =~= s);
    }
}

proof fn lemma_front_bare(s: Seq<u8>, n: int, marker: Seq<u8>, block: bool)
    requires
        bare(s, marker, block),
        0 <= n <= s.len(),
    ensures
        bare(s.take(n), marker, block),
{
    let t = s.take(n);
    if marker == seq![35u8] {
        assert forall|i: int| 0 <= i < t.len() implies #[trigger] t[i] != 35 by {
            assert(s[i] != 35);
        }
    }
    if marker == seq![47u8, 47u8] {
        assert forall|i: int| 0 <= i < t.len() - 1 && #[trigger] t[i] == 47 implies t[i + 1] != 47
            && (block ==> t[i + 1] != 42) by {
            assert(s[i] == 47);
        }
    }
}

/// What is squeezed already stays.
proof fn lemma_squeezed_stays(r: Seq<u8>, i: int)
    requires
        is_squeezed(r),
        0 <= i <= r.len(),
    ensures
        squeezed(r.take(i), r.skip(i)) == r,
    decreases r.len() - i,
{
    if i < r.len() {
        lemma_squeezed_stays(r, i + 1);
        assert(r.skip(i).drop_first() =~= r.skip(i + 1));
        assert(r.skip(i)[0] == r[i]);
        assert(r.take(i).push(r[i]) =~= r.take(i + 1));
        assert(squeeze_one(r.take(i), r[i]) == r.take(i + 1)) by {
            if is_white(r[i]) {
                assert(r[i] == 32);
                assert(i > 0);
                assert(r.take(i).last() == r[i - 1]);
                assert(r[(i - 1) + 1] == 32);
            }
        }
    } else {
        assert(r.take(i) =~= r);
        assert(r.skip(i) =~= Seq::empty());
    }
}

/// A language whose comments open with `#` has no block comments.
proof fn lemma_hash_alone(lang: Seq<char>)
    ensures
        !(hash_comments(lang) && block_comments(lang)),
{
    reveal_strlit("python");
    reveal_strlit("ruby");
    reveal_strlit("shell");
    reveal_strlit("bash");
    reveal_strlit("yaml");
    reveal_strlit("toml");
    reveal_strlit("make");
    reveal_strlit("rust");
    reveal_strlit("typescript");
    reveal_strlit("tsx");
    reveal_strlit("javascript");
    reveal_strlit("go");
    reveal_strlit("cpp");
    reveal_strlit("c");
    reveal_strlit("java");
    reveal_strlit("csharp");
    reveal_strlit("kotlin");
    reveal_strlit("swift");
    reveal_strlit("scala");
    reveal_strlit("css");
    reveal_strlit("json");
    if hash_comments(lang) && block_comments(lang) {
        if lang.len() == 4 {
            assert(lang[0] == 'r' || lang[0] == 'b' || lang[0] == 'y' || lang[0] == 't' || lang[0]
                == 'm');
            assert(lang[0] == 'r' || lang[0] == 'j');
            assert(lang[2] == 'b');
        } else if lang.len() == 5 {
            assert(lang[1] == 'h');
        } else {
            assert(lang[0] == 'p');
        }
    }
}

/// To normalize is to be done: normalizing a normal form gives it back, and nothing in it opens a
/// comment. This leaves out the languages with block comments and no line comments, where what stands
/// around a comment can open another one.
pub proof fn law_normal_form_is_final(lang: Seq<char>, raw: Seq<u8>)
    requires
        marker_of(lang).len() > 0 || !block_comments(lang),
    ensures
        normal_form(lang, normal_form(lang, raw)) == normal_form(lang, raw),
        markless(normal_form(lang, raw), marker_of(lang), block_comments(lang)),
{
    let marker = marker_of(lang);
    let block = block_comments(lang);
    lemma_hash_alone(lang);
    assert(regular(marker, block));
    let none = Seq::<u8>::empty();
    let s = stripped(raw, 0, marker, block);
    let wide = squeezed(none, s);
    let r = normal_form(lang, raw);
    lemma_stripped_bare(raw, 0, marker, block);
    assert(none + s =~= s);
    lemma_squeezed_bare(none, s, marker, block);
    lemma_unpadded_front(wide);
    lemma_front_bare(wide, r.len() as int, marker, block);
    lemma_bare(r, marker, block);
    lemma_bare_stays(r, 0, marker, block);
    assert(r.skip(0) =~= r);
    law_normal_form_is_tight(lang, raw);
    lemma_squeezed_stays(r, 0);
    assert(r.take(0) =~= none);
    assert(collapsed(r) == unpadded(r));
}

} // verus!
