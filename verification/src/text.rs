//! Text and byte-string primitives: comparison, search, trimming, and number rendering.
//!
//! Contracts speak of a string through its `Seq<char>` view and of a byte slice through its
//! `Seq<u8>` view.
use vstd::prelude::*;
use vstd::utf8::{encode_utf8, encode_utf8_decode_utf8, valid_utf8};

verus! {

/// `String::push` appends one character at the end of the string.
pub assume_specification[ String::push ](s: &mut String, c: char)
    ensures
        final(s)@ == old(s)@.push(c),
;

/// `std::str::from_utf8`: the text that `bytes` encode, or `None` where they are not UTF-8.
#[verifier::external_body]
pub(crate) fn utf8_text(bytes: &[u8]) -> (s: Option<String>)
    ensures
        match s {
            Some(t) => encode_utf8(t@) == bytes@,
            None => !valid_utf8(bytes@),
        },
{
    std::str::from_utf8(bytes).ok().map(str::to_string)
}

/// How Rust's `{:?}` writes a string: in quotes, with escapes.
pub uninterp spec fn quoted_text(s: Seq<char>) -> Seq<char>;

/// `format!` with `{:?}` on a string: the quoted form is a function of the string.
#[verifier::external_body]
pub(crate) fn quoted(s: &str) -> (q: String)
    ensures
        q@ == quoted_text(s@),
{
    format!("{s:?}")
}

// ─── Models ──────────────────────────────────────────────────────────────────

/// Whether `needle` stands in `hay` starting at position `at`.
pub open spec fn occurs_at<T>(hay: Seq<T>, needle: Seq<T>, at: int) -> bool {
    0 <= at && at + needle.len() <= hay.len() && hay.subrange(at, at + needle.len()) == needle
}

/// Whether `needle` stands anywhere in `hay` (the empty needle always does).
pub open spec fn holds_seq<T>(hay: Seq<T>, needle: Seq<T>) -> bool {
    exists|at: int| #[trigger] occurs_at(hay, needle, at)
}

/// The byte-wise lexicographic order: a proper prefix comes first.
pub open spec fn lex_less(a: Seq<u8>, b: Seq<u8>) -> bool
    decreases a.len(),
{
    if b.len() == 0 {
        false
    } else if a.len() == 0 {
        true
    } else {
        a[0] < b[0] || (a[0] == b[0] && lex_less(a.drop_first(), b.drop_first()))
    }
}

/// The characters of a list of strings.
pub open spec fn texts(list: Seq<String>) -> Seq<Seq<char>> {
    Seq::new(list.len(), |i: int| list[i]@)
}

/// The characters of an optional string.
pub open spec fn opt_text(s: Option<String>) -> Option<Seq<char>> {
    match s {
        Some(t) => Some(t@),
        None => None,
    }
}

/// The characters of an optional string slice.
pub open spec fn opt_str(s: Option<&str>) -> Option<Seq<char>> {
    match s {
        Some(t) => Some(t@),
        None => None,
    }
}

/// The Unicode `White_Space` property.
pub open spec fn is_space(c: char) -> bool {
    ||| '\u{9}' <= c <= '\u{d}'
    ||| c == ' '
    ||| c == '\u{85}'
    ||| c == '\u{a0}'
    ||| c == '\u{1680}'
    ||| '\u{2000}' <= c <= '\u{200a}'
    ||| c == '\u{2028}'
    ||| c == '\u{2029}'
    ||| c == '\u{202f}'
    ||| c == '\u{205f}'
    ||| c == '\u{3000}'
}

/// `s` without its leading white space.
pub open spec fn trim_start_of(s: Seq<char>) -> Seq<char>
    decreases s.len(),
{
    if s.len() > 0 && is_space(s[0]) {
        trim_start_of(s.drop_first())
    } else {
        s
    }
}

/// `s` without its trailing white space.
pub open spec fn trim_end_of(s: Seq<char>) -> Seq<char>
    decreases s.len(),
{
    if s.len() > 0 && is_space(s.last()) {
        trim_end_of(s.drop_last())
    } else {
        s
    }
}

/// `s` without the white space at either end.
pub open spec fn trim_of(s: Seq<char>) -> Seq<char> {
    trim_end_of(trim_start_of(s))
}

/// Every character of `s` is white space.
pub open spec fn is_blank(s: Seq<char>) -> bool {
    forall|i: int| 0 <= i < s.len() ==> is_space(#[trigger] s[i])
}

/// The ASCII lower-case form of one character.
pub open spec fn lower(c: char) -> char {
    if 'A' <= c <= 'Z' {
        ((c as u8 + 32) as u8) as char
    } else {
        c
    }
}

/// `s` with every ASCII capital in lower case.
pub open spec fn lower_of(s: Seq<char>) -> Seq<char> {
    Seq::new(s.len(), |i: int| lower(s[i]))
}

/// The decimal digits of `n`, most significant first.
pub open spec fn decimal(n: nat) -> Seq<char>
    decreases n,
{
    let digit = ((48 + n % 10) as u8) as char;
    if n < 10 {
        seq![digit]
    } else {
        decimal(n / 10).push(digit)
    }
}

/// The strings of `parts` one after the other, `sep` between neighbours.
pub open spec fn joined(parts: Seq<Seq<char>>, sep: Seq<char>) -> Seq<char>
    decreases parts.len(),
{
    if parts.len() == 0 {
        Seq::empty()
    } else if parts.len() == 1 {
        parts[0]
    } else {
        joined(parts.drop_last(), sep) + sep + parts.last()
    }
}

// ─── Order of byte strings ───────────────────────────────────────────────────

/// No byte string is less than itself.
pub proof fn lemma_lex_irreflexive(a: Seq<u8>)
    ensures
        !lex_less(a, a),
    decreases a.len(),
{
    if a.len() > 0 {
        lemma_lex_irreflexive(a.drop_first());
    }
}

/// The order is transitive.
pub proof fn lemma_lex_transitive(a: Seq<u8>, b: Seq<u8>, c: Seq<u8>)
    requires
        lex_less(a, b),
        lex_less(b, c),
    ensures
        lex_less(a, c),
    decreases a.len(),
{
    if a.len() > 0 && a[0] == b[0] && b[0] == c[0] {
        lemma_lex_transitive(a.drop_first(), b.drop_first(), c.drop_first());
    }
}

/// Two different byte strings are ordered one way or the other.
pub proof fn lemma_lex_total(a: Seq<u8>, b: Seq<u8>)
    ensures
        a == b || lex_less(a, b) || lex_less(b, a),
    decreases a.len(),
{
    if a.len() == 0 || b.len() == 0 {
        if a.len() == 0 && b.len() == 0 {
            assert(a =~= b);
        }
    } else if a[0] == b[0] {
        lemma_lex_total(a.drop_first(), b.drop_first());
        if a.drop_first() == b.drop_first() {
            assert(a =~= seq![a[0]] + a.drop_first());
            assert(b =~= seq![b[0]] + b.drop_first());
        }
    }
}

/// Neither of two byte strings is less than the other only if they are equal.
pub proof fn lemma_lex_asymmetric(a: Seq<u8>, b: Seq<u8>)
    requires
        lex_less(a, b),
    ensures
        !lex_less(b, a),
        a != b,
{
    if lex_less(b, a) {
        lemma_lex_transitive(a, b, a);
    }
    lemma_lex_irreflexive(a);
}

/// The byte strings of `s` strictly ascend.
pub open spec fn lex_ascends(s: Seq<Seq<u8>>) -> bool {
    forall|i: int, j: int|
        0 <= i < j < s.len() ==> lex_less(#[trigger] s[i], #[trigger] s[j])
}

proof fn lemma_front_member(s: Seq<Seq<u8>>, t: Seq<Seq<u8>>, x: Seq<u8>)
    requires
        lex_ascends(s),
        s.len() > 0,
        t.len() > 0,
        s.last() == t.last(),
        s.contains(x) ==> t.contains(x),
    ensures
        s.drop_last().contains(x) ==> t.drop_last().contains(x),
{
    if s.drop_last().contains(x) {
        let a = s.drop_last().index_of(x);
        assert(s[a] == x);
        assert(lex_less(s[a], s[s.len() - 1]));
        lemma_lex_irreflexive(x);
        let b = t.index_of(x);
        assert(t[b] == x);
        assert(b < t.len() - 1);
        assert(t.drop_last()[b] == x);
    }
}

/// A strictly ascending list is determined by its members.
pub proof fn lemma_ascending_unique(s: Seq<Seq<u8>>, t: Seq<Seq<u8>>)
    requires
        lex_ascends(s),
        lex_ascends(t),
        forall|x: Seq<u8>| #[trigger] s.contains(x) <==> t.contains(x),
    ensures
        s == t,
    decreases s.len(),
{
    if s.len() == 0 {
        if t.len() > 0 {
            assert(t.contains(t[0]));
            assert(s.contains(t[0]));
        }
        assert(s =~= t);
    } else {
        assert(s.contains(s.last())) by {
            assert(s[s.len() - 1] == s.last());
        }
        assert(t.contains(s.last()));
        assert(t.contains(t.last())) by {
            assert(t[t.len() - 1] == t.last());
        }
        assert(s.contains(t.last()));
        let i = t.index_of(s.last());
        let j = s.index_of(t.last());
        if i < t.len() - 1 {
            assert(lex_less(t[i], t[t.len() - 1]));
            if j < s.len() - 1 {
                assert(lex_less(s[j], s[s.len() - 1]));
                lemma_lex_asymmetric(s.last(), t.last());
            } else {
                lemma_lex_irreflexive(s.last());
            }
        }
        assert(s.last() == t.last());
        let sf = s.drop_last();
        let tf = t.drop_last();
        assert(lex_ascends(sf)) by {
            assert forall|a: int, b: int| 0 <= a < b < sf.len() implies lex_less(
                #[trigger] sf[a],
                #[trigger] sf[b],
            ) by {
                assert(sf[a] == s[a] && sf[b] == s[b]);
            }
        }
        assert(lex_ascends(tf)) by {
            assert forall|a: int, b: int| 0 <= a < b < tf.len() implies lex_less(
                #[trigger] tf[a],
                #[trigger] tf[b],
            ) by {
                assert(tf[a] == t[a] && tf[b] == t[b]);
            }
        }
        assert forall|x: Seq<u8>| #[trigger] sf.contains(x) <==> tf.contains(x) by {
            lemma_front_member(s, t, x);
            lemma_front_member(t, s, x);
        }
        lemma_ascending_unique(sf, tf);
        assert(s =~= sf.push(s.last()));
        assert(t =~= tf.push(t.last()));
    }
}

/// Byte-wise equality of two slices.
pub fn same_bytes(a: &[u8], b: &[u8]) -> (same: bool)
    ensures
        same == (a@ == b@),
{
    if a.len() != b.len() {
        return false;
    }
    let mut i: usize = 0;
    while i < a.len()
        invariant
            i <= a.len(),
            a.len() == b.len(),
            forall|j: int| 0 <= j < i ==> a@[j] == b@[j],
        decreases a.len() - i,
    {
        if a[i] != b[i] {
            return false;
        }
        i += 1;
    }
    assert(a@ =~= b@);
    true
}

/// Byte-wise lexicographic comparison of two slices.
pub fn bytes_less(a: &[u8], b: &[u8]) -> (less: bool)
    ensures
        less == lex_less(a@, b@),
{
    let mut i: usize = 0;
    assert(a@.skip(0) =~= a@ && b@.skip(0) =~= b@);
    while i < a.len() && i < b.len()
        invariant
            i <= a.len(),
            i <= b.len(),
            lex_less(a@, b@) == lex_less(a@.skip(i as int), b@.skip(i as int)),
        decreases a.len() - i,
    {
        assert(a@.skip(i as int).drop_first() =~= a@.skip(i + 1));
        assert(b@.skip(i as int).drop_first() =~= b@.skip(i + 1));
        if a[i] < b[i] {
            return true;
        }
        if a[i] > b[i] {
            return false;
        }
        i += 1;
    }
    i < b.len()
}

/// Whether `prefix` stands at the front of `s`.
pub fn bytes_start_with(s: &[u8], prefix: &[u8]) -> (yes: bool)
    ensures
        yes == prefix@.is_prefix_of(s@),
{
    if prefix.len() > s.len() {
        return false;
    }
    let mut i: usize = 0;
    while i < prefix.len()
        invariant
            i <= prefix.len() <= s.len(),
            forall|j: int| 0 <= j < i ==> s@[j] == prefix@[j],
        decreases prefix.len() - i,
    {
        if s[i] != prefix[i] {
            proof {
                if prefix@.is_prefix_of(s@) {
                    assert(s@.subrange(0, prefix@.len() as int)[i as int] == prefix@[i as int]);
                }
            }
            return false;
        }
        i += 1;
    }
    assert(s@.subrange(0, prefix@.len() as int) =~= prefix@);
    true
}

// ─── Strings ─────────────────────────────────────────────────────────────────

/// Equal UTF-8 bytes come from equal characters.
pub proof fn lemma_encoding_injective(a: Seq<char>, b: Seq<char>)
    requires
        encode_utf8(a) == encode_utf8(b),
    ensures
        a == b,
{
    encode_utf8_decode_utf8(a);
    encode_utf8_decode_utf8(b);
}

/// Equality of two strings.
pub fn same_str(a: &str, b: &str) -> (same: bool)
    ensures
        same == (a@ == b@),
{
    let same = same_bytes(a.as_bytes(), b.as_bytes());
    proof {
        if same {
            lemma_encoding_injective(a@, b@);
        }
    }
    same
}

/// Equality of an optional string with a string.
pub fn opt_is(a: &Option<String>, b: &str) -> (same: bool)
    ensures
        same == (opt_text(*a) == Some(b@)),
{
    match a {
        Some(t) => same_str(t.as_str(), b),
        None => false,
    }
}

/// Whether `list` holds a string equal to `s`.
pub fn list_holds(list: &[String], s: &str) -> (yes: bool)
    ensures
        yes == texts(list@).contains(s@),
{
    let mut i: usize = 0;
    while i < list.len()
        invariant
            i <= list.len(),
            forall|j: int| 0 <= j < i ==> list@[j]@ != s@,
        decreases list.len() - i,
    {
        if same_str(list[i].as_str(), s) {
            assert(texts(list@)[i as int] == s@);
            return true;
        }
        i += 1;
    }
    false
}

/// The characters of `s` as a vector.
pub fn to_chars(s: &str) -> (chars: Vec<char>)
    ensures
        chars@ == s@,
{
    let mut chars: Vec<char> = Vec::new();
    for c in it: s.chars()
        invariant
            it.seq() == s@,
            chars@ == it.seq().take(it.index() as int),
    {
        chars.push(c);
    }
    assert(chars@ =~= s@);
    chars
}

/// The string made of `chars`.
pub fn from_chars(chars: &[char]) -> (s: String)
    ensures
        s@ == chars@,
{
    let mut s = String::new();
    let mut i: usize = 0;
    while i < chars.len()
        invariant
            i <= chars.len(),
            s@ == chars@.take(i as int),
        decreases chars.len() - i,
    {
        s.push(chars[i]);
        i += 1;
        assert(chars@.take(i as int) =~= chars@.take(i - 1).push(chars@[i - 1]));
    }
    assert(chars@.take(i as int) =~= chars@);
    s
}

/// The string made of `chars[from..to]`.
pub fn from_range(chars: &[char], from: usize, to: usize) -> (s: String)
    requires
        from <= to <= chars@.len(),
    ensures
        s@ == chars@.subrange(from as int, to as int),
{
    from_chars(vstd::slice::slice_subrange(chars, from, to))
}

/// A copy of a list of strings.
pub fn copy_texts(list: &[String]) -> (copy: Vec<String>)
    ensures
        texts(copy@) == texts(list@),
{
    let mut copy: Vec<String> = Vec::new();
    let mut i: usize = 0;
    while i < list.len()
        invariant
            i <= list.len(),
            copy@.len() == i,
            forall|j: int| 0 <= j < i ==> copy@[j]@ == list@[j]@,
        decreases list.len() - i,
    {
        copy.push(list[i].clone());
        i += 1;
    }
    assert(texts(copy@) =~= texts(list@));
    copy
}

/// A copy of an optional string.
pub fn copy_opt(s: &Option<String>) -> (copy: Option<String>)
    ensures
        opt_text(copy) == opt_text(*s),
{
    match s {
        Some(t) => Some(t.clone()),
        None => None,
    }
}

/// A copy of a byte slice.
pub fn copy_bytes(b: &[u8]) -> (copy: Vec<u8>)
    ensures
        copy@ == b@,
{
    vstd::slice::slice_to_vec(b)
}

/// Whether `prefix` stands at the front of `s`.
pub fn str_starts_with(s: &str, prefix: &str) -> (yes: bool)
    ensures
        yes == prefix@.is_prefix_of(s@),
{
    let s_chars = to_chars(s);
    let p_chars = to_chars(prefix);
    chars_start_with(s_chars.as_slice(), p_chars.as_slice())
}

/// Whether `prefix` stands at the front of `s`.
pub fn chars_start_with(s: &[char], prefix: &[char]) -> (yes: bool)
    ensures
        yes == prefix@.is_prefix_of(s@),
{
    if prefix.len() > s.len() {
        return false;
    }
    chars_occur_at(s, prefix, 0)
}

/// Whether `needle` stands in `hay` at position `at`.
pub fn chars_occur_at(hay: &[char], needle: &[char], at: usize) -> (yes: bool)
    requires
        at + needle@.len() <= hay@.len(),
    ensures
        yes == occurs_at(hay@, needle@, at as int),
        at == 0 ==> yes == needle@.is_prefix_of(hay@),
{
    let mut i: usize = 0;
    while i < needle.len()
        invariant
            i <= needle.len(),
            at + needle.len() <= hay.len(),
            forall|j: int| 0 <= j < i ==> hay@[at + j] == needle@[j],
        decreases needle.len() - i,
    {
        if hay[at + i] != needle[i] {
            proof {
                assert(hay@.subrange(at as int, at + needle@.len())[i as int] != needle@[i as int]);
            }
            return false;
        }
        i += 1;
    }
    assert(hay@.subrange(at as int, at + needle@.len()) =~= needle@);
    true
}

/// Whether `needle` stands anywhere in `hay`.
pub fn str_holds(hay: &str, needle: &str) -> (yes: bool)
    ensures
        yes == holds_seq(hay@, needle@),
{
    let h = to_chars(hay);
    let n = to_chars(needle);
    if n.len() > h.len() {
        return false;
    }
    let mut at: usize = 0;
    while at <= h.len() - n.len()
        invariant
            n.len() <= h.len(),
            at <= h.len() - n.len() + 1,
            h@ == hay@,
            n@ == needle@,
            forall|j: int| 0 <= j < at ==> !#[trigger] occurs_at(hay@, needle@, j),
        decreases h.len() - n.len() + 1 - at,
    {
        if chars_occur_at(h.as_slice(), n.as_slice(), at) {
            assert(occurs_at(hay@, needle@, at as int));
            return true;
        }
        if at == h.len() - n.len() {
            assert(forall|j: int| !#[trigger] occurs_at(hay@, needle@, j));
            return false;
        }
        at += 1;
    }
    false
}

/// Whether `c` is Unicode white space.
pub fn char_is_space(c: char) -> (yes: bool)
    ensures
        yes == is_space(c),
{
    ('\u{9}' <= c && c <= '\u{d}') || c == ' ' || c == '\u{85}' || c == '\u{a0}' || c == '\u{1680}' || ('\u{2000}'
        <= c && c <= '\u{200a}') || c == '\u{2028}' || c == '\u{2029}' || c == '\u{202f}' || c == '\u{205f}' || c
        == '\u{3000}'
}

/// The position in `chars` past the leading white space.
pub fn trim_start_index(chars: &[char]) -> (at: usize)
    ensures
        at <= chars@.len(),
        trim_start_of(chars@) == chars@.skip(at as int),
{
    let mut i: usize = 0;
    assert(chars@.skip(0) =~= chars@);
    while i < chars.len() && char_is_space(chars[i])
        invariant
            i <= chars.len(),
            trim_start_of(chars@) == trim_start_of(chars@.skip(i as int)),
        decreases chars.len() - i,
    {
        assert(chars@.skip(i as int).drop_first() =~= chars@.skip(i + 1));
        i += 1;
    }
    i
}

/// The length of `chars` without the trailing white space.
pub fn trim_end_index(chars: &[char]) -> (end: usize)
    ensures
        end <= chars@.len(),
        trim_end_of(chars@) == chars@.take(end as int),
{
    let mut n: usize = chars.len();
    assert(chars@.take(n as int) =~= chars@);
    while n > 0 && char_is_space(chars[n - 1])
        invariant
            n <= chars.len(),
            trim_end_of(chars@) == trim_end_of(chars@.take(n as int)),
        decreases n,
    {
        assert(chars@.take(n as int).drop_last() =~= chars@.take(n - 1));
        n -= 1;
    }
    n
}

/// `s` without the white space at either end.
pub fn str_trim(s: &str) -> (trimmed: String)
    ensures
        trimmed@ == trim_of(s@),
{
    let chars = to_chars(s);
    let from: usize = trim_start_index(chars.as_slice());
    let tail = vstd::slice::slice_subrange(chars.as_slice(), from, chars.len());
    assert(tail@ =~= chars@.skip(from as int));
    let n: usize = trim_end_index(tail);
    assert(chars@.subrange(from as int, from + n) =~= tail@.take(n as int));
    from_range(chars.as_slice(), from, from + n)
}

/// Text that is all white space trims to nothing, and nothing else does.
pub proof fn lemma_blank_trims_to_nothing(s: Seq<char>)
    ensures
        is_blank(s) == (trim_of(s).len() == 0),
    decreases s.len(),
{
    if s.len() == 0 {
    } else if is_space(s[0]) {
        lemma_blank_trims_to_nothing(s.drop_first());
        assert(trim_start_of(s) == trim_start_of(s.drop_first()));
        if is_blank(s.drop_first()) {
            assert forall|i: int| 0 <= i < s.len() implies is_space(#[trigger] s[i]) by {
                if i > 0 {
                    assert(s.drop_first()[i - 1] == s[i]);
                }
            }
        }
        if is_blank(s) {
            assert forall|i: int| 0 <= i < s.drop_first().len() implies is_space(
                #[trigger] s.drop_first()[i],
            ) by {
                assert(s[i + 1] == s.drop_first()[i]);
            }
        }
    } else {
        lemma_trim_end_keeps(s);
    }
}

proof fn lemma_trim_end_keeps(s: Seq<char>)
    requires
        s.len() > 0,
        !is_space(s[0]),
    ensures
        trim_end_of(s).len() > 0,
    decreases s.len(),
{
    if is_space(s.last()) {
        lemma_trim_end_keeps(s.drop_last());
    }
}

/// Whether `s` is white space only.
pub fn str_is_blank(s: &str) -> (yes: bool)
    ensures
        yes == is_blank(s@),
{
    let chars = to_chars(s);
    let mut i: usize = 0;
    while i < chars.len()
        invariant
            i <= chars.len(),
            chars@ == s@,
            forall|j: int| 0 <= j < i ==> is_space(#[trigger] s@[j]),
        decreases chars.len() - i,
    {
        if !char_is_space(chars[i]) {
            return false;
        }
        i += 1;
    }
    true
}

/// The ASCII lower-case form of `c`.
pub fn char_lower(c: char) -> (l: char)
    ensures
        l == lower(c),
{
    if 'A' <= c && c <= 'Z' {
        (c as u8 + 32) as char
    } else {
        c
    }
}

/// `s` with every ASCII capital in lower case.
pub fn str_lower(s: &str) -> (low: String)
    ensures
        low@ == lower_of(s@),
{
    let chars = to_chars(s);
    let mut low = String::new();
    let mut i: usize = 0;
    while i < chars.len()
        invariant
            i <= chars.len(),
            chars@ == s@,
            low@ == lower_of(s@.take(i as int)),
        decreases chars.len() - i,
    {
        low.push(char_lower(chars[i]));
        i += 1;
        assert(lower_of(s@.take(i as int)) =~= lower_of(s@.take(i - 1)).push(lower(s@[i - 1])));
    }
    assert(s@.take(i as int) =~= s@);
    low
}

/// The decimal digits of `n`.
pub fn decimal_of(n: u64) -> (s: String)
    ensures
        s@ == decimal(n as nat),
    decreases n,
{
    let digit = (48 + (n % 10) as u8) as char;
    if n < 10 {
        let mut s = String::new();
        s.push(digit);
        assert(s@ =~= decimal(n as nat));
        s
    } else {
        let mut s = decimal_of(n / 10);
        s.push(digit);
        s
    }
}

/// The strings of `parts` one after the other, `sep` between neighbours.
pub fn join(parts: &[String], sep: &str) -> (s: String)
    ensures
        s@ == joined(texts(parts@), sep@),
{
    let mut s = String::new();
    let mut i: usize = 0;
    while i < parts.len()
        invariant
            i <= parts.len(),
            s@ == joined(texts(parts@).take(i as int), sep@),
        decreases parts.len() - i,
    {
        if i > 0 {
            s.append(sep);
        }
        s.append(parts[i].as_str());
        i += 1;
        proof {
            let now = texts(parts@).take(i as int);
            assert(now.drop_last() =~= texts(parts@).take(i - 1));
            if i == 1 {
                assert(s@ =~= now[0]);
            }
        }
    }
    assert(texts(parts@).take(i as int) =~= texts(parts@));
    s
}

} // verus!
