//! Pagination cursors: opaque URL-safe text that a client hands back to resume a listing.
//!
//! Two kinds exist. A key cursor holds the raw bytes of the last key that a page emitted. An
//! in-memory cursor holds an offset together with the id of the snapshot it counts in.
use vstd::prelude::*;

use crate::model::ToolError;
use crate::text::{same_str, to_chars};

verus! {

/// An opaque cursor as the client sees it.
#[derive(Debug, Clone)]
pub struct Cursor(pub String);

// ─── URL-safe base64 without padding ─────────────────────────────────────────

/// The symbol of the 6-bit value `n`.
pub open spec fn symbol_of(n: int) -> char {
    if n < 26 {
        ((65 + n) as u8) as char
    } else if n < 52 {
        ((97 + n - 26) as u8) as char
    } else if n < 62 {
        ((48 + n - 52) as u8) as char
    } else if n == 62 {
        '-'
    } else {
        '_'
    }
}

/// The 6-bit value of a symbol.
pub open spec fn value_of(c: char) -> Option<int> {
    if 'A' <= c <= 'Z' {
        Some(c as int - 65)
    } else if 'a' <= c <= 'z' {
        Some(c as int - 97 + 26)
    } else if '0' <= c <= '9' {
        Some(c as int - 48 + 52)
    } else if c == '-' {
        Some(62)
    } else if c == '_' {
        Some(63)
    } else {
        None
    }
}

/// The URL-safe base64 text of `b`, without padding.
pub open spec fn base64(b: Seq<u8>) -> Seq<char>
    decreases b.len(),
{
    if b.len() == 0 {
        Seq::empty()
    } else if b.len() == 1 {
        seq![symbol_of(b[0] as int / 4), symbol_of((b[0] as int % 4) * 16)]
    } else if b.len() == 2 {
        seq![
            symbol_of(b[0] as int / 4),
            symbol_of((b[0] as int % 4) * 16 + b[1] as int / 16),
            symbol_of((b[1] as int % 16) * 4),
        ]
    } else {
        seq![
            symbol_of(b[0] as int / 4),
            symbol_of((b[0] as int % 4) * 16 + b[1] as int / 16),
            symbol_of((b[1] as int % 16) * 4 + b[2] as int / 64),
            symbol_of(b[2] as int % 64),
        ] + base64(b.skip(3))
    }
}

/// The bytes that groups of symbols stand for; bits past the last whole byte are dropped.
spec fn unbase64(s: Seq<char>) -> Option<Seq<u8>>
    decreases s.len(),
{
    if s.len() == 0 {
        Some(Seq::empty())
    } else if s.len() == 1 || value_of(s[0]) is None || value_of(s[1]) is None {
        None
    } else {
        let v0 = value_of(s[0])->0;
        let v1 = value_of(s[1])->0;
        let b0 = (v0 * 4 + v1 / 16) as u8;
        if s.len() == 2 {
            Some(seq![b0])
        } else if value_of(s[2]) is None {
            None
        } else {
            let v2 = value_of(s[2])->0;
            let b1 = ((v1 % 16) * 16 + v2 / 4) as u8;
            if s.len() == 3 {
                Some(seq![b0, b1])
            } else if value_of(s[3]) is None {
                None
            } else {
                let v3 = value_of(s[3])->0;
                let b2 = ((v2 % 4) * 64 + v3) as u8;
                match unbase64(s.skip(4)) {
                    Some(rest) => Some(seq![b0, b1, b2] + rest),
                    None => None,
                }
            }
        }
    }
}

proof fn lemma_symbol_value(n: int)
    requires
        0 <= n < 64,
    ensures
        value_of(symbol_of(n)) == Some(n),
{
}

/// Decoding gives back what was encoded.
proof fn lemma_base64_round(b: Seq<u8>)
    ensures
        unbase64(base64(b)) == Some(b),
    decreases b.len(),
{
    let s = base64(b);
    if b.len() == 0 {
        assert(s =~= Seq::empty());
        assert(b =~= Seq::empty());
    } else {
        let b0 = b[0] as int;
        lemma_symbol_value(b0 / 4);
        if b.len() == 1 {
            lemma_symbol_value((b0 % 4) * 16);
            assert(unbase64(s)->0 =~= b);
        } else {
            let b1 = b[1] as int;
            lemma_symbol_value((b0 % 4) * 16 + b1 / 16);
            if b.len() == 2 {
                lemma_symbol_value((b1 % 16) * 4);
                assert(unbase64(s)->0 =~= b);
            } else {
                let b2 = b[2] as int;
                lemma_symbol_value((b1 % 16) * 4 + b2 / 64);
                lemma_symbol_value(b2 % 64);
                lemma_base64_round(b.skip(3));
                assert(s.skip(4) =~= base64(b.skip(3)));
                assert(unbase64(s)->0 =~= b);
            }
        }
    }
}

/// Different bytes have different text.
pub proof fn law_base64_injective(a: Seq<u8>, b: Seq<u8>)
    requires
        base64(a) == base64(b),
    ensures
        a == b,
{
    lemma_base64_round(a);
    lemma_base64_round(b);
}

fn symbol(n: u8) -> (c: char)
    requires
        n < 64,
    ensures
        c == symbol_of(n as int),
{
    if n < 26 {
        (65 + n) as char
    } else if n < 52 {
        (97 + (n - 26)) as char
    } else if n < 62 {
        (48 + (n - 52)) as char
    } else if n == 62 {
        '-'
    } else {
        '_'
    }
}

fn value(c: char) -> (v: Option<u8>)
    ensures
        match v {
            Some(n) => value_of(c) == Some(n as int) && n < 64,
            None => value_of(c) is None,
        },
{
    if 'A' <= c && c <= 'Z' {
        Some(c as u8 - 65)
    } else if 'a' <= c && c <= 'z' {
        Some(c as u8 - 97 + 26)
    } else if '0' <= c && c <= '9' {
        Some(c as u8 - 48 + 52)
    } else if c == '-' {
        Some(62)
    } else if c == '_' {
        Some(63)
    } else {
        None
    }
}

/// The URL-safe base64 text of `b`, without padding.
pub fn to_base64(b: &[u8]) -> (s: String)
    ensures
        s@ == base64(b@),
{
    let mut s = String::new();
    let mut i: usize = 0;
    assert(b@.skip(0) =~= b@);
    assert(s@ + base64(b@.skip(0)) =~= base64(b@));
    while b.len() - i >= 3
        invariant
            i <= b.len(),
            s@ + base64(b@.skip(i as int)) == base64(b@),
        decreases b.len() - i,
    {
        let ghost rest = b@.skip(i as int);
        let ghost before = s@;
        s.push(symbol(b[i] / 4));
        s.push(symbol((b[i] % 4) * 16 + b[i + 1] / 16));
        s.push(symbol((b[i + 1] % 16) * 4 + b[i + 2] / 64));
        s.push(symbol(b[i + 2] % 64));
        i += 3;
        assert(rest.skip(3) =~= b@.skip(i as int));
        assert(s@ + base64(b@.skip(i as int)) =~= before + base64(rest));
    }
    let ghost rest = b@.skip(i as int);
    let ghost before = s@;
    if b.len() - i == 1 {
        s.push(symbol(b[i] / 4));
        s.push(symbol((b[i] % 4) * 16));
    } else if b.len() - i == 2 {
        s.push(symbol(b[i] / 4));
        s.push(symbol((b[i] % 4) * 16 + b[i + 1] / 16));
        s.push(symbol((b[i + 1] % 16) * 4));
    }
    assert(s@ =~= before + base64(rest));
    s
}

fn decode_groups(s: &[char]) -> (b: Option<Vec<u8>>)
    ensures
        match b {
            Some(v) => unbase64(s@) == Some(v@),
            None => unbase64(s@) is None,
        },
{
    let mut out: Vec<u8> = Vec::new();
    let mut i: usize = 0;
    assert(s@.skip(0) =~= s@);
    proof {
        if unbase64(s@) is Some {
            assert(out@ + unbase64(s@)->0 =~= unbase64(s@)->0);
        }
    }
    while i < s.len()
        invariant
            i <= s.len(),
            unbase64(s@) is Some == unbase64(s@.skip(i as int)) is Some,
            unbase64(s@) is Some ==> unbase64(s@)->0 == out@ + unbase64(s@.skip(i as int))->0,
        decreases s.len() - i,
    {
        let ghost rest = s@.skip(i as int);
        let ghost before = out@;
        let left: usize = s.len() - i;
        if left == 1 {
            return None;
        }
        let v0: u8 = match value(s[i]) {
            Some(v) => v,
            None => {
                return None;
            },
        };
        let v1: u8 = match value(s[i + 1]) {
            Some(v) => v,
            None => {
                return None;
            },
        };
        out.push(v0 * 4 + v1 / 16);
        if left == 2 {
            assert(out@ =~= before + unbase64(rest)->0);
            return Some(out);
        }
        let v2: u8 = match value(s[i + 2]) {
            Some(v) => v,
            None => {
                return None;
            },
        };
        out.push((v1 % 16) * 16 + v2 / 4);
        if left == 3 {
            assert(out@ =~= before + unbase64(rest)->0);
            return Some(out);
        }
        let v3: u8 = match value(s[i + 3]) {
            Some(v) => v,
            None => {
                return None;
            },
        };
        out.push((v2 % 4) * 64 + v3);
        i += 4;
        proof {
            assert(rest.skip(4) =~= s@.skip(i as int));
            if unbase64(rest) is Some {
                assert(out@ + unbase64(s@.skip(i as int))->0 =~= before + unbase64(rest)->0);
            }
        }
    }
    proof {
        assert(s@.skip(i as int) =~= Seq::<char>::empty());
        assert(out@ + Seq::<u8>::empty() =~= out@);
    }
    Some(out)
}

/// The bytes whose URL-safe base64 text is `s`, or `None` where `s` is the text of no bytes.
pub fn from_base64(s: &str) -> (b: Option<Vec<u8>>)
    ensures
        match b {
            Some(v) => base64(v@) == s@,
            None => forall|v: Seq<u8>| #[trigger] base64(v) != s@,
        },
{
    let chars = to_chars(s);
    let decoded = decode_groups(chars.as_slice());
    proof {
        assert forall|v: Seq<u8>| #[trigger] base64(v) == s@ implies unbase64(s@) == Some(v) by {
            lemma_base64_round(v);
        }
    }
    match decoded {
        Some(v) => {
            let again = to_base64(v.as_slice());
            if same_str(again.as_str(), s) {
                Some(v)
            } else {
                None
            }
        },
        None => None,
    }
}

// ─── MessagePack of an in-memory cursor ──────────────────────────────────────

/// What `rmp_serde::to_vec` writes for the pair of an offset and a snapshot id.
pub uninterp spec fn packed_pair(offset: u64, snapshot_id: u32) -> Seq<u8>;

/// What `rmp_serde::from_slice` reads from bytes as a pair of an offset and a snapshot id.
pub uninterp spec fn unpacked_pair(bytes: Seq<u8>) -> Option<(u64, u32)>;

/// `rmp_serde::to_vec` on a pair of integers: the MessagePack bytes are a function of the pair.
#[verifier::external_body]
fn pack_pair(offset: u64, snapshot_id: u32) -> (bytes: Vec<u8>)
    ensures
        bytes@ == packed_pair(offset, snapshot_id),
{
    rmp_serde::to_vec(&(offset, snapshot_id)).unwrap_or_default()
}

/// `rmp_serde::from_slice` as a pair of integers: the reading is a function of the bytes, and the
/// bytes written for a pair read back as that pair.
#[verifier::external_body]
fn unpack_pair(bytes: &[u8]) -> (pair: Option<(u64, u32)>)
    ensures
        pair == unpacked_pair(bytes@),
        forall|o: u64, s: u32|
            bytes@ == #[trigger] packed_pair(o, s) ==> pair == Some((o, s)),
{
    rmp_serde::from_slice::<(u64, u32)>(bytes).ok()
}

/// The text of an in-memory cursor.
pub open spec fn in_memory_text(offset: u64, snapshot_id: u32) -> Seq<char> {
    base64(packed_pair(offset, snapshot_id))
}

impl Cursor {
    /// The cursor that resumes after the key `key`.
    pub fn encode_fjall(key: &[u8]) -> (c: Cursor)
        ensures
            c.0@ == base64(key@),
    {
        Cursor(to_base64(key))
    }

    /// The key of a key cursor. Text that no key encodes to is refused.
    pub fn decode_fjall(&self) -> (r: Result<Vec<u8>, ToolError>)
        ensures
            match r {
                Ok(key) => self.0@ == base64(key@),
                Err(e) => (forall|v: Seq<u8>| #[trigger] base64(v) != self.0@) && e is InvalidParams
                    && e.text() == "invalid cursor"@,
            },
    {
        match from_base64(self.0.as_str()) {
            Some(key) => Ok(key),
            None => Err(ToolError::InvalidParams(String::from_str("invalid cursor"))),
        }
    }

    /// The cursor at `offset` in the snapshot `snapshot_id`.
    pub fn encode_in_memory(offset: u64, snapshot_id: u32) -> (c: Cursor)
        ensures
            c.0@ == in_memory_text(offset, snapshot_id),
    {
        Cursor(to_base64(pack_pair(offset, snapshot_id).as_slice()))
    }

    /// The offset and snapshot id of an in-memory cursor. Text that is not base64, and bytes that
    /// do not hold a pair of integers, are refused.
    pub fn decode_in_memory(&self) -> (r: Result<(u64, u32), ToolError>)
        ensures
            match r {
                Ok(pair) => exists|b: Seq<u8>|
                    #[trigger] base64(b) == self.0@ && unpacked_pair(b) == Some(pair),
                Err(e) => (forall|b: Seq<u8>|
                    #[trigger] base64(b) == self.0@ ==> unpacked_pair(b) is None) && e
                    is InvalidParams && e.text() == "invalid cursor"@,
            },
            forall|o: u64, s: u32|
                self.0@ == #[trigger] in_memory_text(o, s) ==> r is Ok && r->Ok_0 == (o, s),
    {
        match from_base64(self.0.as_str()) {
            Some(bytes) => {
                let pair = unpack_pair(bytes.as_slice());
                proof {
                    assert forall|b: Seq<u8>| #[trigger] base64(b) == self.0@ implies b
                        == bytes@ by {
                        law_base64_injective(b, bytes@);
                    }
                }
                match pair {
                    Some(p) => Ok(p),
                    None => Err(ToolError::InvalidParams(String::from_str("invalid cursor"))),
                }
            },
            None => Err(ToolError::InvalidParams(String::from_str("invalid cursor"))),
        }
    }
}

/// Build an in-memory cursor with the given offset and snapshot id, as the text a client receives.
pub fn encode_in_memory_cursor(offset: u64, snapshot_id: u32) -> (text: String)
    ensures
        text@ == in_memory_text(offset, snapshot_id),
{
    Cursor::encode_in_memory(offset, snapshot_id).0
}

} // verus!
