//! Who this server is: the first of its candidate names that is a valid agent id.
use vstd::prelude::*;

use crate::text::{is_blank, lemma_blank_trims_to_nothing, opt_text, str_trim, trim_of};

verus! {

/// A candidate name, and whether it is a valid agent id.
#[derive(Debug)]
pub struct Candidate {
    pub name: String,
    pub valid: bool,
}

/// The name of a candidate that is valid.
pub open spec fn valid_name(c: Option<Candidate>) -> Option<Seq<char>> {
    match c {
        Some(x) => if x.valid {
            Some(x.name@)
        } else {
            None
        },
        None => None,
    }
}

/// The identity: the environment's candidate, else the configuration's, else the persisted one, else
/// `anon`. An invalid candidate is passed over.
pub open spec fn identity_of(
    env: Option<Candidate>,
    config: Option<Candidate>,
    persisted: Option<Candidate>,
) -> Seq<char> {
    if valid_name(env) is Some {
        valid_name(env)->0
    } else if valid_name(config) is Some {
        valid_name(config)->0
    } else if valid_name(persisted) is Some {
        valid_name(persisted)->0
    } else {
        "anon"@
    }
}

fn take_valid(c: Option<Candidate>) -> (name: Option<String>)
    ensures
        opt_text(name) == valid_name(c),
{
    match c {
        Some(x) => if x.valid {
            Some(x.name)
        } else {
            None
        },
        None => None,
    }
}

/// Resolve the identity of the server.
pub fn resolve_agent_id(
    env: Option<Candidate>,
    config: Option<Candidate>,
    persisted: Option<Candidate>,
) -> (id: String)
    ensures
        id@ == identity_of(env, config, persisted),
{
    match take_valid(env) {
        Some(id) => {
            return id;
        },
        None => {},
    }
    match take_valid(config) {
        Some(id) => {
            return id;
        },
        None => {},
    }
    match take_valid(persisted) {
        Some(id) => id,
        None => String::from_str("anon"),
    }
}

/// The id in the text of the identity file, without the white space around it; none where it is
/// blank.
pub fn persisted_id(existing: &str) -> (id: Option<String>)
    ensures
        opt_text(id) == (if is_blank(existing@) {
            None
        } else {
            Some(trim_of(existing@))
        }),
{
    let trimmed = str_trim(existing);
    proof {
        lemma_blank_trims_to_nothing(existing@);
    }
    if trimmed.as_str().unicode_len() == 0 {
        None
    } else {
        Some(trimmed)
    }
}

/// One hexadecimal digit.
pub open spec fn hex_digit(n: int) -> char {
    if n < 10 {
        ((48 + n) as u8) as char
    } else {
        ((87 + n) as u8) as char
    }
}

/// The lower-case hexadecimal digits of `n`, most significant first.
pub open spec fn hexadecimal(n: nat) -> Seq<char>
    decreases n,
{
    if n < 16 {
        seq![hex_digit(n as int)]
    } else {
        hexadecimal(n / 16).push(hex_digit((n % 16) as int))
    }
}

fn hex_of(n: u128) -> (s: String)
    ensures
        s@ == hexadecimal(n as nat),
    decreases n,
{
    let d: u8 = (n % 16) as u8;
    let c: char = if d < 10 {
        (48 + d) as char
    } else {
        (87 + d) as char
    };
    assert(c == hex_digit((n % 16) as int));
    let mut s = if n < 16 {
        String::from_str("")
    } else {
        hex_of(n / 16)
    };
    s.push(c);
    proof {
        reveal_strlit("");
        assert(""@ =~= Seq::<char>::empty());
        assert(s@ =~= hexadecimal(n as nat));
    }
    s
}

/// A fresh identity, from the process id and the time in nanoseconds.
pub fn fresh_id(pid: u32, nanos: u128) -> (id: String)
    ensures
        id@ == "session-"@ + hexadecimal(pid as nat) + "-"@ + hexadecimal(nanos as nat),
{
    let mut t = String::from_str("session-");
    t.append(hex_of(pid as u128).as_str());
    t.append("-");
    t.append(hex_of(nanos).as_str());
    t
}

/// The environment's valid candidate wins over every other.
pub proof fn law_environment_wins(
    env: Option<Candidate>,
    config1: Option<Candidate>,
    persisted1: Option<Candidate>,
    config2: Option<Candidate>,
    persisted2: Option<Candidate>,
)
    requires
        valid_name(env) is Some,
    ensures
        identity_of(env, config1, persisted1) == identity_of(env, config2, persisted2),
{
}

} // verus!
