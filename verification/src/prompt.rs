//! The decisions of the interactive prompts: what a typed line means, and
//! whether an answer is a yes. Reading and writing the lines is left to the
//! caller.
use crate::digits::{self, is_unsigned_text, unsigned_text_value};
use vstd::prelude::*;
use vstd::string::StrSliceExecFns;

verus! {

/// What a line typed at a numeric prompt means.
#[derive(Debug, PartialEq, Eq, Structural)]
pub enum Reply {
    /// A number within the accepted range.
    Accepted(u64),
    /// A number of the right type, outside the accepted range.
    OutOfRange(u64),
    /// Not a number of the asked-for type.
    NotANumber,
}

/// The value of `s` when it is an unsigned integer of at most `type_max`
/// (the largest value of the integer type asked for), as std's integer
/// parsing reads it.
pub open spec fn uint_value(s: Seq<char>, type_max: nat) -> Option<nat> {
    if is_unsigned_text(s) && unsigned_text_value(s) <= type_max {
        Some(unsigned_text_value(s))
    } else {
        None
    }
}

/// Parse `s` as an unsigned integer type whose largest value is `type_max`:
/// `str::parse::<u32>` for `type_max == u32::MAX`, and so on.
pub fn parse_uint(s: &str, type_max: u64) -> (r: Option<u64>)
    ensures
        r matches Some(v) ==> uint_value(s@, type_max as nat) == Some(v as nat),
        r is None ==> uint_value(s@, type_max as nat) is None,
{
    match digits::parse_u64(s) {
        Some(v) => {
            if v <= type_max {
                Some(v)
            } else {
                None
            }
        },
        None => None,
    }
}

/// What a line typed at a prompt for a number in `lo..=hi` means, the
/// number being read as an unsigned integer of at most `type_max`.
pub open spec fn reply_of(s: Seq<char>, lo: nat, hi: nat, type_max: nat) -> Reply {
    match uint_value(s, type_max) {
        Some(v) => if lo <= v <= hi {
            Reply::Accepted(v as u64)
        } else {
            Reply::OutOfRange(v as u64)
        },
        None => Reply::NotANumber,
    }
}

/// Classify a (trimmed) line typed at a prompt for a number in `lo..=hi`.
pub fn classify_reply(s: &str, lo: u64, hi: u64, type_max: u64) -> (r: Reply)
    ensures
        r == reply_of(s@, lo as nat, hi as nat, type_max as nat),
{
    match parse_uint(s, type_max) {
        Some(v) => {
            if lo <= v && v <= hi {
                Reply::Accepted(v)
            } else {
                Reply::OutOfRange(v)
            }
        },
        None => Reply::NotANumber,
    }
}

/// `s` is `"y"` or `"yes"`.
pub open spec fn is_yes_text(s: Seq<char>) -> bool {
    s == seq!['y'] || s == seq!['y', 'e', 's']
}

/// The answer to a yes/no question is a yes: `"y"` or `"yes"` exactly.
pub fn is_yes(answer: &str) -> (r: bool)
    ensures
        r == is_yes_text(answer@),
{
    let n = answer.unicode_len();
    if n == 1 {
        let c = answer.get_char(0);
        proof {
            if c == 'y' {
                assert(answer@ =~= seq!['y']);
            }
        }
        c == 'y'
    } else if n == 3 {
        let c0 = answer.get_char(0);
        let c1 = answer.get_char(1);
        let c2 = answer.get_char(2);
        proof {
            if c0 == 'y' && c1 == 'e' && c2 == 's' {
                assert(answer@ =~= seq!['y', 'e', 's']);
            }
        }
        c0 == 'y' && c1 == 'e' && c2 == 's'
    } else {
        false
    }
}

} // verus!
