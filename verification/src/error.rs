//! The error type of the library: a message bound to a number, which makes errors easy to test for.
use vstd::prelude::*;

use crate::text::{chars_to_string, decimal_chars, spec_decimal, str_to_chars};

verus! {

/// simple struct used to provide control on how errors are displayed
/// Binding messages with numbers makes testing easier
#[derive(Debug)]
pub struct Error {
    pub msg: String,
    pub code: usize,
}

/// Whether an executable result agrees with a result stated with error codes: both succeed with
/// the same value, or both fail with the same code.
pub open spec fn same_result<T>(r: Result<T, Error>, s: Result<T, usize>) -> bool {
    match (r, s) {
        (Ok(a), Ok(b)) => a == b,
        (Err(e), Err(c)) => e.code == c,
        _ => false,
    }
}

/// Whether an executable result agrees, through **f**, with a result stated with error codes:
/// both succeed and **f** maps the value to the stated one, or both fail with the same code.
pub open spec fn agrees<T, U>(r: Result<T, Error>, s: Result<U, usize>, f: spec_fn(T) -> U) -> bool {
    match (r, s) {
        (Ok(a), Ok(b)) => f(a) == b,
        (Err(e), Err(c)) => e.code == c,
        _ => false,
    }
}

/// The text "Error:CODE: MSG" that an error displays as.
pub open spec fn error_text(code: usize, msg: Seq<char>) -> Seq<char> {
    "Error:"@ + spec_decimal(code as nat) + ": "@ + msg
}

impl Error {
    /// constructor
    pub fn make(code: usize, msg: &str) -> (e: Error)
        ensures
            e.code == code,
            e.msg@ == msg@,
    {
        Error { code, msg: msg.to_owned() }
    }

    /// Builds an error whose message is **msg** followed by **detail** and **tail**.
    pub fn with_detail(code: usize, msg: &str, detail: &[char], tail: &str) -> (e: Error)
        ensures
            e.code == code,
            e.msg@ == msg@ + detail@ + tail@,
    {
        let mut v = str_to_chars(msg);
        let mut i: usize = 0;
        while i < detail.len()
            invariant
                i <= detail.len(),
                v@ == msg@ + detail@.take(i as int),
            decreases detail.len() - i,
        {
            v.push(detail[i]);
            proof {
                assert(detail@.take(i + 1) =~= detail@.take(i as int).push(detail@[i as int]));
            }
            i = i + 1;
        }
        let t = str_to_chars(tail);
        let mut j: usize = 0;
        while j < t.len()
            invariant
                j <= t.len(),
                t@ == tail@,
                i == detail.len(),
                v@ == msg@ + detail@.take(i as int) + t@.take(j as int),
            decreases t.len() - j,
        {
            v.push(t[j]);
            proof {
                assert(t@.take(j + 1) =~= t@.take(j as int).push(t@[j as int]));
            }
            j = j + 1;
        }
        proof {
            assert(detail@.take(i as int) =~= detail@);
            assert(t@.take(j as int) =~= t@);
        }
        Error { code, msg: chars_to_string(v.as_slice()) }
    }

    /// The text the error displays as: "Error:CODE: MSG".
    pub fn to_string(&self) -> (s: String)
        ensures
            s@ == error_text(self.code, self.msg@),
    {
        let v = str_to_chars("Error:");
        let digits = decimal_chars(self.code);
        let sep = str_to_chars(": ");
        let msg = str_to_chars(self.msg.as_str());
        let mut all: Vec<char> = Vec::new();
        append_chars(&mut all, &v);
        append_chars(&mut all, &digits);
        append_chars(&mut all, &sep);
        append_chars(&mut all, &msg);
        chars_to_string(all.as_slice())
    }
}

/// Appends the characters of **src** to **dst**.
pub fn append_chars(dst: &mut Vec<char>, src: &Vec<char>)
    ensures
        final(dst)@ == old(dst)@ + src@,
{
    let mut i: usize = 0;
    while i < src.len()
        invariant
            i <= src.len(),
            dst@ == old(dst)@ + src@.take(i as int),
        decreases src.len() - i,
    {
        dst.push(src[i]);
        proof {
            assert(src@.take(i + 1) =~= src@.take(i as int).push(src@[i as int]));
        }
        i = i + 1;
    }
    proof {
        assert(src@.take(i as int) =~= src@);
    }
}

} // verus!
