use vstd::prelude::*;

use crate::source::{lemma_next_newline_bounds, next_newline};
use crate::text::{chars_between, push_str, string_from_chars};

use super::{error_with, Error};

pub mod optimization;

verus! {

/// The line of `text` that starts at `start`, without its line ending (`\n` or `\r\n`).
pub open spec fn line_from(text: Seq<char>, start: int) -> Seq<char> {
    let end = next_newline(text, start);
    let raw = text.subrange(start, end);
    if end < text.len() && raw.len() > 0 && raw.last() == '\r' {
        raw.drop_last()
    } else {
        raw
    }
}

pub open spec fn starts_with(line: Seq<char>, prefix: Seq<char>) -> bool {
    prefix.len() <= line.len() && line.subrange(0, prefix.len() as int) == prefix
}

/// What follows `prefix` on the first line, from the one that starts at `start` on, that begins
/// with `prefix`.
pub open spec fn first_prefixed(text: Seq<char>, start: int, prefix: Seq<char>) -> Option<Seq<char>>
    decreases text.len() - start,
{
    if start < 0 || start >= text.len() {
        None
    } else {
        let line = line_from(text, start);
        if starts_with(line, prefix) {
            Some(line.subrange(prefix.len() as int, line.len() as int))
        } else if next_newline(text, start) >= text.len() {
            None
        } else {
            proof {
                lemma_next_newline_bounds(text, start);
            }
            first_prefixed(text, next_newline(text, start) + 1, prefix)
        }
    }
}

/// The value that an LLVM module reports for `property` on a line `property = "value"`: the
/// first line that starts so decides, and the value must not be empty.
pub open spec fn property_value(module: Seq<char>, property: Seq<char>) -> Option<Seq<char>> {
    match first_prefixed(module, 0, property + " = \""@) {
        Some(rest) => if rest.len() >= 2 && rest.last() == '"' {
            Some(rest.drop_last())
        } else {
            None
        },
        None => None,
    }
}

fn line_end(chars: &Vec<char>, start: usize) -> (end: usize)
    requires
        start <= chars@.len(),
    ensures
        end == next_newline(chars@, start as int),
        start <= end <= chars@.len(),
{
    proof {
        lemma_next_newline_bounds(chars@, start as int);
    }
    let mut end = start;
    while end < chars.len() && chars[end] != '\n'
        invariant
            start <= end <= chars@.len(),
            next_newline(chars@, start as int) == next_newline(chars@, end as int),
        decreases chars@.len() - end,
    {
        end = end + 1;
    }
    end
}

fn begins_with(chars: &Vec<char>, start: usize, end: usize, prefix: &Vec<char>) -> (begins: bool)
    requires
        start <= end <= chars@.len(),
    ensures
        begins == starts_with(chars@.subrange(start as int, end as int), prefix@),
{
    let ghost line = chars@.subrange(start as int, end as int);
    if prefix.len() > end - start {
        return false;
    }
    let mut k: usize = 0;
    while k < prefix.len()
        invariant
            start <= end <= chars@.len(),
            line == chars@.subrange(start as int, end as int),
            prefix@.len() <= end - start,
            k <= prefix@.len(),
            forall|i: int| 0 <= i < k ==> chars@[start + i] == prefix@[i],
        decreases prefix@.len() - k,
    {
        if chars[start + k] != prefix[k] {
            assert(line.subrange(0, prefix@.len() as int)[k as int] != prefix@[k as int]);
            return false;
        }
        k = k + 1;
    }
    assert(line.subrange(0, prefix@.len() as int) =~= prefix@);
    true
}

/// The value of `property` in the textual LLVM module `module`, as `property_value` says; where
/// there is none, the error that Clang did not report it.
pub fn quoted_module_property(module: &str, property: &str) -> (result: Result<String, Error>)
    ensures
        match property_value(module@, property@) {
            Some(value) => result matches Ok(text) && text@ == value,
            None => result matches Err(error) && error.spec_message() == "malc: Clang did not report "@
                + property@,
        },
{
    let mut chars: Vec<char> = Vec::new();
    push_str(&mut chars, module);
    let mut prefix: Vec<char> = Vec::new();
    push_str(&mut prefix, property);
    push_str(&mut prefix, " = \"");
    let ghost t = chars@;
    let ghost p = prefix@;
    let length = chars.len();
    let mut start: usize = 0;
    while start < length
        invariant
            t == chars@,
            p == prefix@,
            p == property@ + " = \""@,
            t == module@,
            length == t.len(),
            start <= length,
            first_prefixed(t, 0, p) == first_prefixed(t, start as int, p),
        decreases length - start,
    {
        let newline = line_end(&chars, start);
        let mut end = newline;
        if newline < length && newline > start && chars[newline - 1] == '\r' {
            end = newline - 1;
        }
        assert(chars@.subrange(start as int, end as int) == line_from(t, start as int));
        if begins_with(&chars, start, end, &prefix) {
            let rest = chars_between(&chars, start + prefix.len(), end);
            assert(rest@ =~= line_from(t, start as int).subrange(
                p.len() as int,
                line_from(t, start as int).len() as int,
            ));
            if rest.len() >= 2 && rest[rest.len() - 1] == '"' {
                let value = chars_between(&rest, 0, rest.len() - 1);
                assert(value@ =~= rest@.drop_last());
                return Ok(string_from_chars(&value));
            }
            return Err(error_with("malc: Clang did not report ", property));
        }
        if newline >= length {
            return Err(error_with("malc: Clang did not report ", property));
        }
        start = newline + 1;
    }
    Err(error_with("malc: Clang did not report ", property))
}

} // verus!
