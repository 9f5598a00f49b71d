//! The messages that deleting and cleaning report back.

use vstd::prelude::*;
use crate::text::{decimal, push_decimal};

verus! {

/// "{path}: {error}" for one child that could not be removed.
pub open spec fn failure_line(f: (String, String)) -> Seq<char> {
    f.0@ + ": "@ + f.1@
}

/// The lines joined with newlines between them.
pub open spec fn joined_lines(lines: Seq<Seq<char>>) -> Seq<char>
    decreases lines.len(),
{
    if lines.len() == 0 {
        Seq::empty()
    } else if lines.len() == 1 {
        lines[0]
    } else {
        joined_lines(lines.drop_last()) + "\n"@ + lines.last()
    }
}

/// The report of a clean that removed `count` children and failed on
/// `failures`: success only where nothing failed.
pub open spec fn clean_report(count: nat, path: Seq<char>, failures: Seq<(String, String)>) -> (
    bool,
    Seq<char>,
) {
    if failures.len() == 0 {
        (true, "Cleaned "@ + decimal(count) + " items from "@ + path)
    } else {
        (
            false,
            "Cleaned "@ + decimal(count) + " items, but "@ + decimal(failures.len()) + " failed:\n"@
                + joined_lines(failures.map_values(|f: (String, String)| failure_line(f))),
        )
    }
}

/// The message of a successful delete.
pub fn deleted_message(path: &String) -> (r: String)
    ensures
        r@ == "Deleted: "@ + path@,
{
    let mut r = String::from_str("Deleted: ");
    r.append(path.as_str());
    r
}

/// `prefix` followed by `detail`.
pub fn prefixed(prefix: &str, detail: &String) -> (r: String)
    ensures
        r@ == prefix@ + detail@,
{
    let mut r = String::from_str(prefix);
    r.append(detail.as_str());
    r
}

/// The failure lines joined with newlines.
pub fn join_failures(failures: &Vec<(String, String)>) -> (r: String)
    ensures
        r@ == joined_lines(failures@.map_values(|f: (String, String)| failure_line(f))),
{
    let ghost lines = failures@.map_values(|f: (String, String)| failure_line(f));
    let mut r = String::new();
    let mut i: usize = 0;
    while i < failures.len()
        invariant
            i <= failures@.len(),
            lines == failures@.map_values(|f: (String, String)| failure_line(f)),
            r@ == joined_lines(lines.take(i as int)),
        decreases failures.len() - i,
    {
        if i > 0 {
            r.append("\n");
        }
        r.append(failures[i].0.as_str());
        r.append(": ");
        r.append(failures[i].1.as_str());
        proof {
            assert(lines.take(i + 1).drop_last() =~= lines.take(i as int));
            assert(lines.take(i + 1).last() == failure_line(failures@[i as int]));
            if i == 0 {
                assert(lines.take(1).len() == 1);
            }
        }
        i = i + 1;
    }
    assert(lines.take(i as int) =~= lines);
    r
}

/// The report of a clean, as `clean_report` states it.
pub fn clean_message(count: usize, path: &String, failures: &Vec<(String, String)>) -> (r: (
    bool,
    String,
))
    ensures
        (r.0, r.1@) == clean_report(count as nat, path@, failures@),
{
    let mut text = String::from_str("Cleaned ");
    push_decimal(&mut text, count as u128);
    if failures.len() == 0 {
        text.append(" items from ");
        text.append(path.as_str());
        (true, text)
    } else {
        text.append(" items, but ");
        push_decimal(&mut text, failures.len() as u128);
        text.append(" failed:\n");
        let joined = join_failures(failures);
        text.append(joined.as_str());
        (false, text)
    }
}

} // verus!
