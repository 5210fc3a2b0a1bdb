//! The process record and its text forms.
use vstd::prelude::*;
use crate::text::{push_signed_decimal, signed_decimal};

verus! {

/// A synthetic process: an identifier given in order of generation, a
/// priority (lower runs first), a sleep time that is only described, and a
/// label derived from the identifier.
pub struct Process {
    pub id: i32,
    pub priority: i32,
    pub sleep_time: i32,
    pub description: String,
}

/// The label of the process with identifier `id`.
pub open spec fn label_of(id: int) -> Seq<char> {
    "Process Node "@ + signed_decimal(id)
}

/// The line that reports `p`.
pub open spec fn line_of(p: Process) -> Seq<char> {
    "Process ID: "@ + signed_decimal(p.id as int) + ", Priority: "@ + signed_decimal(
        p.priority as int,
    ) + ", Sleep Time: "@ + signed_decimal(p.sleep_time as int) + ", Description: "@
        + p.description@
}

/// Relies on `FromIterator<char>` for `String` (`collect`): the string holds
/// the characters in the order given.
#[verifier::external_body]
fn string_from_chars(chars: &Vec<char>) -> (r: String)
    ensures
        r@ == chars@,
{
    chars.iter().collect()
}

/// Appends the characters of `s` to `out`.
fn push_str(out: &mut Vec<char>, s: &str)
    ensures
        final(out)@ == old(out)@ + s@,
{
    let n = s.unicode_len();
    let mut i: usize = 0;
    while i < n
        invariant
            n == s@.len(),
            i <= n,
            out@ == old(out)@ + s@.subrange(0, i as int),
        decreases n - i,
    {
        out.push(s.get_char(i));
        i = i + 1;
        assert(out@ =~= old(out)@ + s@.subrange(0, i as int));
    }
    assert(s@.subrange(0, n as int) =~= s@);
}

/// The label of the process with identifier `id`: "Process Node" and the
/// identifier in decimal.
pub fn label(id: i32) -> (r: String)
    ensures
        r@ == label_of(id as int),
{
    let mut chars: Vec<char> = Vec::new();
    push_str(&mut chars, "Process Node ");
    push_signed_decimal(&mut chars, id);
    assert(chars@ =~= label_of(id as int));
    string_from_chars(&chars)
}

impl Process {
    /// The record with the given fields and the label derived from `id`.
    pub fn new(id: i32, priority: i32, sleep_time: i32) -> (r: Process)
        ensures
            r.id == id,
            r.priority == priority,
            r.sleep_time == sleep_time,
            r.description@ == label_of(id as int),
    {
        Process { id, priority, sleep_time, description: label(id) }
    }

    /// The line that reports every field of this record.
    pub fn line(&self) -> (r: String)
        ensures
            r@ == line_of(*self),
    {
        let mut chars: Vec<char> = Vec::new();
        push_str(&mut chars, "Process ID: ");
        push_signed_decimal(&mut chars, self.id);
        push_str(&mut chars, ", Priority: ");
        push_signed_decimal(&mut chars, self.priority);
        push_str(&mut chars, ", Sleep Time: ");
        push_signed_decimal(&mut chars, self.sleep_time);
        push_str(&mut chars, ", Description: ");
        push_str(&mut chars, self.description.as_str());
        assert(chars@ =~= line_of(*self));
        string_from_chars(&chars)
    }
}

} // verus!
