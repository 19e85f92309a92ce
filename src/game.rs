//! Running totals of a typing session.
use vstd::prelude::*;

use crate::text::byte_len;

verus! {

/// Mistakes, characters typed (in bytes) and time spent (in milliseconds) so far.
#[derive(Debug)]
pub struct TypingStats {
    pub total_mistakes: u32,
    pub total_chars: u32,
    pub total_time_ms: u32,
}

impl TypingStats {
    /// Totals of a session that has not started.
    pub fn new() -> (r: Self)
        ensures
            r.total_mistakes == 0,
            r.total_chars == 0,
            r.total_time_ms == 0,
    {
        TypingStats { total_mistakes: 0, total_chars: 0, total_time_ms: 0 }
    }

    /// Counts a finished line and the time it took.
    pub fn add_line(&mut self, line: &str, time_elapsed_ms: u32)
        requires
            old(self).total_chars + byte_len(line@) <= u32::MAX,
            old(self).total_time_ms + time_elapsed_ms <= u32::MAX,
        ensures
            final(self).total_chars == old(self).total_chars + byte_len(line@),
            final(self).total_time_ms == old(self).total_time_ms + time_elapsed_ms,
            final(self).total_mistakes == old(self).total_mistakes,
    {
        let n = line.as_bytes().len();
        self.total_chars = self.total_chars + n as u32;
        self.total_time_ms = self.total_time_ms + time_elapsed_ms;
    }

    /// Counts one mistyped character.
    pub fn add_mistake(&mut self)
        requires
            old(self).total_mistakes < u32::MAX,
        ensures
            final(self).total_mistakes == old(self).total_mistakes + 1,
            final(self).total_chars == old(self).total_chars,
            final(self).total_time_ms == old(self).total_time_ms,
    {
        self.total_mistakes = self.total_mistakes + 1;
    }
}

/// Whether the key just typed, the last of `typed`, matches the character expected at its
/// position in `expected`.
pub fn key_is_correct(expected: &Vec<char>, typed: &Vec<char>) -> (r: bool)
    ensures
        r == (0 < typed@.len() <= expected@.len() && expected@[typed@.len() - 1] == typed@.last()),
{
    let n = typed.len();
    if n == 0 || n > expected.len() {
        false
    } else {
        expected[n - 1] == typed[n - 1]
    }
}

/// Whether `typed` is exactly the line `expected`.
pub fn line_finished(expected: &Vec<char>, typed: &Vec<char>) -> (r: bool)
    ensures
        r == (typed@ == expected@),
{
    if typed.len() != expected.len() {
        return false;
    }
    let mut i: usize = 0;
    while i < typed.len()
        invariant
            typed@.len() == expected@.len(),
            i <= typed@.len(),
            forall|j: int| 0 <= j < i ==> typed@[j] == expected@[j],
        decreases typed@.len() - i,
    {
        if typed[i] != expected[i] {
            return false;
        }
        i = i + 1;
    }
    proof {
        assert(typed@ =~= expected@);
    }
    true
}

impl Default for TypingStats {
    fn default() -> (r: Self)
        ensures
            r.total_mistakes == 0,
            r.total_chars == 0,
            r.total_time_ms == 0,
    {
        Self::new()
    }
}

} // verus!
