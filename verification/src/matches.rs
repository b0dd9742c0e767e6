use vstd::prelude::*;

verus! {

/// One occurrence of a pattern: where it starts in the searched bytes and
/// which pattern it is (its index in the slice given to the matcher).
#[derive(Debug, PartialEq, Eq, Structural, Copy, Clone)]
pub struct Match {
    pub start_pos: u32,
    pub pattern_idx: u32,
}

impl Match {
    pub fn new(start_pos: u32, pattern_idx: u32) -> (m: Self)
        ensures
            m.start_pos == start_pos,
            m.pattern_idx == pattern_idx,
    {
        Match { start_pos, pattern_idx }
    }

    /// Byte offset of the first byte of the occurrence.
    pub fn start_pos(&self) -> (r: usize)
        ensures
            r == self.start_pos,
    {
        self.start_pos as usize
    }

    /// Index of the pattern that occurs.
    pub fn pattern_index(&self) -> (r: usize)
        ensures
            r == self.pattern_idx,
    {
        self.pattern_idx as usize
    }

    /// Same as `start_pos`.
    pub fn start(&self) -> (r: usize)
        ensures
            r == self.start_pos,
    {
        self.start_pos as usize
    }

    /// Same as `pattern_index`.
    pub fn pattern(&self) -> (r: usize)
        ensures
            r == self.pattern_idx,
    {
        self.pattern_idx as usize
    }
}

} // verus!
