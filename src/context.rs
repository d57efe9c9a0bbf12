use vstd::prelude::*;

verus! {

/// The execution settings that the ranking functions read: how many groups
/// the input holds, how many leading elements of each chunk are warm-up, and
/// whether a windowed rank waits for a full window.
#[derive(Clone, Copy, Debug, PartialEq, Eq, Structural)]
pub struct Context {
    pub groups: usize,
    pub start: usize,
    pub strictly_cycle: bool,
}

impl Context {
    pub fn new(groups: usize, start: usize, strictly_cycle: bool) -> (r: Context)
        ensures
            r.groups == groups,
            r.start == start,
            r.strictly_cycle == strictly_cycle,
    {
        Context { groups, start, strictly_cycle }
    }

    /// The length of one chunk of an input of `len` elements: the input split
    /// evenly among the groups, or whole where there are fewer than two.
    pub open spec fn chunk_size_spec(self, len: nat) -> nat {
        if self.groups >= 2 {
            len / (self.groups as nat)
        } else {
            len
        }
    }

    /// The number of warm-up elements at the front of a chunk of `len`
    /// elements.
    pub open spec fn start_spec(self, len: nat) -> nat {
        if (self.start as nat) < len {
            self.start as nat
        } else {
            len
        }
    }

    pub fn chunk_size(&self, len: usize) -> (r: usize)
        ensures
            r == self.chunk_size_spec(len as nat),
    {
        if self.groups >= 2 {
            len / self.groups
        } else {
            len
        }
    }

    pub fn start(&self, len: usize) -> (r: usize)
        ensures
            r == self.start_spec(len as nat),
    {
        if self.start < len {
            self.start
        } else {
            len
        }
    }

    pub fn is_strictly_cycle(&self) -> (r: bool)
        ensures
            r == self.strictly_cycle,
    {
        self.strictly_cycle
    }

    pub fn groups(&self) -> (r: usize)
        ensures
            r == self.groups,
    {
        self.groups
    }
}

} // verus!
