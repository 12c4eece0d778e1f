//! Small utilities: a hasher that passes an already-hashed word through
//! unchanged, for keying tables by values that are hashes themselves.

use vstd::prelude::*;

verus! {

/// A hasher whose state is simply the last word written: integer keys that
/// already are hashes need no re-mixing.
#[derive(Debug)]
pub struct PassthruHasher {
    pub state: u64,
}

impl PassthruHasher {
    /// A fresh hasher with an empty state.
    pub fn new() -> (r: PassthruHasher)
        ensures
            r.state == 0,
    {
        PassthruHasher { state: 0 }
    }

    /// The accumulated hash word.
    pub fn finish(&self) -> (r: u64)
        ensures
            r == self.state,
    {
        self.state
    }

    /// Replace the state with the written word.
    pub fn write_u64(&mut self, i: u64)
        ensures
            final(self).state == i,
    {
        self.state = i;
    }

    /// Replace the state with the written word.
    pub fn write_usize(&mut self, i: usize)
        ensures
            final(self).state == i as u64,
    {
        self.write_u64(i as u64);
    }

    /// Replace the state with the written word.
    pub fn write_u32(&mut self, i: u32)
        ensures
            final(self).state == i as u64,
    {
        self.write_u64(i as u64);
    }

    /// Replace the state with the written word.
    pub fn write_u16(&mut self, i: u16)
        ensures
            final(self).state == i as u64,
    {
        self.write_u64(i as u64);
    }

    /// Replace the state with the written word.
    pub fn write_u8(&mut self, i: u8)
        ensures
            final(self).state == i as u64,
    {
        self.write_u64(i as u64);
    }
}

} // verus!
