//! The space that a node has for packets that it has yet to send.

use vstd::prelude::*;

verus! {

#[derive(Clone, Copy, PartialEq, Eq, Structural, Debug)]
pub struct OutboundBuffer {
    pub capacity: u64,
    pub used: u64,
}

impl OutboundBuffer {
    /// No more space is used than there is.
    pub open spec fn wf(self) -> bool {
        self.used <= self.capacity
    }

    pub fn new(capacity: u64) -> (r: Self)
        ensures
            r == (OutboundBuffer { capacity, used: 0 }),
            r.wf(),
    {
        OutboundBuffer { capacity, used: 0 }
    }

    /// There is space for `bytes` more bytes.
    pub open spec fn has_room(self, bytes: nat) -> bool {
        self.used + bytes <= self.capacity
    }

    /// Takes space for `bytes` bytes, if there is that much left.
    pub fn reserve(&mut self, bytes: usize) -> (reserved: bool)
        requires
            old(self).wf(),
        ensures
            final(self).wf(),
            reserved == old(self).has_room(bytes as nat),
            *final(self) == if reserved {
                OutboundBuffer { used: (old(self).used + bytes) as u64, ..*old(self) }
            } else {
                *old(self)
            },
    {
        if bytes as u64 <= self.capacity - self.used {
            self.used = self.used + bytes as u64;
            true
        } else {
            false
        }
    }

    /// Gives back the space of `bytes` bytes.
    pub fn release(&mut self, bytes: usize)
        requires
            old(self).wf(),
            bytes <= old(self).used,
        ensures
            final(self).wf(),
            *final(self) == (OutboundBuffer {
                used: (old(self).used - bytes) as u64,
                ..*old(self)
            }),
    {
        self.used = self.used - bytes as u64;
    }
}

} // verus!
