//! A sequential byte source: octets are handed out one at a time and
//! consumed irrevocably, so a decoder takes exactly what it needs.

use vstd::prelude::*;

verus! {

/// A byte source over a borrowed buffer, read front to back.
pub struct ByteSource<'a> {
    data: &'a [u8],
    pos: usize,
}

impl<'a> ByteSource<'a> {
    /// The octets not yet consumed.
    pub closed spec fn remaining(&self) -> Seq<u8> {
        self.data@.skip(self.pos as int)
    }

    pub closed spec fn wf(&self) -> bool {
        self.pos <= self.data@.len() && self.data@.len() <= usize::MAX
    }

    /// What remains can be counted in a `usize`: it sits in one buffer.
    pub proof fn lemma_remaining_bounded(self)
        requires
            self.wf(),
        ensures
            self.remaining().len() <= usize::MAX,
    {
    }

    pub fn new(data: &'a [u8]) -> (r: Self)
        ensures
            r.wf(),
            r.remaining() == data@,
    {
        let n = data.len();
        let r = ByteSource { data, pos: 0 };
        proof {
            assert(n == r.data@.len());
            assert(r.remaining() =~= data@);
        }
        r
    }

    /// Consume and return the next octet; `None` once exhausted.
    pub fn read_byte(&mut self) -> (r: Option<u8>)
        requires
            old(self).wf(),
        ensures
            final(self).wf(),
            match r {
                Some(b) => old(self).remaining().len() > 0 && b == old(self).remaining()[0]
                    && final(self).remaining() == old(self).remaining().skip(1),
                None => old(self).remaining().len() == 0 && final(self).remaining() == old(
                    self,
                ).remaining(),
            },
    {
        if self.pos < self.data.len() {
            let b = self.data[self.pos];
            self.pos = self.pos + 1;
            proof {
                assert(self.remaining() =~= old(self).remaining().skip(1));
            }
            Some(b)
        } else {
            None
        }
    }
}

} // verus!
