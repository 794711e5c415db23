//! A page frame together with its contents.
use vstd::prelude::*;
use crate::addr::PAGE_SIZE;
use crate::ppn_manager::PhysicalPageNumberGuard;

verus! {

/// A page frame and the bytes it holds.
pub struct RawPage {
    pub ppn: PhysicalPageNumberGuard,
    pub raw: Vec<u8>,
}

impl RawPage {
    /// Takes over frame `v`; its bytes start out clear.
    pub fn from(v: PhysicalPageNumberGuard) -> (r: Self)
        ensures
            r.ppn == v,
            r.raw@ == Seq::new(PAGE_SIZE as nat, |i: int| 0u8),
    {
        let raw = vec![0u8; PAGE_SIZE];
        proof {
            assert(raw@ =~= Seq::new(PAGE_SIZE as nat, |i: int| 0u8));
        }
        Self { ppn: v, raw }
    }

    /// Copies `data` to the start of the page; the rest of the page keeps
    /// its bytes.
    pub fn copy(&mut self, data: &[u8])
        requires
            data@.len() <= old(self).raw@.len(),
        ensures
            final(self).ppn == old(self).ppn,
            final(self).raw@ == data@ + old(self).raw@.subrange(
                data@.len() as int,
                old(self).raw@.len() as int,
            ),
    {
        let mut i: usize = 0;
        while i < data.len()
            invariant
                0 <= i <= data@.len(),
                data@.len() <= old(self).raw@.len(),
                self.ppn == old(self).ppn,
                self.raw@.len() == old(self).raw@.len(),
                forall|j: int| 0 <= j < i ==> #[trigger] self.raw@[j] == data@[j],
                forall|j: int| i <= j < self.raw@.len() ==> #[trigger] self.raw@[j] == old(self).raw@[j],
            decreases data@.len() - i,
        {
            self.raw[i] = data[i];
            i = i + 1;
        }
        assert(self.raw@ =~= data@ + old(self).raw@.subrange(
            data@.len() as int,
            old(self).raw@.len() as int,
        ));
    }
}

} // verus!
