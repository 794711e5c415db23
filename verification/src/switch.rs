//! The registers saved when the kernel switches between tasks.
use vstd::prelude::*;

verus! {

/// Saved registers `x0` to `x31`.
pub struct TaskContextStoreImpl {
    ctx: [u64; 32],
}

impl TaskContextStoreImpl {
    /// The saved registers.
    pub closed spec fn view(&self) -> Seq<u64> {
        self.ctx@
    }

    /// The saved registers number 32.
    pub proof fn lemma_len(&self)
        ensures
            self.view().len() == 32,
    {
    }

    /// Every register clear.
    pub fn default() -> (r: Self)
        ensures
            r.view() == Seq::new(32, |i: int| 0u64),
    {
        let r = TaskContextStoreImpl { ctx: [0; 32] };
        assert(r.view() =~= Seq::new(32, |i: int| 0u64));
        r
    }

    /// Sets the return address (`x1`).
    pub fn set_return_addr(&mut self, ra: usize)
        ensures
            final(self).view() == old(self).view().update(1, ra as u64),
    {
        self.ctx[1] = ra as u64;
        assert(self.view() =~= old(self).view().update(1, ra as u64));
    }

    /// Sets the stack pointer (`x2`).
    pub fn set_sp(&mut self, sp: usize)
        ensures
            final(self).view() == old(self).view().update(2, sp as u64),
    {
        self.ctx[2] = sp as u64;
        assert(self.view() =~= old(self).view().update(2, sp as u64));
    }

    /// Sets the first argument register (`a0`, `x10`).
    pub fn set_param0(&mut self, param0: usize)
        ensures
            final(self).view() == old(self).view().update(10, param0 as u64),
    {
        self.ctx[10] = param0 as u64;
        assert(self.view() =~= old(self).view().update(10, param0 as u64));
    }
}

/// Saved task registers that the kernel sets before switching to a task.
pub trait TaskContextStore {
    /// The saved registers `x0` to `x31`.
    spec fn registers(&self) -> Seq<u64>;

    /// Sets the return address (`x1`).
    fn set_ra(&mut self, ra: usize)
        ensures
            final(self).registers() == old(self).registers().update(1, ra as u64),
    ;

    /// Sets the stack pointer (`x2`).
    fn set_sp(&mut self, sp: usize)
        ensures
            final(self).registers() == old(self).registers().update(2, sp as u64),
    ;

    /// Sets the first argument register (`a0`, `x10`).
    fn set_param0(&mut self, param0: usize)
        ensures
            final(self).registers() == old(self).registers().update(10, param0 as u64),
    ;
}

impl TaskContextStore for TaskContextStoreImpl {
    open spec fn registers(&self) -> Seq<u64> {
        self.view()
    }

    fn set_ra(&mut self, ra: usize) {
        self.set_return_addr(ra);
    }

    fn set_sp(&mut self, sp: usize) {
        TaskContextStoreImpl::set_sp(self, sp);
    }

    fn set_param0(&mut self, param0: usize) {
        TaskContextStoreImpl::set_param0(self, param0);
    }
}

/// A task's saved registers.
pub struct TaskContext {
    store: TaskContextStoreImpl,
}

impl TaskContext {
    /// The saved registers.
    pub closed spec fn view(&self) -> Seq<u64> {
        self.store.view()
    }

    /// The saved registers number 32.
    pub proof fn lemma_len(&self)
        ensures
            self.view().len() == 32,
    {
        self.store.lemma_len();
    }

    /// Every register clear.
    pub fn default() -> (r: Self)
        ensures
            r.view() == Seq::new(32, |i: int| 0u64),
    {
        TaskContext { store: TaskContextStoreImpl::default() }
    }

    /// Sets the return address.
    pub fn set_ra(&mut self, ra: usize)
        ensures
            final(self).view() == old(self).view().update(1, ra as u64),
    {
        self.store.set_ra(ra);
    }

    /// Sets the stack pointer.
    pub fn set_sp(&mut self, sp: usize)
        ensures
            final(self).view() == old(self).view().update(2, sp as u64),
    {
        self.store.set_sp(sp);
    }

    /// Sets the first argument.
    pub fn set_param0(&mut self, param0: usize)
        ensures
            final(self).view() == old(self).view().update(10, param0 as u64),
    {
        self.store.set_param0(param0);
    }
}

} // verus!
