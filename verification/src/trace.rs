//! The tracing contract between payloads and the collector.
use vstd::prelude::*;

pub mod impls;

verus! {

/// Receives the handles that a payload owns.
///
/// Strong and weak handles are kept apart: the collector follows the strong
/// ones only, while the destruction of a payload gives up both.
pub struct Tracer {
    strong: Vec<usize>,
    weak: Vec<usize>,
}

impl Tracer {
    /// The boxes of the strong handles reported so far, oldest first.
    pub closed spec fn strong(&self) -> Seq<usize> {
        self.strong@
    }

    /// The boxes of the weak handles reported so far, oldest first.
    pub closed spec fn weak(&self) -> Seq<usize> {
        self.weak@
    }

    /// A tracer that has seen nothing.
    pub fn new() -> (t: Tracer)
        ensures
            t.strong() == Seq::<usize>::empty(),
            t.weak() == Seq::<usize>::empty(),
    {
        Tracer { strong: Vec::new(), weak: Vec::new() }
    }

    /// Reports a strong handle to box `ptr`.
    pub fn visit_strong(&mut self, ptr: usize)
        ensures
            final(self).strong() == old(self).strong().push(ptr),
            final(self).weak() == old(self).weak(),
    {
        self.strong.push(ptr);
    }

    /// Reports a weak handle to box `ptr`.
    pub fn visit_weak(&mut self, ptr: usize)
        ensures
            final(self).strong() == old(self).strong(),
            final(self).weak() == old(self).weak().push(ptr),
    {
        self.weak.push(ptr);
    }

    /// Takes back the strong handle reported last, if there is one.
    pub fn pop_strong(&mut self) -> (r: Option<usize>)
        ensures
            final(self).weak() == old(self).weak(),
            old(self).strong().len() == 0 ==> r.is_none() && final(self).strong() == old(self).strong(),
            old(self).strong().len() > 0 ==> r == Some(old(self).strong().last())
                && final(self).strong() == old(self).strong().drop_last(),
    {
        self.strong.pop()
    }

    /// Takes back the weak handle reported last, if there is one.
    pub fn pop_weak(&mut self) -> (r: Option<usize>)
        ensures
            final(self).strong() == old(self).strong(),
            old(self).weak().len() == 0 ==> r.is_none() && final(self).weak() == old(self).weak(),
            old(self).weak().len() > 0 ==> r == Some(old(self).weak().last())
                && final(self).weak() == old(self).weak().drop_last(),
    {
        self.weak.pop()
    }
}

/// A value that can tell which handles it owns.
///
/// `trace` reports each handle that the value owns directly, once, and
/// nothing else. What it reports depends on the value alone, so tracing the
/// same value twice reports the same handles in the same order.
pub trait Trace {
    /// The boxes of the strong handles that the value owns, in the order in
    /// which `trace` reports them.
    spec fn strong_refs(&self) -> Seq<usize>;

    /// The boxes of the weak handles that the value owns, in the order in
    /// which `trace` reports them.
    spec fn weak_refs(&self) -> Seq<usize>;

    /// Reports the handles that the value owns to `tracer`.
    fn trace(&self, tracer: &mut Tracer)
        ensures
            final(tracer).strong() == old(tracer).strong() + self.strong_refs(),
            final(tracer).weak() == old(tracer).weak() + self.weak_refs(),
    ;
}

} // verus!
