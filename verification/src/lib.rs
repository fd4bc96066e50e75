//! Reference-counted boxes with deferred cycle collection.
//!
//! A [`Heap`] owns a set of boxes. Each box holds a payload and a header with
//! a strong count, a weak count, a color and a buffered flag. A [`Cc`] is a
//! strong handle to one box of a heap, a [`Weak`] a weak one. Handles are
//! plain tokens: every operation on a handle takes the heap it belongs to,
//! and a handle is given up by handing it to `drop`.
//!
//! Giving up a strong handle destroys the box at once when its strong count
//! reaches zero. When the count stays positive the box may be the root of a
//! cycle of boxes that keep each other alive; it is colored purple and put
//! into the heap's buffer of possible roots. [`collect_cycles`] later walks
//! the buffer in three phases (mark, scan, collect) and destroys exactly the
//! boxes that are reachable from a possible root and are kept alive by
//! nothing but each other.
//!
//! Payloads tell the collector which handles they own through [`Trace`].
//!
//! What a heap is, is said by its view, a [`state::HeapState`]. Every
//! operation says what it does to the view. The operations keep the heap
//! well formed ([`state::HeapState::wf`]): the counts cover the handles that
//! payloads own, and every live box can be reached from a box that a user
//! holds a strong handle to or from a possible root in the buffer. From
//! this follows what the modules [`laws`] and [`drops`] state, among other
//! things that a collection destroys exactly the payloads that no user can
//! reach, and that nothing lives on once the users have given up their
//! handles and a collection has run.
use vstd::prelude::*;

pub mod cc;
pub mod cc_box_ptr;
pub mod collect;
pub mod cover;
pub mod drops;
pub mod graph;
pub mod heap;
pub mod laws;
pub mod mark;
pub mod payload;
pub mod release;
pub mod scan;
pub mod state;
pub mod sweep;
pub mod trace;

pub use cc::{Cc, Weak};
pub use cc_box_ptr::{free, CcBoxPtr};
pub use collect::{add_root, collect_cycles, number_of_roots_buffered};
pub use heap::Heap;
pub use trace::{Trace, Tracer};

verus! {

/// The color of a box.
#[derive(Clone, Copy, Debug, PartialEq, Eq, Structural)]
pub enum Color {
    /// In use or free.
    Black,
    /// Possible member of a cycle: reached by the mark phase, its count
    /// lowered by the handles that marked boxes own.
    Gray,
    /// Member of a garbage cycle.
    White,
    /// Possible root of a cycle.
    Purple,
}

/// The header of a box.
#[derive(Clone, Copy, Debug)]
pub struct CcBoxData {
    /// The number of strong handles.
    pub strong: usize,
    /// The number of weak handles, counting as one the weak handle that the
    /// strong handles hold together.
    pub weak: usize,
    /// Whether the box is in the buffer of possible roots.
    pub buffered: bool,
    /// The color of the box.
    pub color: Color,
}

impl CcBoxData {
    /// The header of a fresh box: one strong handle, the weak handle that the
    /// strong handles hold together, black, not buffered.
    pub fn new() -> (d: CcBoxData)
        ensures
            d.strong == 1,
            d.weak == 1,
            d.color == Color::Black,
            !d.buffered,
    {
        CcBoxData { strong: 1, weak: 1, buffered: false, color: Color::Black }
    }

    /// The number of strong handles.
    pub fn strong(&self) -> (n: usize)
        ensures
            n == self.strong,
    {
        self.strong
    }

    /// The number of weak handles, the shared one included.
    pub fn weak(&self) -> (n: usize)
        ensures
            n == self.weak,
    {
        self.weak
    }

    /// Whether the box is in the buffer of possible roots.
    pub fn buffered(&self) -> (b: bool)
        ensures
            b == self.buffered,
    {
        self.buffered
    }

    /// The color of the box.
    pub fn color(&self) -> (c: Color)
        ensures
            c == self.color,
    {
        self.color
    }
}

} // verus!
