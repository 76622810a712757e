//! Duplicate suppression for unsequenced commands.
//!
//! Unsequenced commands carry a 16-bit group number. The receiver keeps a
//! window of [`PEER_UNSEQUENCED_WINDOW_SIZE`] groups, one mark for each, and
//! moves the window when a group of another window arrives.

use vstd::prelude::*;
use crate::consts::{PEER_FREE_UNSEQUENCED_WINDOWS, PEER_UNSEQUENCED_WINDOW_SIZE};

verus! {

/// The window of unsequenced groups a peer has seen.
#[derive(Debug, Clone, PartialEq, Eq)]
pub struct UnsequencedWindow {
    base: u16,
    seen: Vec<bool>,
}

/// The mathematical value of an [`UnsequencedWindow`].
pub struct UnsequencedView {
    /// The first group of the window; a multiple of the window size.
    pub base: u16,
    /// Which groups of the window have been seen, by their place in it.
    pub seen: Seq<bool>,
}

/// How far `group` lies ahead of `base` in the 16-bit circle.
pub open spec fn spec_groups_ahead(base: u16, group: u16) -> int {
    if group >= base {
        group - base
    } else {
        group - base + 0x1_0000
    }
}

/// The place of `group` in its window.
pub open spec fn spec_place(group: u16) -> int {
    group as int % PEER_UNSEQUENCED_WINDOW_SIZE as int
}

/// The first group of the window that `group` belongs to.
pub open spec fn spec_window_of(group: u16) -> int {
    group - spec_place(group)
}

impl UnsequencedView {
    /// The window of a fresh peer.
    pub open spec fn spec_new() -> UnsequencedView {
        UnsequencedView {
            base: 0,
            seen: Seq::new(PEER_UNSEQUENCED_WINDOW_SIZE as nat, |i: int| false),
        }
    }

    /// Whether a command of the given group is delivered: the group lies
    /// less than the free windows ahead of the window and has not been seen
    /// in it.
    pub open spec fn accepts(self, group: u16) -> bool {
        &&& spec_groups_ahead(self.base, group) < PEER_FREE_UNSEQUENCED_WINDOWS
            * PEER_UNSEQUENCED_WINDOW_SIZE
        &&& (spec_window_of(group) == self.base ==> !self.seen[spec_place(group)])
    }

    /// The window after a command of the given group arrived: where it is
    /// delivered the group is marked, in a cleared window if it belongs to
    /// another one than before.
    pub open spec fn after(self, group: u16) -> UnsequencedView {
        if !self.accepts(group) {
            self
        } else if spec_window_of(group) == self.base {
            UnsequencedView {
                base: self.base,
                seen: self.seen.update(spec_place(group), true),
            }
        } else {
            UnsequencedView {
                base: spec_window_of(group) as u16,
                seen: Seq::new(PEER_UNSEQUENCED_WINDOW_SIZE as nat, |i: int| false).update(
                    spec_place(group),
                    true,
                ),
            }
        }
    }
}

impl View for UnsequencedWindow {
    type V = UnsequencedView;

    closed spec fn view(&self) -> UnsequencedView {
        UnsequencedView { base: self.base, seen: self.seen@ }
    }
}

impl UnsequencedWindow {
    /// The invariant of the window: one mark for each group of the window.
    pub closed spec fn wf(&self) -> bool {
        self.seen@.len() == PEER_UNSEQUENCED_WINDOW_SIZE
    }

    /// The window of a fresh peer.
    pub fn new() -> (w: UnsequencedWindow)
        ensures
            w.wf(),
            w@ == UnsequencedView::spec_new(),
    {
        UnsequencedWindow { base: 0, seen: cleared() }
    }

    /// Takes note of a command of the given group and says whether it is
    /// delivered.
    pub fn accept(&mut self, group: u16) -> (delivered: bool)
        requires
            old(self).wf(),
        ensures
            final(self).wf(),
            delivered == old(self)@.accepts(group),
            final(self)@ == old(self)@.after(group),
    {
        let index: u16 = group % PEER_UNSEQUENCED_WINDOW_SIZE;
        let ahead: u32 = if group >= self.base {
            (group - self.base) as u32
        } else {
            group as u32 + 0x1_0000 - self.base as u32
        };
        if ahead >= PEER_FREE_UNSEQUENCED_WINDOWS as u32 * PEER_UNSEQUENCED_WINDOW_SIZE as u32 {
            return false;
        }
        if group - index != self.base {
            self.base = group - index;
            self.seen = cleared();
        } else if self.seen[index as usize] {
            return false;
        }
        self.seen[index as usize] = true;
        true
    }
}

/// A window in which no group has been seen.
fn cleared() -> (seen: Vec<bool>)
    ensures
        seen@ == Seq::new(PEER_UNSEQUENCED_WINDOW_SIZE as nat, |i: int| false),
{
    let mut seen: Vec<bool> = Vec::new();
    let mut i: u16 = 0;
    while i < PEER_UNSEQUENCED_WINDOW_SIZE
        invariant
            i <= PEER_UNSEQUENCED_WINDOW_SIZE,
            seen@ == Seq::new(i as nat, |j: int| false),
        decreases PEER_UNSEQUENCED_WINDOW_SIZE - i,
    {
        seen.push(false);
        i = i + 1;
        assert(seen@ =~= Seq::new(i as nat, |j: int| false));
    }
    seen
}

/// A group that was delivered is not delivered a second time while the
/// window stays where it is.
pub proof fn lemma_no_second_delivery(w: UnsequencedView, group: u16)
    requires
        w.seen.len() == PEER_UNSEQUENCED_WINDOW_SIZE,
        w.accepts(group),
    ensures
        !w.after(group).accepts(group),
{
}

} // verus!
