//! Back and forward history over the places the user has looked at.
use crate::layout::View;
use crate::model::Id;
use vstd::prelude::*;
use vstd::view::View as _;

verus! {

/// A place in the hierarchy: the range of children shown, and the selection.
#[derive(Clone, Copy, Debug, PartialEq, Eq, Structural)]
pub struct Visit {
    pub view: View,
    pub selected: Option<Id>,
}

/// The two stacks of a browser-style history, most recent last.
pub struct History {
    back: Vec<Visit>,
    forward: Vec<Visit>,
}

/// The model of a history: what going back and what going forward would visit.
#[verifier::ext_equal]
pub struct Stacks {
    pub back: Seq<Visit>,
    pub forward: Seq<Visit>,
}

impl vstd::view::View for History {
    type V = Stacks;

    closed spec fn view(&self) -> Stacks {
        Stacks { back: self.back@, forward: self.forward@ }
    }
}

/// Recording `current` as a place to come back to; the forward branch is dropped.
pub open spec fn recorded(h: Stacks, current: Visit) -> Stacks {
    Stacks { back: h.back.push(current), forward: Seq::empty() }
}

/// Going back from `current`: the last place recorded, and the history after it.
pub open spec fn went_back(h: Stacks, current: Visit) -> (Stacks, Option<Visit>) {
    if h.back.len() == 0 {
        (h, None)
    } else {
        (Stacks { back: h.back.drop_last(), forward: h.forward.push(current) }, Some(h.back.last()))
    }
}

/// Going forward from `current`: the last place gone back from, and the history after it.
pub open spec fn went_forward(h: Stacks, current: Visit) -> (Stacks, Option<Visit>) {
    if h.forward.len() == 0 {
        (h, None)
    } else {
        (Stacks { back: h.back.push(current), forward: h.forward.drop_last() }, Some(h.forward.last()))
    }
}

impl Default for History {
    fn default() -> (r: History)
        ensures
            r@.back == Seq::<Visit>::empty(),
            r@.forward == Seq::<Visit>::empty(),
    {
        History { back: Vec::new(), forward: Vec::new() }
    }
}

impl History {
    /// Record a new destination. Taking a different route discards redo history,
    /// just as following a new link does after going back in a browser.
    pub fn record(&mut self, current: Visit)
        ensures
            final(self)@ == recorded(old(self)@, current),
    {
        self.back.push(current);
        self.forward.clear();
    }

    pub fn can_back(&self) -> (r: bool)
        ensures
            r == (self@.back.len() > 0),
    {
        !self.back.is_empty()
    }

    pub fn can_forward(&self) -> (r: bool)
        ensures
            r == (self@.forward.len() > 0),
    {
        !self.forward.is_empty()
    }

    pub fn back(&mut self, current: Visit) -> (r: Option<Visit>)
        ensures
            (final(self)@, r) == went_back(old(self)@, current),
    {
        let destination = match self.back.pop() {
            Some(v) => v,
            None => {
                return None;
            },
        };
        self.forward.push(current);
        Some(destination)
    }

    pub fn forward(&mut self, current: Visit) -> (r: Option<Visit>)
        ensures
            (final(self)@, r) == went_forward(old(self)@, current),
    {
        let destination = match self.forward.pop() {
            Some(v) => v,
            None => {
                return None;
            },
        };
        self.back.push(current);
        Some(destination)
    }
}

/// Going back from `here` and then forward from where that led returns to
/// `here` with the history as it was.
pub proof fn lemma_back_then_forward(h: Stacks, here: Visit)
    requires
        h.back.len() > 0,
    ensures
        ({
            let (h1, there) = went_back(h, here);
            &&& there == Some(h.back.last())
            &&& went_forward(h1, there.unwrap()) == (h, Some(here))
        }),
{
    let (h1, there) = went_back(h, here);
    assert(h1.back.push(there.unwrap()) =~= h.back);
    assert(h1.forward.drop_last() =~= h.forward);
}

/// Going forward from `here` and then back from where that led returns to
/// `here` with the history as it was.
pub proof fn lemma_forward_then_back(h: Stacks, here: Visit)
    requires
        h.forward.len() > 0,
    ensures
        ({
            let (h1, there) = went_forward(h, here);
            &&& there == Some(h.forward.last())
            &&& went_back(h1, there.unwrap()) == (h, Some(here))
        }),
{
    let (h1, there) = went_forward(h, here);
    assert(h1.forward.push(there.unwrap()) =~= h.forward);
    assert(h1.back.drop_last() =~= h.back);
}

/// After recording a visit there is nowhere to go forward to, and going back
/// leads to the visit just recorded.
pub proof fn lemma_record_then_back(h: Stacks, v: Visit, here: Visit)
    ensures
        recorded(h, v).forward.len() == 0,
        went_back(recorded(h, v), here).1 == Some(v),
{
}

} // verus!
