//! The remedial actions that the two reconcilers decide on.
//!
//! Positions are zero-based indices into the observed sequence at
//! decision time; applying any action invalidates them, so a caller
//! must re-observe the current state before asking for the next action.

use vstd::prelude::*;

verus! {

/// One positional edit of an ordered sequence.
#[derive(Clone, Debug, PartialEq, Eq)]
pub enum ListAction {
    /// Remove the element at this position.
    Remove(usize),
    /// Insert the value at this position.
    Insert(usize, String),
}

/// One membership fix of an unordered set.
#[derive(Clone, Debug, PartialEq, Eq)]
pub enum SetAction {
    /// Remove this value from the set.
    Remove(String),
    /// Add this value to the set.
    Add(String),
}

/// The mathematical counterpart of `ListAction`: an edit of a sequence,
/// generic in the element type, with an unbounded position.
pub enum SeqEdit<A> {
    Remove(int),
    Insert(int, A),
}

/// The mathematical counterpart of `SetAction`: a membership edit.
pub enum SetEdit<A> {
    Remove(A),
    Add(A),
}

impl View for ListAction {
    type V = SeqEdit<Seq<char>>;

    open spec fn view(&self) -> SeqEdit<Seq<char>> {
        match self {
            ListAction::Remove(i) => SeqEdit::Remove(*i as int),
            ListAction::Insert(i, v) => SeqEdit::Insert(*i as int, v@),
        }
    }
}

impl View for SetAction {
    type V = SetEdit<Seq<char>>;

    open spec fn view(&self) -> SetEdit<Seq<char>> {
        match self {
            SetAction::Remove(v) => SetEdit::Remove(v@),
            SetAction::Add(v) => SetEdit::Add(v@),
        }
    }
}

/// The position an ordered action speaks of.
pub open spec fn spec_position(a: ListAction) -> int {
    match a {
        ListAction::Remove(i) => i as int,
        ListAction::Insert(i, _) => i as int,
    }
}

impl ListAction {
    /// Re-expresses an action decided for a tail in terms of the
    /// sequence one element longer: the position moves up by one.
    pub fn add_one(self) -> (r: Self)
        requires
            spec_position(self) < usize::MAX,
        ensures
            r@ == crate::ordered::shift_edit(self@, 1),
    {
        match self {
            ListAction::Remove(i) => ListAction::Remove(i + 1),
            ListAction::Insert(i, t) => ListAction::Insert(i + 1, t),
        }
    }
}

} // verus!
