//! A list of items with an optional selected position, as browsed in the
//! terminal views.

use vstd::prelude::*;

verus! {

/// The selection that `next` moves to: forward by one, wrapping to the first
/// item after the last one, and to the first item when nothing is selected.
pub open spec fn next_selection(selected: Option<usize>, len: nat) -> Option<usize> {
    match selected {
        Some(i) => if i >= len - 1 { Some(0usize) } else { Some((i + 1) as usize) },
        None => Some(0usize),
    }
}

/// The selection that `previous` moves to: back by one, wrapping to the last
/// item before the first one, and to the first item when nothing is selected.
pub open spec fn previous_selection(selected: Option<usize>, len: nat) -> Option<usize> {
    match selected {
        Some(i) => if i == 0 { Some((len - 1) as usize) } else { Some((i - 1) as usize) },
        None => Some(0usize),
    }
}

/// `next` compares the selection with `len - 1`, which does not exist in an
/// empty list: it needs items once something is selected.
pub open spec fn can_move(selected: Option<usize>, len: nat) -> bool {
    selected is Some ==> len > 0
}

/// `previous` steps back from the first position to `len - 1`, which does
/// not exist in an empty list: it fails only there.
pub open spec fn can_move_back(selected: Option<usize>, len: nat) -> bool {
    !(len == 0 && selected == Some(0usize))
}

/// Items together with the position of the selected one, if any.
pub struct StatefulList<T> {
    pub selected: Option<usize>,
    pub items: Vec<T>,
}

impl<T> StatefulList<T> {
    /// A list of the given items with nothing selected.
    pub fn with_items(items: Vec<T>) -> (list: StatefulList<T>)
        ensures
            list.items@ == items@,
            list.selected is None,
    {
        StatefulList { selected: None, items }
    }

    /// Selects the following item, wrapping around after the last one.
    pub fn next(&mut self)
        requires
            can_move(old(self).selected, old(self).items@.len()),
        ensures
            final(self).items == old(self).items,
            final(self).selected == next_selection(old(self).selected, old(self).items@.len()),
    {
        let i: usize = match self.selected {
            Some(i) => {
                if i >= self.items.len() - 1 {
                    0
                } else {
                    i + 1
                }
            },
            None => 0,
        };
        self.selected = Some(i);
    }

    /// Selects the preceding item, wrapping around before the first one.
    pub fn previous(&mut self)
        requires
            can_move_back(old(self).selected, old(self).items@.len()),
        ensures
            final(self).items == old(self).items,
            final(self).selected == previous_selection(old(self).selected, old(self).items@.len()),
    {
        let i: usize = match self.selected {
            Some(i) => {
                if i == 0 {
                    self.items.len() - 1
                } else {
                    i - 1
                }
            },
            None => 0,
        };
        self.selected = Some(i);
    }

    /// Clears the selection.
    pub fn unselect(&mut self)
        ensures
            final(self).items == old(self).items,
            final(self).selected is None,
    {
        self.selected = None;
    }

    /// Appends an item and selects the position just past it, that is the
    /// new length of the list.
    pub fn push_select(&mut self, val: T)
        requires
            old(self).items@.len() < usize::MAX,
        ensures
            final(self).items@ == old(self).items@.push(val),
            final(self).selected == Some((old(self).items@.len() + 1) as usize),
    {
        self.items.push(val);
        self.selected = Some(self.items.len());
    }
}

/// Moving forward and then back returns to the item that was selected, when
/// that item exists.
pub proof fn lemma_previous_undoes_next(selected: usize, len: nat)
    requires
        selected < len <= usize::MAX,
    ensures
        previous_selection(next_selection(Some(selected), len), len) == Some(selected),
{
}

/// Moving back and then forward returns to the item that was selected, when
/// that item exists.
pub proof fn lemma_next_undoes_previous(selected: usize, len: nat)
    requires
        selected < len <= usize::MAX,
    ensures
        next_selection(previous_selection(Some(selected), len), len) == Some(selected),
{
}

/// In a list that is not empty, stepping forward from any selection lands on
/// an existing item, and so does stepping back from an item or from the
/// position just past the last one (where `push_select` leaves it).
pub proof fn lemma_moves_stay_in_range(selected: Option<usize>, len: nat)
    requires
        0 < len <= usize::MAX,
        selected matches Some(i) ==> i <= len,
    ensures
        next_selection(selected, len) matches Some(j) && j < len,
        previous_selection(selected, len) matches Some(j) && j < len,
{
}

/// The selection after `n` calls of `next`.
pub open spec fn next_times(selected: Option<usize>, len: nat, n: nat) -> Option<usize>
    decreases n,
{
    if n == 0 {
        selected
    } else {
        next_selection(next_times(selected, len, (n - 1) as nat), len)
    }
}

/// Steps forward add up.
proof fn lemma_next_times_add(selected: Option<usize>, len: nat, a: nat, b: nat)
    ensures
        next_times(selected, len, a + b) == next_times(next_times(selected, len, a), len, b),
    decreases b,
{
    if b > 0 {
        lemma_next_times_add(selected, len, a, (b - 1) as nat);
        assert((a + b - 1) as nat == a + (b - 1) as nat);
    }
}

/// Before the end of the list, each step moves one item on.
proof fn lemma_next_times_within(i: usize, len: nat, k: nat)
    requires
        i + k < len <= usize::MAX,
    ensures
        next_times(Some(i), len, k) == Some((i + k) as usize),
    decreases k,
{
    if k > 0 {
        lemma_next_times_within(i, len, (k - 1) as nat);
    }
}

/// In a list of `len` items, `len` calls of `next` from any item come back
/// to it.
pub proof fn lemma_next_cycles(i: usize, len: nat)
    requires
        i < len <= usize::MAX,
    ensures
        next_times(Some(i), len, len) == Some(i),
{
    let to_last = (len - 1 - i) as nat;
    lemma_next_times_within(i, len, to_last);
    assert(next_times(Some(i), len, to_last + 1) == Some(0usize));
    lemma_next_times_add(Some(i), len, to_last + 1, i as nat);
    if i > 0 {
        lemma_next_times_within(0, len, i as nat);
    }
    assert(to_last + 1 + i == len);
}

} // verus!
