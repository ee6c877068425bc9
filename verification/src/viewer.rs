//! The state of the log viewer: the messages of a capture, browsed with the
//! arrow keys.

use crate::monitor::Key;
use crate::stateful_list::{can_move, can_move_back, next_selection, previous_selection, StatefulList};
use vstd::prelude::*;

verus! {

/// The log viewer.
pub struct App {
    pub items: StatefulList<(Vec<u8>, u8)>,
}

impl App {
    /// A viewer over the messages, nothing selected.
    pub fn new(i: Vec<(Vec<u8>, u8)>) -> (app: App)
        ensures
            app.items.items@ == i@,
            app.items.selected is None,
    {
        App { items: StatefulList::with_items(i) }
    }

    /// The periodic tick: nothing to do.
    pub fn on_tick(&mut self)
        ensures
            *final(self) == *old(self),
    {
    }

    /// Moving down needs items once something is selected; moving up fails
    /// only on an empty list with the first position selected.
    pub open spec fn key_ok(&self, key: Key) -> bool {
        &&& key is Down ==> can_move(self.items.selected, self.items.items@.len())
        &&& key is Up ==> can_move_back(self.items.selected, self.items.items@.len())
    }

    /// Whether `key_ok` holds.
    pub fn key_allowed(&self, key: &Key) -> (ok: bool)
        ensures
            ok == self.key_ok(*key),
    {
        match key {
            Key::Down => self.items.selected.is_none() || self.items.items.len() > 0,
            Key::Up => self.items.items.len() > 0 || self.items.selected != Some(0usize),
            _ => true,
        }
    }

    /// Reacts to a key: `q` quits (returns true); Left clears the selection,
    /// Down and Up move it.
    pub fn handle_key(&mut self, key: Key) -> (quit: bool)
        requires
            old(self).key_ok(key),
        ensures
            final(self).items.items == old(self).items.items,
            quit == (key matches Key::Char(c) && c == 'q'),
            final(self).items.selected == match key {
                Key::Left => None,
                Key::Down => next_selection(old(self).items.selected, old(self).items.items@.len()),
                Key::Up => previous_selection(old(self).items.selected, old(self).items.items@.len()),
                _ => old(self).items.selected,
            },
    {
        match key {
            Key::Char(c) => c == 'q',
            Key::Left => {
                self.items.unselect();
                false
            },
            Key::Down => {
                self.items.next();
                false
            },
            Key::Up => {
                self.items.previous();
                false
            },
            _ => false,
        }
    }
}

} // verus!
