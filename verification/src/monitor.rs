//! The state of the PLC monitor: a log of recorded messages that can be
//! browsed, edited, sent to the PLC and replayed, beside the list of
//! messages exchanged in this session.

use crate::records::record_views;
use crate::replace::copy_bytes;
use crate::stateful_list::{can_move, can_move_back, next_selection, previous_selection, StatefulList};
use vstd::prelude::*;

verus! {

/// The keys the monitor reacts to.
pub enum Key {
    Char(char),
    Left,
    Down,
    Up,
    Enter,
    Other,
}

/// What the caller has to do after a key.
pub enum KeyAction {
    /// Nothing beyond redrawing.
    Nothing,
    /// Leave the monitor.
    Quit,
    /// Write `bytes` to the PLC; once written, hand `record` to
    /// `App::record_sent`.
    Send { bytes: Vec<u8>, record: (Vec<u8>, u8) },
    /// Replay these messages one by one (see `App::record_replayed` and
    /// `App::record_response`), then call `App::finish_replay`.
    Replay(Vec<(Vec<u8>, u8)>),
}

/// Which rendering the messages pane uses.
pub enum Format {
    Utf8,
    Hex,
}

/// Whether the log panes can be drawn from the cache.
pub enum RenderPlan {
    UseCache,
    Rebuild,
}

/// The monitor: the recorded messages, the session's messages, and the
/// display settings.
pub struct App {
    /// Recorded messages with their tags: an even tag for the client side,
    /// an odd one for the PLC side; 2 is added to mark a message left out of
    /// replays.
    pub items: StatefulList<(Vec<u8>, u8)>,
    /// Messages sent and received in this session.
    pub message_list: StatefulList<(Vec<u8>, u8)>,
    /// Whether the messages pane shows hex instead of UTF-8.
    pub hex_mode: bool,
    /// Whether the cached rendering of the log is out of date.
    pub redraw: bool,
    /// The width the cached rendering was made for.
    pub cache_width: Option<u16>,
}

/// A message as bytes and tag.
pub open spec fn item_view(item: (Vec<u8>, u8)) -> (Seq<u8>, u8) {
    (item.0@, item.1)
}

/// The notice of a dropped connection, as ASCII bytes.
pub open spec fn disconnect_notice() -> Seq<u8> {
    Seq::new(
        "PLC TERMINATED COMMUNICATION RESTABLISHING CONNECTION"@.len(),
        |i: int| "PLC TERMINATED COMMUNICATION RESTABLISHING CONNECTION"@[i] as u8,
    )
}

/// The message to send for the selected session message: a copy tagged 0,
/// with bytes 2, 10 and 14 set to 2, 3 and 227.
pub open spec fn edited(bytes: Seq<u8>) -> Seq<u8> {
    bytes.update(2, 2).update(10, 3).update(14, 227)
}

/// The tag after toggling whether a message takes part in replays.
pub open spec fn toggled(tag: u8) -> u8 {
    if tag > 1 {
        (tag - 2) as u8
    } else {
        (tag + 2) as u8
    }
}

/// The tags after leaving every client message (tag 0) out of replays.
pub open spec fn excluded(items: Seq<(Seq<u8>, u8)>) -> Seq<(Seq<u8>, u8)> {
    items.map_values(|it: (Seq<u8>, u8)| (it.0, if it.1 == 0 { 2u8 } else { it.1 }))
}

/// The messages that a replay sends: the client messages, tag 0, in order.
pub open spec fn replayed(items: Seq<(Seq<u8>, u8)>) -> Seq<(Seq<u8>, u8)>
    decreases items.len(),
{
    if items.len() == 0 {
        Seq::empty()
    } else {
        let prev = replayed(items.drop_last());
        if items.last().1 == 0 {
            prev.push(items.last())
        } else {
            prev
        }
    }
}

impl App {
    /// A monitor over the recorded messages, nothing selected, an empty
    /// session, UTF-8 messages, and no cached rendering.
    pub fn new(i: Vec<(Vec<u8>, u8)>) -> (app: App)
        ensures
            app.items.items@ == i@,
            app.items.selected is None,
            app.message_list.items@.len() == 0,
            app.message_list.selected is None,
            !app.hex_mode,
            app.redraw,
            app.cache_width is None,
    {
        App {
            items: StatefulList::with_items(i),
            message_list: StatefulList::with_items(Vec::new()),
            hex_mode: false,
            redraw: true,
            cache_width: None,
        }
    }

    /// The periodic tick: nothing to do.
    pub fn on_tick(&mut self)
        ensures
            *final(self) == *old(self),
    {
    }

    /// The key can be handled without failing: moving down a list needs
    /// items once something is selected, moving up fails only on an empty
    /// list with the first position selected, and the selected message must
    /// exist (and, for `l`, hold at least 15 bytes).
    pub open spec fn key_ok(&self, key: Key) -> bool {
        match key {
            Key::Down => can_move(self.items.selected, self.items.items@.len()),
            Key::Up => can_move_back(self.items.selected, self.items.items@.len()),
            Key::Char(c) => if c == 'i' {
                can_move_back(self.message_list.selected, self.message_list.items@.len())
            } else if c == 'k' {
                can_move(self.message_list.selected, self.message_list.items@.len())
            } else if c == 'l' {
                self.message_list.selected matches Some(i) ==> i < self.message_list.items@.len()
                    && self.message_list.items@[i as int].0@.len() >= 15
            } else if c == 'o' {
                self.items.selected matches Some(i) ==> i < self.items.items@.len()
            } else {
                true
            },
            Key::Enter => self.items.selected matches Some(i) ==> i < self.items.items@.len(),
            _ => true,
        }
    }

    /// Whether `key_ok` holds.
    pub fn key_allowed(&self, key: &Key) -> (ok: bool)
        ensures
            ok == self.key_ok(*key),
    {
        match key {
            Key::Down => self.items.selected.is_none() || self.items.items.len() > 0,
            Key::Up => self.items.items.len() > 0 || self.items.selected != Some(0usize),
            Key::Char(c) => {
                if *c == 'i' {
                    self.message_list.items.len() > 0 || self.message_list.selected != Some(0usize)
                } else if *c == 'k' {
                    self.message_list.selected.is_none() || self.message_list.items.len() > 0
                } else if *c == 'l' {
                    match self.message_list.selected {
                        Some(i) => i < self.message_list.items.len()
                            && self.message_list.items[i].0.len() >= 15,
                        None => true,
                    }
                } else if *c == 'o' {
                    match self.items.selected {
                        Some(i) => i < self.items.items.len(),
                        None => true,
                    }
                } else {
                    true
                }
            },
            Key::Enter => match self.items.selected {
                Some(i) => i < self.items.items.len(),
                None => true,
            },
            _ => true,
        }
    }

    /// Reacts to a key: `q` quits; `h` switches the messages pane between
    /// UTF-8 and hex; Left, Down and Up clear and move the log selection;
    /// `i` and `k` move the session selection; `l` sends an edited copy of
    /// the selected session message and Enter the selected log message; `o`
    /// toggles whether the selected log message takes part in replays and
    /// moves two down; `u` leaves all client messages out of replays; `r`
    /// replays the client messages.
    pub fn handle_key(&mut self, key: Key) -> (action: KeyAction)
        requires
            old(self).key_ok(key),
        ensures
            handled(*old(self), *final(self), key, action),
    {
        match key {
            Key::Char(c) => {
                if c == 'q' {
                    KeyAction::Quit
                } else if c == 'h' {
                    self.hex_mode = !self.hex_mode;
                    KeyAction::Nothing
                } else if c == 'i' {
                    self.message_list.previous();
                    KeyAction::Nothing
                } else if c == 'k' {
                    self.message_list.next();
                    KeyAction::Nothing
                } else if c == 'l' {
                    match self.message_list.selected {
                        Some(index) => {
                            let mut bytes = copy_bytes(&self.message_list.items[index].0);
                            bytes.set(2, 2);
                            bytes.set(10, 3);
                            bytes.set(14, 227);
                            let record = (copy_bytes(&bytes), 0u8);
                            KeyAction::Send { bytes, record }
                        },
                        None => KeyAction::Nothing,
                    }
                } else if c == 'o' {
                    match self.items.selected {
                        Some(f) => {
                            let tag = self.items.items[f].1;
                            if tag > 1 {
                                self.items.items[f].1 = tag - 2;
                            } else {
                                self.items.items[f].1 = tag + 2;
                            }
                            self.items.next();
                            self.items.next();
                            self.redraw = true;
                            KeyAction::Nothing
                        },
                        None => KeyAction::Nothing,
                    }
                } else if c == 'u' {
                    self.exclude_client_messages();
                    self.redraw = true;
                    KeyAction::Nothing
                } else if c == 'r' {
                    KeyAction::Replay(self.replay_list())
                } else {
                    KeyAction::Nothing
                }
            },
            Key::Left => {
                self.items.unselect();
                KeyAction::Nothing
            },
            Key::Down => {
                self.items.next();
                KeyAction::Nothing
            },
            Key::Up => {
                self.items.previous();
                KeyAction::Nothing
            },
            Key::Enter => {
                match self.items.selected {
                    Some(index) => {
                        let item = &self.items.items[index];
                        let bytes = copy_bytes(&item.0);
                        let record = (copy_bytes(&item.0), item.1);
                        KeyAction::Send { bytes, record }
                    },
                    None => KeyAction::Nothing,
                }
            },
            Key::Other => KeyAction::Nothing,
        }
    }

    /// Every client message (tag 0) is left out of replays (tag 2).
    fn exclude_client_messages(&mut self)
        ensures
            record_views(final(self).items.items@) == excluded(record_views(old(self).items.items@)),
            final(self).items.selected == old(self).items.selected,
            final(self).message_list == old(self).message_list,
            final(self).hex_mode == old(self).hex_mode,
            final(self).redraw == old(self).redraw,
            final(self).cache_width == old(self).cache_width,
    {
        let n = self.items.items.len();
        for i in 0..n
            invariant
                n == self.items.items@.len(),
                n == old(self).items.items@.len(),
                forall|k: int|
                    0 <= k < n ==> item_view(#[trigger] self.items.items@[k]) == if k < i {
                        (old(self).items.items@[k].0@, if old(self).items.items@[k].1 == 0 {
                            2u8
                        } else {
                            old(self).items.items@[k].1
                        })
                    } else {
                        item_view(old(self).items.items@[k])
                    },
                self.items.selected == old(self).items.selected,
                self.message_list == old(self).message_list,
                self.hex_mode == old(self).hex_mode,
                self.redraw == old(self).redraw,
                self.cache_width == old(self).cache_width,
        {
            if self.items.items[i].1 == 0 {
                self.items.items[i].1 = 2;
            }
        }
        proof {
            assert(record_views(self.items.items@) =~= excluded(record_views(old(self).items.items@)));
        }
    }

    /// Copies of the client messages (tag 0), in order.
    fn replay_list(&self) -> (list: Vec<(Vec<u8>, u8)>)
        ensures
            record_views(list@) == replayed(record_views(self.items.items@)),
    {
        let mut out: Vec<(Vec<u8>, u8)> = Vec::new();
        let ghost all = record_views(self.items.items@);
        for i in 0..self.items.items.len()
            invariant
                all == record_views(self.items.items@),
                record_views(out@) == replayed(all.take(i as int)),
        {
            proof {
                assert(all.take(i + 1).drop_last() =~= all.take(i as int));
                assert(all.take(i + 1).last() == item_view(self.items.items@[i as int]));
            }
            let item = &self.items.items[i];
            if item.1 == 0 {
                let ghost prev = record_views(out@);
                out.push((copy_bytes(&item.0), item.1));
                proof {
                    assert(record_views(out@) =~= prev.push(item_view(self.items.items@[i as int])));
                }
            }
        }
        proof {
            assert(all.take(self.items.items@.len() as int) =~= all);
        }
        out
    }

    /// After a message from `Send` was written: it joins the session list
    /// and the log selection moves two down.
    pub fn record_sent(&mut self, record: (Vec<u8>, u8))
        requires
            old(self).message_list.items@.len() < usize::MAX,
            old(self).items.items@.len() > 0,
        ensures
            final(self).message_list.items@ == old(self).message_list.items@.push(record),
            final(self).message_list.selected == Some((old(self).message_list.items@.len() + 1) as usize),
            final(self).items.items == old(self).items.items,
            final(self).items.selected == next_selection(
                next_selection(old(self).items.selected, old(self).items.items@.len()),
                old(self).items.items@.len(),
            ),
            final(self).hex_mode == old(self).hex_mode,
            final(self).redraw == old(self).redraw,
            final(self).cache_width == old(self).cache_width,
    {
        self.message_list.push_select(record);
        self.items.next();
        self.items.next();
    }

    /// During a replay, a message that was written joins the session list.
    pub fn record_replayed(&mut self, record: (Vec<u8>, u8))
        requires
            old(self).message_list.items@.len() < usize::MAX,
        ensures
            final(self).message_list.items@ == old(self).message_list.items@.push(record),
            final(self).message_list.selected == Some((old(self).message_list.items@.len() + 1) as usize),
            final(self).items == old(self).items,
            final(self).hex_mode == old(self).hex_mode,
            final(self).redraw == old(self).redraw,
            final(self).cache_width == old(self).cache_width,
    {
        self.message_list.push_select(record);
    }

    /// Bytes received from the PLC join the session list, tagged 1, unless
    /// there are none.
    pub fn record_response(&mut self, response: Vec<u8>)
        requires
            old(self).message_list.items@.len() < usize::MAX,
        ensures
            response@.len() == 0 ==> *final(self) == *old(self),
            response@.len() > 0 ==> final(self).message_list.items@ == old(self).message_list.items@.push(
                (response, 1u8),
            ) && final(self).message_list.selected == Some(
                (old(self).message_list.items@.len() + 1) as usize,
            ),
            final(self).items == old(self).items,
            final(self).hex_mode == old(self).hex_mode,
            final(self).redraw == old(self).redraw,
            final(self).cache_width == old(self).cache_width,
    {
        if response.len() > 0 {
            self.message_list.push_select((response, 1));
        }
    }

    /// The connection to the PLC dropped and is being made again: a notice
    /// joins the session list, tagged 4.
    pub fn record_disconnect(&mut self)
        requires
            old(self).message_list.items@.len() < usize::MAX,
        ensures
            final(self).message_list.items@.len() == old(self).message_list.items@.len() + 1,
            final(self).message_list.items@.drop_last() == old(self).message_list.items@,
            item_view(final(self).message_list.items@.last()) == (disconnect_notice(), 4u8),
            final(self).message_list.selected == Some((old(self).message_list.items@.len() + 1) as usize),
            final(self).items == old(self).items,
            final(self).hex_mode == old(self).hex_mode,
            final(self).redraw == old(self).redraw,
            final(self).cache_width == old(self).cache_width,
    {
        let text = "PLC TERMINATED COMMUNICATION RESTABLISHING CONNECTION";
        proof {
            reveal_strlit("PLC TERMINATED COMMUNICATION RESTABLISHING CONNECTION");
            vstd::string::is_ascii_spec_bytes(text);
        }
        let raw = text.as_bytes();
        let mut bytes: Vec<u8> = Vec::new();
        for i in 0..raw.len()
            invariant
                bytes@ == raw@.take(i as int),
        {
            bytes.push(raw[i]);
            assert(bytes@ =~= raw@.take(i + 1));
        }
        assert(bytes@ =~= disconnect_notice());
        let ghost before = self.message_list.items@;
        self.message_list.push_select((bytes, 4));
        assert(self.message_list.items@.drop_last() =~= before);
    }

    /// After a replay the cached rendering is out of date.
    pub fn finish_replay(&mut self)
        ensures
            final(self).redraw,
            final(self).items == old(self).items,
            final(self).message_list == old(self).message_list,
            final(self).hex_mode == old(self).hex_mode,
            final(self).cache_width == old(self).cache_width,
    {
        self.redraw = true;
    }

    /// Decides whether the log panes at this width can come from the cache;
    /// when they cannot, the cache is taken as rebuilt for this width.
    pub fn plan_render(&mut self, width: u16) -> (plan: RenderPlan)
        ensures
            final(self).items == old(self).items,
            final(self).message_list == old(self).message_list,
            final(self).hex_mode == old(self).hex_mode,
            (old(self).cache_width == Some(width) && !old(self).redraw) ==> plan is UseCache
                && *final(self) == *old(self),
            !(old(self).cache_width == Some(width) && !old(self).redraw) ==> plan is Rebuild
                && final(self).cache_width == Some(width) && !final(self).redraw,
    {
        if self.cache_width == Some(width) && !self.redraw {
            RenderPlan::UseCache
        } else {
            self.cache_width = Some(width);
            self.redraw = false;
            RenderPlan::Rebuild
        }
    }

    /// The rendering of the messages pane.
    pub fn message_format(&self) -> (format: Format)
        ensures
            self.hex_mode ==> format is Hex,
            !self.hex_mode ==> format is Utf8,
    {
        if self.hex_mode {
            Format::Hex
        } else {
            Format::Utf8
        }
    }
}

/// The monitor after `key`, and the action asked of the caller.
pub open spec fn handled(before: App, after: App, key: Key, action: KeyAction) -> bool {
    let items = before.items.items@;
    let len = items.len();
    let same_log = after.items == before.items;
    let same_session = after.message_list == before.message_list;
    let same_display = after.hex_mode == before.hex_mode && after.redraw == before.redraw
        && after.cache_width == before.cache_width;
    match key {
        Key::Char(c) => if c == 'q' {
            action is Quit && after == before
        } else if c == 'h' {
            action is Nothing && same_log && same_session && after.hex_mode == !before.hex_mode
                && after.redraw == before.redraw && after.cache_width == before.cache_width
        } else if c == 'i' || c == 'k' {
            &&& action is Nothing
            &&& same_log
            &&& same_display
            &&& after.message_list.items == before.message_list.items
            &&& after.message_list.selected == if c == 'i' {
                previous_selection(before.message_list.selected, before.message_list.items@.len())
            } else {
                next_selection(before.message_list.selected, before.message_list.items@.len())
            }
        } else if c == 'l' {
            &&& after == before
            &&& match before.message_list.selected {
                Some(i) => action matches KeyAction::Send { bytes, record } && bytes@ == edited(
                    before.message_list.items@[i as int].0@,
                ) && record.0@ == bytes@ && record.1 == 0,
                None => action is Nothing,
            }
        } else if c == 'o' {
            &&& action is Nothing
            &&& same_session
            &&& after.hex_mode == before.hex_mode
            &&& after.cache_width == before.cache_width
            &&& match before.items.selected {
                Some(f) => {
                    &&& after.items.items@ == items.update(f as int, (items[f as int].0, toggled(items[f as int].1)))
                    &&& after.items.selected == next_selection(next_selection(Some(f), len), len)
                    &&& after.redraw
                },
                None => same_log && after.redraw == before.redraw,
            }
        } else if c == 'u' {
            &&& action is Nothing
            &&& same_session
            &&& record_views(after.items.items@) == excluded(record_views(items))
            &&& after.items.selected == before.items.selected
            &&& after.hex_mode == before.hex_mode
            &&& after.cache_width == before.cache_width
            &&& after.redraw
        } else if c == 'r' {
            action matches KeyAction::Replay(list) && record_views(list@) == replayed(record_views(items))
                && after == before
        } else {
            action is Nothing && after == before
        },
        Key::Left => action is Nothing && same_session && same_display && after.items.items == before.items.items
            && after.items.selected is None,
        Key::Down => action is Nothing && same_session && same_display && after.items.items == before.items.items
            && after.items.selected == next_selection(before.items.selected, len),
        Key::Up => action is Nothing && same_session && same_display && after.items.items == before.items.items
            && after.items.selected == previous_selection(before.items.selected, len),
        Key::Enter => after == before && match before.items.selected {
            Some(i) => action matches KeyAction::Send { bytes, record } && bytes@ == items[i as int].0@
                && item_view(record) == item_view(items[i as int]),
            None => action is Nothing,
        },
        Key::Other => action is Nothing && after == before,
    }
}

/// Toggling a message's replay mark twice restores its tag, for the tags
/// the monitor gives out (0 to 3).
pub proof fn lemma_toggle_twice(tag: u8)
    requires
        tag < 4,
    ensures
        toggled(toggled(tag)) == tag,
{
}

/// Leaving client messages out of replays a second time changes nothing.
pub proof fn lemma_exclude_idempotent(items: Seq<(Seq<u8>, u8)>)
    ensures
        excluded(excluded(items)) == excluded(items),
{
    assert(excluded(excluded(items)) =~= excluded(items));
}

/// Once client messages are left out, a replay sends nothing.
pub proof fn lemma_replay_after_exclude(items: Seq<(Seq<u8>, u8)>)
    ensures
        replayed(excluded(items)).len() == 0,
    decreases items.len(),
{
    if items.len() > 0 {
        lemma_replay_after_exclude(items.drop_last());
        assert(excluded(items).drop_last() =~= excluded(items.drop_last()));
    }
}

/// A replay sends client messages only, and no more messages than the log
/// holds.
pub proof fn lemma_replay_sends_client_messages(items: Seq<(Seq<u8>, u8)>)
    ensures
        forall|i: int| 0 <= i < replayed(items).len() ==> (#[trigger] replayed(items)[i]).1 == 0,
        replayed(items).len() <= items.len(),
    decreases items.len(),
{
    if items.len() > 0 {
        lemma_replay_sends_client_messages(items.drop_last());
    }
}

} // verus!
