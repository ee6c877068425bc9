//! What the terminal panes show of a list of messages: the text lines of
//! each message and its colours.

use crate::formatters::{hex_formatter, hex_lines, texts, utf8_formatter, utf8_lines};
use crate::monitor::Format;
use crate::records::{record_views, split_records, split_views};
use vstd::prelude::*;

verus! {

/// The text colour of a message: red for the client side (even tag), green
/// for the PLC side (odd tag).
pub enum Colour {
    Red,
    Green,
}

/// The background of a message: dark when it is left out of replays (tag
/// above 1), the terminal's own otherwise.
pub enum Shade {
    Black,
    Reset,
}

/// The rendering of one message.
pub struct ItemText {
    pub lines: Vec<String>,
    pub colour: Colour,
    pub shade: Shade,
}

pub open spec fn colour_of(tag: u8) -> Colour {
    if tag % 2 == 0 {
        Colour::Red
    } else {
        Colour::Green
    }
}

pub open spec fn shade_of(tag: u8) -> Shade {
    if tag > 1 {
        Shade::Black
    } else {
        Shade::Reset
    }
}

/// The lines of `bytes` in the given rendering for a pane `width` wide.
pub open spec fn formatted(bytes: Seq<u8>, width: u16, format: Format) -> Seq<Seq<char>> {
    match format {
        Format::Utf8 => utf8_lines(bytes, width as nat),
        Format::Hex => hex_lines(bytes, width),
    }
}

/// The rendering fits the width: hex lines need at least 6 columns (one
/// byte per line at least), UTF-8 lines at least one.
pub open spec fn width_fits(width: u16, format: Format) -> bool {
    match format {
        Format::Utf8 => width > 0,
        Format::Hex => width >= 6,
    }
}

/// The renderings of the messages, one per message, in order.
pub open spec fn rendered(items: Seq<(Seq<u8>, u8)>, width: u16, format: Format, out: Seq<ItemText>) -> bool {
    &&& out.len() == items.len()
    &&& forall|i: int|
        0 <= i < items.len() ==> texts((#[trigger] out[i]).lines@) == formatted(items[i].0, width, format)
            && out[i].colour == colour_of(items[i].1) && out[i].shade == shade_of(items[i].1)
}

/// In every rendering, a message is red exactly when its tag is even (a
/// client's bytes) and green otherwise, and it is shown dark exactly when
/// its tag is above 1 (tags 2 and up: left out of replays); tags 0 and 1
/// keep the terminal's background.
pub proof fn lemma_rendered_colours(items: Seq<(Seq<u8>, u8)>, width: u16, format: Format, out: Seq<ItemText>)
    requires
        rendered(items, width, format, out),
    ensures
        forall|i: int|
            0 <= i < items.len() ==> ((#[trigger] out[i]).colour is Red <==> items[i].1 % 2 == 0) && (
            out[i].colour is Green <==> items[i].1 % 2 == 1) && (out[i].shade is Black <==> items[i].1 >= 2) && (
            out[i].shade is Reset <==> items[i].1 <= 1),
{
    assert forall|i: int| 0 <= i < items.len() implies ((#[trigger] out[i]).colour is Red <==> items[i].1 % 2
        == 0) && (out[i].colour is Green <==> items[i].1 % 2 == 1) && (out[i].shade is Black <==> items[i].1
        >= 2) && (out[i].shade is Reset <==> items[i].1 <= 1) by {
        assert(out[i].colour == colour_of(items[i].1));
        assert(out[i].shade == shade_of(items[i].1));
    }
}

/// Whether the rendering fits the width.
pub fn fits(width: u16, format: &Format) -> (ok: bool)
    ensures
        ok == width_fits(width, *format),
{
    match format {
        Format::Utf8 => width > 0,
        Format::Hex => width >= 6,
    }
}

/// Renders each message: its lines in the given format, red or green by
/// side, dark when left out of replays.
pub fn format_items(items: &Vec<(Vec<u8>, u8)>, width: u16, format: &Format) -> (out: Vec<ItemText>)
    requires
        width_fits(width, *format),
    ensures
        rendered(record_views(items@), width, *format, out@),
{
    let mut out: Vec<ItemText> = Vec::new();
    for i in 0..items.len()
        invariant
            width_fits(width, *format),
            out@.len() == i,
            forall|k: int|
                0 <= k < i ==> texts((#[trigger] out@[k]).lines@) == formatted(items@[k].0@, width, *format)
                    && out@[k].colour == colour_of(items@[k].1) && out@[k].shade == shade_of(items@[k].1),
    {
        let (bytes, tag) = (&items[i].0, items[i].1);
        let lines = match format {
            Format::Utf8 => utf8_formatter(bytes, width),
            Format::Hex => hex_formatter(bytes, width),
        };
        let colour = if tag % 2 == 0 { Colour::Red } else { Colour::Green };
        let shade = if tag > 1 { Shade::Black } else { Shade::Reset };
        out.push(ItemText { lines, colour, shade });
    }
    out
}

/// Renders the messages cut into pieces of at most 1024 bytes, one
/// rendering per piece.
pub fn format_pieces(items: &Vec<(Vec<u8>, u8)>, width: u16, format: &Format) -> (out: Vec<ItemText>)
    requires
        width_fits(width, *format),
    ensures
        rendered(split_views(record_views(items@), 1024), width, *format, out@),
{
    let pieces = split_records(items, 1024);
    format_items(&pieces, width, format)
}

} // verus!
