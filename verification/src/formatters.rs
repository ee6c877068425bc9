//! The two text renderings of a logged message: UTF-8 lines and hex lines.

use vstd::prelude::*;

verus! {

/// The pieces of `bytes` between occurrences of `sep`: one more piece than
/// there are separators, empty pieces included.
pub open spec fn split_on(bytes: Seq<u8>, sep: u8) -> Seq<Seq<u8>>
    decreases bytes.len(),
{
    if bytes.len() == 0 {
        seq![Seq::<u8>::empty()]
    } else {
        let prev = split_on(bytes.drop_last(), sep);
        if bytes.last() == sep {
            prev.push(Seq::<u8>::empty())
        } else {
            prev.update(prev.len() - 1, prev.last().push(bytes.last()))
        }
    }
}

/// `s` cut into consecutive pieces of `w` bytes, the last one possibly
/// shorter; no piece for an empty `s`.
pub open spec fn chunks_of(s: Seq<u8>, w: nat) -> Seq<Seq<u8>>
    decreases s.len(),
{
    if s.len() == 0 || w == 0 {
        Seq::empty()
    } else if s.len() <= w {
        seq![s]
    } else {
        seq![s.take(w as int)] + chunks_of(s.skip(w as int), w)
    }
}

/// The text that `String::from_utf8_lossy` makes of `bytes`: their UTF-8
/// decoding, with each invalid sequence replaced by U+FFFD.
pub uninterp spec fn utf8_lossy(bytes: Seq<u8>) -> Seq<char>;

/// The characters of ASCII bytes.
pub open spec fn ascii_chars(bytes: Seq<u8>) -> Seq<char> {
    Seq::new(bytes.len(), |i: int| bytes[i] as char)
}

/// `String::from_utf8_lossy(bytes)`, made an owned string.  Its text is
/// named `utf8_lossy`; bytes that are all ASCII are valid UTF-8 and decode
/// to the characters with their codes.
#[verifier::external_body]
pub(crate) fn from_utf8_lossy(bytes: &[u8]) -> (text: String)
    ensures
        text@ == utf8_lossy(bytes@),
        (forall|i: int| 0 <= i < bytes@.len() ==> bytes@[i] < 128) ==> text@ == ascii_chars(bytes@),
{
    String::from_utf8_lossy(bytes).to_string()
}

/// `String::push`: appends one character.
#[verifier::external_body]
pub(crate) fn push_char(s: &mut String, c: char)
    ensures
        final(s)@ == old(s)@.push(c),
{
    s.push(c);
}

/// The UTF-8 lines of `bytes` for a column `width` wide: the bytes are cut
/// at each newline (byte 10), each piece into chunks of `width` bytes, and
/// each chunk decoded.
pub open spec fn utf8_lines(bytes: Seq<u8>, width: nat) -> Seq<Seq<char>> {
    split_on(bytes, 10).map_values(
        |line: Seq<u8>| chunks_of(line, width).map_values(|c: Seq<u8>| utf8_lossy(c)),
    ).flatten()
}

/// The lowercase hex digit of `d`, below 16.
pub open spec fn hex_digit(d: u8) -> char {
    if d < 10 {
        (d + 48) as char
    } else {
        (d + 87) as char
    }
}

/// A byte as two lowercase hex digits.
pub open spec fn hex_pair(b: u8) -> Seq<char> {
    seq![hex_digit(b / 16), hex_digit(b % 16)]
}

/// The bytes as two-digit lowercase hex numbers separated by single spaces.
pub open spec fn hex_line(c: Seq<u8>) -> Seq<char>
    decreases c.len(),
{
    if c.len() == 0 {
        Seq::empty()
    } else if c.len() == 1 {
        hex_pair(c[0])
    } else {
        hex_line(c.drop_last()) + seq![' '] + hex_pair(c.last())
    }
}

/// The hex lines of `bytes` for a column `width` wide: chunks of
/// `width / 3 - 1` bytes, one line each.
pub open spec fn hex_lines(bytes: Seq<u8>, width: u16) -> Seq<Seq<char>> {
    chunks_of(bytes, (width / 3 - 1) as nat).map_values(|c: Seq<u8>| hex_line(c))
}

/// The views of the strings.
pub open spec fn texts(strings: Seq<String>) -> Seq<Seq<char>> {
    strings.map_values(|s: String| s@)
}

/// The pieces of `bytes` between newlines.
fn split_lines(bytes: &Vec<u8>) -> (lines: Vec<Vec<u8>>)
    ensures
        lines@.len() == split_on(bytes@, 10).len(),
        forall|i: int| 0 <= i < lines@.len() ==> (#[trigger] lines@[i])@ == split_on(bytes@, 10)[i],
{
    split_bytes(bytes, 10)
}

/// The pieces of `bytes` between occurrences of `sep`.
pub fn split_bytes(bytes: &Vec<u8>, sep: u8) -> (lines: Vec<Vec<u8>>)
    ensures
        lines@.len() == split_on(bytes@, sep).len(),
        forall|i: int| 0 <= i < lines@.len() ==> (#[trigger] lines@[i])@ == split_on(bytes@, sep)[i],
{
    let mut lines: Vec<Vec<u8>> = Vec::new();
    let mut current: Vec<u8> = Vec::new();
    for i in 0..bytes.len()
        invariant
            lines@.len() + 1 == split_on(bytes@.take(i as int), sep).len(),
            forall|k: int| 0 <= k < lines@.len() ==> (#[trigger] lines@[k])@ == split_on(bytes@.take(i as int), sep)[k],
            current@ == split_on(bytes@.take(i as int), sep).last(),
    {
        let b = bytes[i];
        proof {
            assert(bytes@.take(i + 1).drop_last() =~= bytes@.take(i as int));
        }
        if b == sep {
            lines.push(current);
            current = Vec::new();
        } else {
            current.push(b);
        }
    }
    proof {
        assert(bytes@.take(bytes@.len() as int) =~= bytes@);
    }
    lines.push(current);
    lines
}

/// The views of the byte vectors.
pub open spec fn byte_views(v: Seq<Vec<u8>>) -> Seq<Seq<u8>> {
    v.map_values(|x: Vec<u8>| x@)
}

/// The consecutive pieces of `w` bytes of `s`.
pub fn chunk(s: &Vec<u8>, w: usize) -> (pieces: Vec<Vec<u8>>)
    requires
        w > 0,
    ensures
        byte_views(pieces@) == chunks_of(s@, w as nat),
{
    let mut pieces: Vec<Vec<u8>> = Vec::new();
    let mut start: usize = 0;
    let len = s.len();
    assert(s@.skip(0) =~= s@);
    assert(byte_views(pieces@) + chunks_of(s@.skip(0), w as nat) =~= chunks_of(s@, w as nat));
    while start < len
        invariant
            w > 0,
            len == s@.len(),
            start <= len,
            byte_views(pieces@) + chunks_of(s@.skip(start as int), w as nat) == chunks_of(s@, w as nat),
        decreases len - start,
    {
        let end = if len - start <= w { len } else { start + w };
        let mut piece: Vec<u8> = Vec::new();
        let mut j = start;
        while j < end
            invariant
                start <= j <= end <= len,
                len == s@.len(),
                piece@ == s@.subrange(start as int, j as int),
            decreases end - j,
        {
            piece.push(s[j]);
            j = j + 1;
            assert(piece@ =~= s@.subrange(start as int, j as int));
        }
        let ghost old_views = byte_views(pieces@);
        proof {
            let rest = s@.skip(start as int);
            assert(rest.len() > 0);
            if rest.len() <= w {
                assert(piece@ =~= rest);
                assert(s@.skip(end as int).len() == 0);
                assert(chunks_of(rest, w as nat) == seq![rest]);
            } else {
                assert(piece@ =~= rest.take(w as int));
                assert(rest.skip(w as int) =~= s@.skip(end as int));
            }
        }
        pieces.push(piece);
        proof {
            assert(byte_views(pieces@) =~= old_views.push(piece@));
            assert(byte_views(pieces@) + chunks_of(s@.skip(end as int), w as nat) =~= old_views + chunks_of(
                s@.skip(start as int),
                w as nat,
            ));
        }
        start = end;
    }
    proof {
        assert(s@.skip(len as int).len() == 0);
        assert(byte_views(pieces@) + chunks_of(s@.skip(len as int), w as nat) =~= byte_views(pieces@));
    }
    pieces
}

/// The UTF-8 rendering of a message for a column `width` wide: one string
/// per chunk of `width` bytes of each newline-separated piece.
pub fn utf8_formatter(bytes: &Vec<u8>, width: u16) -> (lines: Vec<String>)
    requires
        width > 0,
    ensures
        texts(lines@) == utf8_lines(bytes@, width as nat),
        all_ascii(bytes@) ==> texts(lines@) == ascii_lines(bytes@, width as nat),
{
    let pieces = split_lines(bytes);
    let ghost parts = split_on(bytes@, 10);
    let ghost per_line = parts.map_values(
        |line: Seq<u8>| chunks_of(line, width as nat).map_values(|c: Seq<u8>| utf8_lossy(c)),
    );
    let ghost per_line_ascii = parts.map_values(
        |line: Seq<u8>| chunks_of(line, width as nat).map_values(|c: Seq<u8>| ascii_chars(c)),
    );
    proof {
        if all_ascii(bytes@) {
            lemma_split_ascii(bytes@, 10);
        }
    }
    let mut out: Vec<String> = Vec::new();
    for i in 0..pieces.len()
        invariant
            pieces@.len() == parts.len(),
            forall|k: int| 0 <= k < pieces@.len() ==> (#[trigger] pieces@[k])@ == parts[k],
            width > 0,
            parts == split_on(bytes@, 10),
            all_ascii(bytes@) ==> forall|k: int| 0 <= k < parts.len() ==> all_ascii(#[trigger] parts[k]),
            per_line == parts.map_values(
                |line: Seq<u8>| chunks_of(line, width as nat).map_values(|c: Seq<u8>| utf8_lossy(c)),
            ),
            per_line_ascii == parts.map_values(
                |line: Seq<u8>| chunks_of(line, width as nat).map_values(|c: Seq<u8>| ascii_chars(c)),
            ),
            texts(out@) == per_line.take(i as int).flatten_alt(),
            all_ascii(bytes@) ==> texts(out@) == per_line_ascii.take(i as int).flatten_alt(),
    {
        let cs = chunk(&pieces[i], width as usize);
        let ghost before = out@;
        proof {
            assert(cs@.len() == byte_views(cs@).len());
            if all_ascii(bytes@) {
                assert(all_ascii(parts[i as int]));
                lemma_chunks_ascii(parts[i as int], width as nat);
            }
        }
        for j in 0..cs.len()
            invariant
                byte_views(cs@) == chunks_of(parts[i as int], width as nat),
                texts(out@) == texts(before) + per_line[i as int].take(j as int),
                all_ascii(bytes@) ==> texts(out@) == texts(before) + per_line_ascii[i as int].take(j as int),
                all_ascii(bytes@) ==> forall|k: int|
                    0 <= k < chunks_of(parts[i as int], width as nat).len() ==> all_ascii(
                        #[trigger] chunks_of(parts[i as int], width as nat)[k],
                    ),
                i < parts.len(),
                per_line == parts.map_values(
                    |line: Seq<u8>| chunks_of(line, width as nat).map_values(|c: Seq<u8>| utf8_lossy(c)),
                ),
                per_line_ascii == parts.map_values(
                    |line: Seq<u8>| chunks_of(line, width as nat).map_values(|c: Seq<u8>| ascii_chars(c)),
                ),
        {
            proof {
                assert(byte_views(cs@)[j as int] == cs@[j as int]@);
                if all_ascii(bytes@) {
                    assert(all_ascii(chunks_of(parts[i as int], width as nat)[j as int]));
                }
            }
            let text = from_utf8_lossy(cs[j].as_slice());
            let ghost prev = out@;
            out.push(text);
            proof {
                assert(per_line[i as int] == chunks_of(parts[i as int], width as nat).map_values(
                    |c: Seq<u8>| utf8_lossy(c),
                ));
                assert(per_line[i as int][j as int] == utf8_lossy(chunks_of(parts[i as int], width as nat)[j as int]));
                assert(texts(out@) =~= texts(prev).push(text@));
                assert(texts(out@) =~= texts(before) + per_line[i as int].take(j + 1));
                if all_ascii(bytes@) {
                    assert(per_line_ascii[i as int] == chunks_of(parts[i as int], width as nat).map_values(
                        |c: Seq<u8>| ascii_chars(c),
                    ));
                    assert(per_line_ascii[i as int][j as int] == ascii_chars(
                        chunks_of(parts[i as int], width as nat)[j as int],
                    ));
                    assert(texts(out@) =~= texts(before) + per_line_ascii[i as int].take(j + 1));
                }
            }
        }
        proof {
            assert(per_line[i as int].take(cs@.len() as int) =~= per_line[i as int]);
            assert(per_line.take(i + 1).drop_last() =~= per_line.take(i as int));
            assert(per_line_ascii[i as int].take(cs@.len() as int) =~= per_line_ascii[i as int]);
            assert(per_line_ascii.take(i + 1).drop_last() =~= per_line_ascii.take(i as int));
        }
    }
    proof {
        assert(per_line.take(pieces@.len() as int) =~= per_line);
        per_line.lemma_flatten_and_flatten_alt_are_equivalent();
        assert(per_line_ascii.take(pieces@.len() as int) =~= per_line_ascii);
        per_line_ascii.lemma_flatten_and_flatten_alt_are_equivalent();
    }
    out
}

/// Every byte is below 128.
pub open spec fn all_ascii(bytes: Seq<u8>) -> bool {
    forall|i: int| 0 <= i < bytes.len() ==> bytes[i] < 128
}

/// The UTF-8 lines of ASCII bytes: each chunk read as the characters with
/// the bytes' codes.
pub open spec fn ascii_lines(bytes: Seq<u8>, width: nat) -> Seq<Seq<char>> {
    split_on(bytes, 10).map_values(
        |line: Seq<u8>| chunks_of(line, width).map_values(|c: Seq<u8>| ascii_chars(c)),
    ).flatten()
}

/// The pieces of a split hold only bytes of the whole.
proof fn lemma_split_ascii(bytes: Seq<u8>, sep: u8)
    requires
        all_ascii(bytes),
    ensures
        forall|i: int| 0 <= i < split_on(bytes, sep).len() ==> all_ascii(#[trigger] split_on(bytes, sep)[i]),
    decreases bytes.len(),
{
    if bytes.len() > 0 {
        lemma_split_ascii(bytes.drop_last(), sep);
        lemma_split_nonempty(bytes.drop_last(), sep);
        let prev = split_on(bytes.drop_last(), sep);
        let cur = split_on(bytes, sep);
        assert forall|i: int| 0 <= i < cur.len() implies all_ascii(#[trigger] cur[i]) by {
            if i < prev.len() {
                assert(all_ascii(prev[i]));
            }
        }
    }
}

/// The chunks of ASCII bytes are ASCII.
proof fn lemma_chunks_ascii(s: Seq<u8>, w: nat)
    requires
        all_ascii(s),
        w > 0,
    ensures
        forall|j: int| 0 <= j < chunks_of(s, w).len() ==> all_ascii(#[trigger] chunks_of(s, w)[j]),
    decreases s.len(),
{
    if s.len() > w {
        lemma_chunks_ascii(s.skip(w as int), w);
        let c = chunks_of(s, w);
        assert forall|j: int| 0 <= j < c.len() implies all_ascii(#[trigger] c[j]) by {
            if j > 0 {
                assert(c[j] == chunks_of(s.skip(w as int), w)[j - 1]);
            }
        }
    }
}

/// The pieces of a split, joined with nothing between them, are the bytes
/// without the separators.
proof fn lemma_split_flatten(bytes: Seq<u8>, sep: u8)
    ensures
        split_on(bytes, sep).flatten_alt() == bytes.filter(|b: u8| b != sep),
    decreases bytes.len(),
{
    reveal(Seq::filter);
    if bytes.len() == 0 {
        let one = split_on(bytes, sep);
        assert(one.drop_last().len() == 0);
        assert(one.drop_last().flatten_alt() == Seq::<u8>::empty());
        assert(one.flatten_alt() =~= Seq::<u8>::empty());
        assert(bytes.filter(|b: u8| b != sep) =~= Seq::<u8>::empty());
    } else {
        let prev = split_on(bytes.drop_last(), sep);
        lemma_split_flatten(bytes.drop_last(), sep);
        lemma_split_nonempty(bytes.drop_last(), sep);
        let cur = split_on(bytes, sep);
        if bytes.last() == sep {
            assert(cur.drop_last() =~= prev);
            assert(cur.flatten_alt() =~= prev.flatten_alt());
            assert(bytes.filter(|b: u8| b != sep) == bytes.drop_last().filter(|b: u8| b != sep));
        } else {
            assert(cur.drop_last() =~= prev.drop_last());
            assert(prev.flatten_alt() == prev.drop_last().flatten_alt() + prev.last());
            assert(cur.flatten_alt() =~= prev.flatten_alt().push(bytes.last()));
            assert(bytes.filter(|b: u8| b != sep) == bytes.drop_last().filter(|b: u8| b != sep).push(
                bytes.last(),
            ));
        }
    }
}

/// Flattening twice flattens each inner sequence first.
proof fn lemma_flatten_twice<A>(z: Seq<Seq<Seq<A>>>)
    ensures
        z.flatten_alt().flatten_alt() == z.map_values(|y: Seq<Seq<A>>| y.flatten_alt()).flatten_alt(),
    decreases z.len(),
{
    if z.len() > 0 {
        lemma_flatten_twice(z.drop_last());
        vstd::seq_lib::lemma_flatten_alt_concat(z.drop_last().flatten_alt(), z.last());
        let m = z.map_values(|y: Seq<Seq<A>>| y.flatten_alt());
        assert(m.drop_last() =~= z.drop_last().map_values(|y: Seq<Seq<A>>| y.flatten_alt()));
    } else {
        assert(z.flatten_alt().flatten_alt() =~= Seq::<A>::empty());
    }
}

/// Reading ASCII pieces one by one and joining the texts is reading the
/// joined bytes.
proof fn lemma_ascii_flatten(y: Seq<Seq<u8>>)
    ensures
        y.map_values(|c: Seq<u8>| ascii_chars(c)).flatten_alt() == ascii_chars(y.flatten_alt()),
    decreases y.len(),
{
    if y.len() > 0 {
        lemma_ascii_flatten(y.drop_last());
        let m = y.map_values(|c: Seq<u8>| ascii_chars(c));
        assert(m.drop_last() =~= y.drop_last().map_values(|c: Seq<u8>| ascii_chars(c)));
        assert(ascii_chars(y.drop_last().flatten_alt() + y.last()) =~= ascii_chars(y.drop_last().flatten_alt())
            + ascii_chars(y.last()));
    } else {
        assert(ascii_chars(y.flatten_alt()) =~= Seq::<char>::empty());
    }
}

/// The UTF-8 lines of an ASCII message, joined, are its characters with
/// the newlines left out.
pub proof fn lemma_ascii_lines_rejoin(bytes: Seq<u8>, width: nat)
    requires
        width > 0,
    ensures
        ascii_lines(bytes, width).flatten_alt() == ascii_chars(bytes.filter(|b: u8| b != 10)),
{
    let parts = split_on(bytes, 10);
    let z = parts.map_values(
        |line: Seq<u8>| chunks_of(line, width).map_values(|c: Seq<u8>| ascii_chars(c)),
    );
    z.lemma_flatten_and_flatten_alt_are_equivalent();
    lemma_flatten_twice(z);
    let m = z.map_values(|y: Seq<Seq<char>>| y.flatten_alt());
    assert forall|i: int| 0 <= i < parts.len() implies #[trigger] m[i] == ascii_chars(parts[i]) by {
        lemma_ascii_flatten(chunks_of(parts[i], width));
        lemma_chunks_concat(parts[i], width);
    }
    assert(m =~= parts.map_values(|c: Seq<u8>| ascii_chars(c)));
    lemma_ascii_flatten(parts);
    lemma_split_flatten(bytes, 10);
}

/// The lowercase hex digit of `d`.
pub(crate) fn hex_digit_char(d: u8) -> (c: char)
    requires
        d < 16,
    ensures
        c == hex_digit(d),
{
    if d < 10 {
        (d + 48) as char
    } else {
        (d + 87) as char
    }
}

/// One hex line: two lowercase digits per byte, single spaces between.
fn hex_text(c: &Vec<u8>) -> (text: String)
    ensures
        text@ == hex_line(c@),
{
    let mut text = String::new();
    for i in 0..c.len()
        invariant
            text@ == hex_line(c@.take(i as int)),
    {
        proof {
            assert(c@.take(i + 1).drop_last() =~= c@.take(i as int));
        }
        let b = c[i];
        if i > 0 {
            push_char(&mut text, ' ');
        }
        push_char(&mut text, hex_digit_char(b / 16));
        push_char(&mut text, hex_digit_char(b % 16));
        proof {
            if i == 0 {
                assert(text@ =~= hex_line(c@.take(1)));
            } else {
                assert(text@ =~= hex_line(c@.take(i + 1)));
            }
        }
    }
    proof {
        assert(c@.take(c@.len() as int) =~= c@);
    }
    text
}

/// The hex rendering of a message for a column `width` wide: chunks of
/// `width / 3 - 1` bytes, each as two-digit lowercase hex numbers separated
/// by spaces.
pub fn hex_formatter(bytes: &Vec<u8>, width: u16) -> (lines: Vec<String>)
    requires
        width >= 6,
    ensures
        texts(lines@) == hex_lines(bytes@, width),
{
    let w: u16 = width / 3 - 1;
    let cs = chunk(bytes, w as usize);
    let mut out: Vec<String> = Vec::new();
    assert(cs@.len() == byte_views(cs@).len());
    for i in 0..cs.len()
        invariant
            w == width / 3 - 1,
            byte_views(cs@) == chunks_of(bytes@, w as nat),
            texts(out@) == hex_lines(bytes@, width).take(i as int),
    {
        let text = hex_text(&cs[i]);
        let ghost prev = out@;
        out.push(text);
        proof {
            assert(byte_views(cs@)[i as int] == cs@[i as int]@);
            assert(texts(out@) =~= texts(prev).push(text@));
            assert(texts(out@) =~= hex_lines(bytes@, width).take(i + 1));
        }
    }
    assert(hex_lines(bytes@, width).take(cs@.len() as int) =~= hex_lines(bytes@, width));
    out
}

/// Chunks join back to the bytes they were cut from, and each is non-empty
/// and at most `w` long.
pub proof fn lemma_chunks_concat(s: Seq<u8>, w: nat)
    requires
        w > 0,
    ensures
        chunks_of(s, w).flatten_alt() == s,
        forall|i: int| 0 <= i < chunks_of(s, w).len() ==> 0 < (#[trigger] chunks_of(s, w)[i]).len() <= w,
    decreases s.len(),
{
    if s.len() == 0 {
    } else if s.len() <= w {
        let c = chunks_of(s, w);
        assert(c.drop_last().len() == 0);
        assert(c.drop_last().flatten_alt() == Seq::<u8>::empty());
        assert(c.flatten_alt() =~= s);
    } else {
        let rest = chunks_of(s.skip(w as int), w);
        lemma_chunks_concat(s.skip(w as int), w);
        vstd::seq_lib::lemma_flatten_alt_concat(seq![s.take(w as int)], rest);
        let one = seq![s.take(w as int)];
        assert(one.drop_last().len() == 0);
        assert(one.drop_last().flatten_alt() == Seq::<u8>::empty());
        assert(one.flatten_alt() =~= s.take(w as int));
        assert(s.take(w as int) + s.skip(w as int) =~= s);
        let c = chunks_of(s, w);
        assert forall|i: int| 0 <= i < c.len() implies 0 < (#[trigger] c[i]).len() <= w by {
            if i > 0 {
                assert(c[i] == rest[i - 1]);
            }
        }
    }
}

/// The number of pieces that `chunks_of` cuts: the length divided by `w`,
/// rounded up.
pub proof fn lemma_chunk_count(s: Seq<u8>, w: nat)
    requires
        w > 0,
    ensures
        chunks_of(s, w).len() == (s.len() + w - 1) / (w as int),
    decreases s.len(),
{
    let n = s.len() as int;
    let d = w as int;
    if n == 0 {
        vstd::arithmetic::div_mod::lemma_basic_div(d - 1, d);
    } else if n <= d {
        vstd::arithmetic::div_mod::lemma_basic_div(n - 1, d);
        vstd::arithmetic::div_mod::lemma_div_plus_one(n - 1, d);
        assert(d + (n - 1) == n + d - 1);
    } else {
        lemma_chunk_count(s.skip(d), w);
        assert(s.skip(d).len() + d - 1 == n - 1);
        vstd::arithmetic::div_mod::lemma_div_plus_one(n - 1, d);
        assert(d + (n - 1) == n + d - 1);
    }
}

/// The hex rendering has one line per `width / 3 - 1` bytes, the last
/// possibly shorter, and no line for an empty message.
pub proof fn lemma_hex_line_count(bytes: Seq<u8>, width: u16)
    requires
        width >= 6,
    ensures
        hex_lines(bytes, width).len() == (bytes.len() + (width / 3 - 1) - 1) / ((width / 3 - 1) as int),
{
    lemma_chunk_count(bytes, (width / 3 - 1) as nat);
}

/// The bytes that a hex line shows: the pair of digits at each third
/// character read back as a number.
pub open spec fn hex_line_bytes(line: Seq<char>) -> Seq<u8> {
    Seq::new(
        ((line.len() + 1) / 3) as nat,
        |k: int| (crate::plc::hex_value(line[3 * k]) * 16 + crate::plc::hex_value(line[3 * k + 1])) as u8,
    )
}

/// Where the digits of each byte stand in a hex line, and the spaces
/// between them.
proof fn lemma_hex_line_at(c: Seq<u8>)
    requires
        c.len() > 0,
    ensures
        forall|k: int|
            0 <= k < c.len() ==> #[trigger] hex_line(c)[3 * k] == hex_digit(c[k] / 16) && hex_line(c)[3 * k + 1]
                == hex_digit(c[k] % 16),
        forall|k: int| 0 <= k < c.len() - 1 ==> #[trigger] hex_line(c)[3 * k + 2] == ' ',
    decreases c.len(),
{
    lemma_hex_line_len(c);
    if c.len() > 1 {
        let p = c.drop_last();
        lemma_hex_line_at(p);
        lemma_hex_line_len(p);
        let h = hex_line(c);
        assert(h == hex_line(p) + seq![' '] + hex_pair(c.last()));
        assert forall|k: int| 0 <= k < c.len() implies #[trigger] h[3 * k] == hex_digit(c[k] / 16) && h[3 * k
            + 1] == hex_digit(c[k] % 16) by {
            let q = hex_line(p);
            if k < c.len() - 1 {
                assert(c[k] == p[k]);
                assert(3 * k + 1 < q.len());
                assert(h[3 * k] == q[3 * k]);
                assert(h[3 * k + 1] == q[3 * k + 1]);
            } else {
                assert(3 * k == q.len() + 1);
                assert(h[3 * k] == hex_pair(c.last())[0]);
                assert(h[3 * k + 1] == hex_pair(c.last())[1]);
            }
        }
        assert forall|k: int| 0 <= k < c.len() - 1 implies #[trigger] h[3 * k + 2] == ' ' by {
            let q = hex_line(p);
            if k < c.len() - 2 {
                assert(h[3 * k + 2] == q[3 * k + 2]);
            } else {
                assert(3 * k + 2 == q.len());
            }
        }
    }
}

/// A hex line reads back as the bytes it was made of.
pub proof fn lemma_hex_line_reads_back(c: Seq<u8>)
    ensures
        hex_line_bytes(hex_line(c)) == c,
{
    if c.len() > 0 {
        lemma_hex_line_len(c);
        lemma_hex_line_at(c);
        let h = hex_line(c);
        assert((h.len() + 1) / 3 == c.len());
        assert forall|k: int| 0 <= k < c.len() implies #[trigger] hex_line_bytes(h)[k] == c[k] by {
            assert(h[3 * k] == hex_digit(c[k] / 16));
            assert(h[3 * k + 1] == hex_digit(c[k] % 16));
            crate::plc::lemma_digit_value(c[k] / 16);
            crate::plc::lemma_digit_value(c[k] % 16);
        }
        assert(hex_line_bytes(h) =~= c);
    } else {
        assert(hex_line_bytes(hex_line(c)) =~= c);
    }
}

/// The hex lines of a message, each read back, give the message again.
pub proof fn lemma_hex_lines_read_back(bytes: Seq<u8>, width: u16)
    requires
        width >= 6,
    ensures
        hex_lines(bytes, width).map_values(|l: Seq<char>| hex_line_bytes(l)).flatten_alt() == bytes,
{
    let w = (width / 3 - 1) as nat;
    let cs = chunks_of(bytes, w);
    lemma_chunks_concat(bytes, w);
    let back = hex_lines(bytes, width).map_values(|l: Seq<char>| hex_line_bytes(l));
    assert forall|i: int| 0 <= i < cs.len() implies #[trigger] back[i] == cs[i] by {
        lemma_hex_line_reads_back(cs[i]);
    }
    assert(back =~= cs);
}

/// Every hex line of `k` bytes is `3 * k - 1` characters long: two digits
/// per byte and a space between neighbours.
pub proof fn lemma_hex_line_len(c: Seq<u8>)
    requires
        c.len() > 0,
    ensures
        hex_line(c).len() == 3 * c.len() - 1,
    decreases c.len(),
{
    if c.len() > 1 {
        lemma_hex_line_len(c.drop_last());
    }
}

/// No piece of a split holds the separator, and the pieces joined with it
/// give the bytes back.
pub proof fn lemma_split_rejoins(bytes: Seq<u8>, sep: u8)
    ensures
        joined(split_on(bytes, sep), sep) == bytes,
        forall|i: int, j: int|
            0 <= i < split_on(bytes, sep).len() && 0 <= j < split_on(bytes, sep)[i].len() ==> #[trigger] split_on(
                bytes,
                sep,
            )[i][j] != sep,
    decreases bytes.len(),
{
    if bytes.len() > 0 {
        let prev = split_on(bytes.drop_last(), sep);
        lemma_split_rejoins(bytes.drop_last(), sep);
        lemma_split_nonempty(bytes.drop_last(), sep);
        let cur = split_on(bytes, sep);
        if bytes.last() == sep {
            assert(cur.drop_last() =~= prev);
            assert(cur.len() > 1);
            assert(cur.last() == Seq::<u8>::empty());
            assert(joined(cur, sep) == joined(prev, sep).push(sep) + Seq::<u8>::empty());
            assert(bytes.drop_last().push(sep) =~= bytes);
            assert(joined(cur, sep) =~= bytes);
        } else {
            let up = prev.last().push(bytes.last());
            assert(cur.drop_last() =~= prev.drop_last());
            lemma_joined_last(prev, sep);
            lemma_joined_last(cur, sep);
            assert(cur.last() == up);
            assert(joined(cur, sep) =~= joined(prev, sep).push(bytes.last()));
            assert(bytes.drop_last().push(bytes.last()) =~= bytes);
            assert(joined(cur, sep) =~= bytes);
            assert forall|i: int, j: int| 0 <= i < cur.len() && 0 <= j < cur[i].len() implies #[trigger] cur[i][j] != sep by {
                if i == cur.len() - 1 && j < prev.last().len() {
                    assert(cur[i][j] == prev[i][j]);
                }
            }
        }
    }
}

/// Bytes without the separator are a single piece.
pub(crate) proof fn lemma_split_whole(a: Seq<u8>, sep: u8)
    requires
        forall|i: int| 0 <= i < a.len() ==> a[i] != sep,
    ensures
        split_on(a, sep) == seq![a],
    decreases a.len(),
{
    if a.len() > 0 {
        lemma_split_whole(a.drop_last(), sep);
        assert(a.drop_last().push(a.last()) =~= a);
        assert(split_on(a, sep) =~= seq![a]);
    } else {
        assert(a =~= Seq::<u8>::empty());
    }
}

/// The first piece is everything before the first separator.
pub(crate) proof fn lemma_split_first(a: Seq<u8>, sep: u8, rest: Seq<u8>)
    requires
        forall|i: int| 0 <= i < a.len() ==> a[i] != sep,
    ensures
        split_on(a + seq![sep] + rest, sep).len() >= 2,
        split_on(a + seq![sep] + rest, sep)[0] == a,
    decreases rest.len(),
{
    if rest.len() == 0 {
        lemma_split_whole(a, sep);
        let s = a + seq![sep] + rest;
        assert(s.drop_last() =~= a);
        assert(s.last() == sep);
    } else {
        lemma_split_first(a, sep, rest.drop_last());
        let s = a + seq![sep] + rest;
        assert(s.drop_last() =~= a + seq![sep] + rest.drop_last());
        assert(s.last() == rest.last());
    }
}

/// The last piece is everything after the last separator.
pub(crate) proof fn lemma_split_last(front: Seq<u8>, sep: u8, b: Seq<u8>)
    requires
        forall|i: int| 0 <= i < b.len() ==> b[i] != sep,
    ensures
        split_on(front + seq![sep] + b, sep).last() == b,
    decreases b.len(),
{
    let s = front + seq![sep] + b;
    if b.len() == 0 {
        assert(s.drop_last() =~= front);
        assert(s.last() == sep);
    } else {
        lemma_split_last(front, sep, b.drop_last());
        lemma_split_nonempty(s.drop_last(), sep);
        assert(s.drop_last() =~= front + seq![sep] + b.drop_last());
        assert(s.last() == b.last());
        assert(b.drop_last().push(b.last()) =~= b);
    }
}

/// A split always has at least one piece.
pub(crate) proof fn lemma_split_nonempty(bytes: Seq<u8>, sep: u8)
    ensures
        split_on(bytes, sep).len() >= 1,
    decreases bytes.len(),
{
    if bytes.len() > 0 {
        lemma_split_nonempty(bytes.drop_last(), sep);
    }
}

/// The pieces joined with the separator between neighbours.
pub open spec fn joined(pieces: Seq<Seq<u8>>, sep: u8) -> Seq<u8>
    decreases pieces.len(),
{
    if pieces.len() == 0 {
        Seq::empty()
    } else if pieces.len() == 1 {
        pieces[0]
    } else {
        joined(pieces.drop_last(), sep).push(sep) + pieces.last()
    }
}

/// Joining splits off the last piece.
proof fn lemma_joined_last(pieces: Seq<Seq<u8>>, sep: u8)
    requires
        pieces.len() >= 1,
    ensures
        joined(pieces, sep) == (if pieces.len() == 1 {
            Seq::<u8>::empty()
        } else {
            joined(pieces.drop_last(), sep).push(sep)
        }) + pieces.last(),
{
    if pieces.len() == 1 {
        assert(Seq::<u8>::empty() + pieces.last() =~= pieces[0]);
    }
}

} // verus!
