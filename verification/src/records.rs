//! The capture log format: a sequence of (tag, byte) pairs, where the tag
//! says which side of the connection sent the byte.  Runs of bytes with the
//! same tag make up a message.

use itertools::Itertools;
use vstd::prelude::*;

verus! {

/// The consecutive pairs of `bytes`; an odd byte at the end is left out.
pub open spec fn pairs_of(bytes: Seq<u8>) -> Seq<(u8, u8)> {
    Seq::new(bytes.len() / 2, |i: int| (bytes[2 * i], bytes[2 * i + 1]))
}

/// `Itertools::tuples` on the bytes, collected: consecutive pairs, in order,
/// with a last odd byte dropped.
#[verifier::external_body]
fn byte_pairs(bytes: Vec<u8>) -> (pairs: Vec<(u8, u8)>)
    ensures
        pairs@ == pairs_of(bytes@),
{
    bytes.into_iter().tuples::<(u8, u8)>().collect()
}

/// The messages of a log: each pair's byte joins the last message when its
/// tag, as `key` keeps it, equals that message's tag, and starts a new
/// message otherwise.
pub open spec fn group_pairs(pairs: Seq<(u8, u8)>, parity: bool) -> Seq<(Seq<u8>, u8)>
    decreases pairs.len(),
{
    if pairs.len() == 0 {
        Seq::empty()
    } else {
        let prev = group_pairs(pairs.drop_last(), parity);
        let tag = key(pairs.last().0, parity);
        let byte = pairs.last().1;
        if prev.len() > 0 && prev.last().1 == tag {
            prev.update(prev.len() - 1, (prev.last().0.push(byte), tag))
        } else {
            prev.push((seq![byte], tag))
        }
    }
}

/// The tag that groups bytes: the tag itself, or only its parity.
pub open spec fn key(tag: u8, parity: bool) -> u8 {
    if parity {
        tag % 2
    } else {
        tag
    }
}

/// The messages, as byte sequences with their tags.
pub open spec fn record_views(records: Seq<(Vec<u8>, u8)>) -> Seq<(Seq<u8>, u8)> {
    records.map_values(|r: (Vec<u8>, u8)| (r.0@, r.1))
}

/// Groups the bytes of a log into messages.
fn group(pairs: &Vec<(u8, u8)>, parity: bool) -> (records: Vec<(Vec<u8>, u8)>)
    ensures
        record_views(records@) == group_pairs(pairs@, parity),
{
    let mut out: Vec<(Vec<u8>, u8)> = Vec::new();
    for i in 0..pairs.len()
        invariant
            record_views(out@) == group_pairs(pairs@.take(i as int), parity),
    {
        let (tag, byte) = pairs[i];
        let t: u8 = if parity { tag % 2 } else { tag };
        let ghost prev = record_views(out@);
        proof {
            assert(pairs@.take(i + 1).drop_last() =~= pairs@.take(i as int));
        }
        let n = out.len();
        if n > 0 && out[n - 1].1 == t {
            let mut last = out.pop().unwrap();
            last.0.push(byte);
            out.push(last);
            proof {
                assert(record_views(out@) =~= prev.update(prev.len() - 1, (prev.last().0.push(byte), t)));
            }
        } else {
            let mut fresh: Vec<u8> = Vec::new();
            fresh.push(byte);
            out.push((fresh, t));
            proof {
                assert(record_views(out@) =~= prev.push((seq![byte], t)));
            }
        }
    }
    proof {
        assert(pairs@.take(pairs@.len() as int) =~= pairs@);
    }
    out
}

/// The messages of a raw log, grouped by tag.
pub fn group_by_tag(bytes: Vec<u8>) -> (records: Vec<(Vec<u8>, u8)>)
    ensures
        record_views(records@) == group_pairs(pairs_of(bytes@), false),
{
    let pairs = byte_pairs(bytes);
    group(&pairs, false)
}

/// The messages of a raw log, grouped by direction: tag 0 for bytes whose
/// tag is even, tag 1 for odd ones.
pub fn group_by_direction(bytes: Vec<u8>) -> (records: Vec<(Vec<u8>, u8)>)
    ensures
        record_views(records@) == group_pairs(pairs_of(bytes@), true),
{
    let pairs = byte_pairs(bytes);
    group(&pairs, true)
}

/// The bytes of all messages, one after the other.
pub open spec fn record_bytes(records: Seq<(Seq<u8>, u8)>) -> Seq<u8>
    decreases records.len(),
{
    if records.len() == 0 {
        Seq::empty()
    } else {
        record_bytes(records.drop_last()) + records.last().0
    }
}

/// The data bytes of the pairs, in order.
pub open spec fn data_bytes(pairs: Seq<(u8, u8)>) -> Seq<u8> {
    Seq::new(pairs.len(), |i: int| pairs[i].1)
}

/// Grouping loses, adds and reorders no byte; no message is empty; and
/// neighbouring messages have different tags.
pub proof fn lemma_grouping_keeps_bytes(pairs: Seq<(u8, u8)>, parity: bool)
    ensures
        record_bytes(group_pairs(pairs, parity)) == data_bytes(pairs),
        forall|i: int|
            0 <= i < group_pairs(pairs, parity).len() ==> (#[trigger] group_pairs(pairs, parity)[i]).0.len() > 0,
        forall|i: int|
            0 <= i < group_pairs(pairs, parity).len() - 1 ==> (#[trigger] group_pairs(pairs, parity)[i]).1
                != group_pairs(pairs, parity)[i + 1].1,
    decreases pairs.len(),
{
    if pairs.len() > 0 {
        let prev = group_pairs(pairs.drop_last(), parity);
        lemma_grouping_keeps_bytes(pairs.drop_last(), parity);
        let g = group_pairs(pairs, parity);
        let tag = key(pairs.last().0, parity);
        let byte = pairs.last().1;
        assert(data_bytes(pairs) =~= data_bytes(pairs.drop_last()).push(byte));
        if prev.len() > 0 && prev.last().1 == tag {
            assert(g.drop_last() =~= prev.drop_last());
            assert(record_bytes(prev) == record_bytes(prev.drop_last()) + prev.last().0);
            assert(record_bytes(g) =~= record_bytes(prev).push(byte));
        } else {
            assert(g.drop_last() =~= prev);
        }
    }
}

/// The messages spelled out again as pairs: each byte of each message,
/// in order, with the message's tag.
pub open spec fn tagged_bytes(records: Seq<(Seq<u8>, u8)>) -> Seq<(u8, u8)>
    decreases records.len(),
{
    if records.len() == 0 {
        Seq::empty()
    } else {
        let last = records.last();
        tagged_bytes(records.drop_last()) + Seq::new(last.0.len(), |j: int| (last.1, last.0[j]))
    }
}

/// The pairs with each tag cut down to its parity.
pub open spec fn direction_pairs(pairs: Seq<(u8, u8)>) -> Seq<(u8, u8)> {
    Seq::new(pairs.len(), |i: int| (pairs[i].0 % 2, pairs[i].1))
}

/// Every byte keeps its own tag: spelling the messages of a log grouped by
/// tag out as pairs gives the log's pairs back exactly; grouped by
/// direction, it gives them back with each tag replaced by its parity.
/// With the messages non-empty and neighbours differently tagged
/// (`lemma_grouping_keeps_bytes`), a new message starts exactly where the
/// tag changes.
pub proof fn lemma_grouping_keeps_tags(pairs: Seq<(u8, u8)>)
    ensures
        tagged_bytes(group_pairs(pairs, false)) == pairs,
        tagged_bytes(group_pairs(pairs, true)) == direction_pairs(pairs),
{
    lemma_group_tagged(pairs, false);
    lemma_group_tagged(pairs, true);
    assert(Seq::new(pairs.len(), |i: int| (key(pairs[i].0, false), pairs[i].1)) =~= pairs);
    assert(Seq::new(pairs.len(), |i: int| (key(pairs[i].0, true), pairs[i].1)) =~= direction_pairs(pairs));
}

/// Grouping spells out as the pairs with their grouping keys.
proof fn lemma_group_tagged(pairs: Seq<(u8, u8)>, parity: bool)
    ensures
        tagged_bytes(group_pairs(pairs, parity)) == Seq::new(
            pairs.len(),
            |i: int| (key(pairs[i].0, parity), pairs[i].1),
        ),
    decreases pairs.len(),
{
    let want = Seq::new(pairs.len(), |i: int| (key(pairs[i].0, parity), pairs[i].1));
    if pairs.len() == 0 {
        assert(tagged_bytes(group_pairs(pairs, parity)) =~= want);
    } else {
        let prev = group_pairs(pairs.drop_last(), parity);
        lemma_group_tagged(pairs.drop_last(), parity);
        let g = group_pairs(pairs, parity);
        let tag = key(pairs.last().0, parity);
        let byte = pairs.last().1;
        let pw = Seq::new(pairs.drop_last().len(), |i: int| (key(pairs.drop_last()[i].0, parity), pairs.drop_last()[i].1));
        assert(want =~= pw.push((tag, byte)));
        if prev.len() > 0 && prev.last().1 == tag {
            let l = prev.last();
            assert(g.drop_last() =~= prev.drop_last());
            assert(g.last() == (l.0.push(byte), tag));
            assert(tagged_bytes(prev) == tagged_bytes(prev.drop_last()) + Seq::new(l.0.len(), |j: int| (l.1, l.0[j])));
            assert(Seq::new(l.0.push(byte).len(), |j: int| (tag, l.0.push(byte)[j])) =~= Seq::new(
                l.0.len(),
                |j: int| (l.1, l.0[j]),
            ).push((tag, byte)));
            assert(tagged_bytes(g) =~= tagged_bytes(prev).push((tag, byte)));
        } else {
            assert(g.drop_last() =~= prev);
            assert(Seq::new(seq![byte].len(), |j: int| (tag, seq![byte][j])) =~= seq![(tag, byte)]);
            assert(tagged_bytes(g) =~= tagged_bytes(prev).push((tag, byte)));
        }
    }
}

/// The messages cut into pieces of at most `limit` bytes, each piece keeping
/// its message's tag.
pub open spec fn split_views(records: Seq<(Seq<u8>, u8)>, limit: nat) -> Seq<(Seq<u8>, u8)>
    decreases records.len(),
{
    if records.len() == 0 {
        Seq::empty()
    } else {
        let last = records.last();
        split_views(records.drop_last(), limit) + crate::formatters::chunks_of(last.0, limit).map_values(
            |c: Seq<u8>| (c, last.1),
        )
    }
}

/// Cuts every message into pieces of at most `limit` bytes.
pub fn split_records(records: &Vec<(Vec<u8>, u8)>, limit: usize) -> (pieces: Vec<(Vec<u8>, u8)>)
    requires
        limit > 0,
    ensures
        record_views(pieces@) == split_views(record_views(records@), limit as nat),
{
    let mut out: Vec<(Vec<u8>, u8)> = Vec::new();
    for i in 0..records.len()
        invariant
            limit > 0,
            record_views(out@) == split_views(record_views(records@).take(i as int), limit as nat),
    {
        let (bytes, tag) = (&records[i].0, records[i].1);
        let chunks = crate::formatters::chunk(bytes, limit);
        let ghost before = record_views(out@);
        let ghost cv = crate::formatters::chunks_of(bytes@, limit as nat).map_values(|c: Seq<u8>| (c, tag));
        assert(chunks@.len() == crate::formatters::byte_views(chunks@).len());
        for j in 0..chunks.len()
            invariant
                crate::formatters::byte_views(chunks@) == crate::formatters::chunks_of(bytes@, limit as nat),
                cv == crate::formatters::chunks_of(bytes@, limit as nat).map_values(|c: Seq<u8>| (c, tag)),
                record_views(out@) == before + cv.take(j as int),
        {
            let piece = crate::replace::copy_bytes(&chunks[j]);
            let ghost prev = record_views(out@);
            out.push((piece, tag));
            proof {
                assert(crate::formatters::byte_views(chunks@)[j as int] == chunks@[j as int]@);
                assert(record_views(out@) =~= prev.push((piece@, tag)));
                assert(record_views(out@) =~= before + cv.take(j + 1));
            }
        }
        proof {
            let rv = record_views(records@);
            assert(rv.take(i + 1).drop_last() =~= rv.take(i as int));
            assert(rv.take(i + 1).last() == (bytes@, tag));
            assert(cv.take(chunks@.len() as int) =~= cv);
        }
    }
    proof {
        assert(record_views(records@).take(records@.len() as int) =~= record_views(records@));
    }
    out
}

/// Cutting messages into pieces loses, adds and reorders no byte, and no
/// piece is empty or longer than the limit.
pub proof fn lemma_split_keeps_bytes(records: Seq<(Seq<u8>, u8)>, limit: nat)
    requires
        limit > 0,
    ensures
        record_bytes(split_views(records, limit)) == record_bytes(records),
        forall|i: int|
            0 <= i < split_views(records, limit).len() ==> 0 < (#[trigger] split_views(records, limit)[i]).0.len() <= limit,
    decreases records.len(),
{
    if records.len() > 0 {
        let last = records.last();
        let prev = split_views(records.drop_last(), limit);
        let tail = crate::formatters::chunks_of(last.0, limit).map_values(|c: Seq<u8>| (c, last.1));
        lemma_split_keeps_bytes(records.drop_last(), limit);
        crate::formatters::lemma_chunks_concat(last.0, limit);
        lemma_record_bytes_concat(prev, tail);
        lemma_record_bytes_of_chunks(crate::formatters::chunks_of(last.0, limit), last.1);
        let all = split_views(records, limit);
        assert forall|i: int| 0 <= i < all.len() implies 0 < (#[trigger] all[i]).0.len() <= limit by {
            if i >= prev.len() {
                assert(all[i] == tail[i - prev.len()]);
            }
        }
    }
}

/// The bytes of two runs of messages, one after the other.
proof fn lemma_record_bytes_concat(a: Seq<(Seq<u8>, u8)>, b: Seq<(Seq<u8>, u8)>)
    ensures
        record_bytes(a + b) == record_bytes(a) + record_bytes(b),
    decreases b.len(),
{
    if b.len() == 0 {
        assert(a + b =~= a);
    } else {
        assert((a + b).drop_last() =~= a + b.drop_last());
        lemma_record_bytes_concat(a, b.drop_last());
    }
}

/// The bytes of chunks tagged alike are the chunks joined.
proof fn lemma_record_bytes_of_chunks(cs: Seq<Seq<u8>>, tag: u8)
    ensures
        record_bytes(cs.map_values(|c: Seq<u8>| (c, tag))) == cs.flatten_alt(),
    decreases cs.len(),
{
    if cs.len() > 0 {
        lemma_record_bytes_of_chunks(cs.drop_last(), tag);
        assert(cs.map_values(|c: Seq<u8>| (c, tag)).drop_last() =~= cs.drop_last().map_values(
            |c: Seq<u8>| (c, tag),
        ));
    }
}

/// The pieces that `Itertools::interleave` yields from `a` and `b`: their
/// items in turn, starting with `a`, then the rest of the longer one.
pub open spec fn interleaved(a: Seq<u8>, b: Seq<u8>) -> Seq<u8>
    decreases a.len() + b.len(),
{
    if a.len() == 0 {
        b
    } else {
        seq![a[0]] + interleaved(b, a.drop_first())
    }
}

/// `Itertools::interleave` of the two byte vectors, collected.
#[verifier::external_body]
fn interleave_bytes(a: Vec<u8>, b: Vec<u8>) -> (out: Vec<u8>)
    ensures
        out@ == interleaved(a@, b@),
{
    a.into_iter().interleave(b).collect()
}

/// The bytes of a merged log entry: each data byte preceded by `prefix`.
pub open spec fn prefixed(prefix: u8, data: Seq<u8>) -> Seq<u8> {
    Seq::new(2 * data.len(), |i: int| if i % 2 == 0 { prefix } else { data[i / 2] })
}

/// Interleaving a run of the same byte with data of equal length puts that
/// byte before every data byte.
proof fn lemma_interleave_prefix(prefix: u8, data: Seq<u8>)
    ensures
        interleaved(Seq::new(data.len(), |i: int| prefix), data) == prefixed(prefix, data),
    decreases data.len(),
{
    let a = Seq::new(data.len(), |i: int| prefix);
    if data.len() > 0 {
        let a2 = Seq::new((data.len() - 1) as nat, |i: int| prefix);
        assert(a.drop_first() =~= a2);
        lemma_interleave_prefix(prefix, data.drop_first());
        // interleaved(a, d) = [p] + interleaved(d, a2) = [p] + [d0] + interleaved(a2, d.drop_first())
        assert(interleaved(data, a2) == seq![data[0]] + interleaved(a2, data.drop_first()));
        assert(interleaved(a, data) =~= prefixed(prefix, data));
    } else {
        assert(interleaved(a, data) =~= prefixed(prefix, data));
    }
}

/// The merged-log form of `data` from thread `prefix`: every byte preceded
/// by the thread's number.
pub fn synced_bytes(prefix: u8, data: &Vec<u8>) -> (out: Vec<u8>)
    ensures
        out@ == prefixed(prefix, data@),
{
    let mut prefixes: Vec<u8> = Vec::new();
    for i in 0..data.len()
        invariant
            prefixes@ == Seq::new(i as nat, |k: int| prefix),
    {
        prefixes.push(prefix);
        assert(prefixes@ =~= Seq::new((i + 1) as nat, |k: int| prefix));
    }
    proof {
        lemma_interleave_prefix(prefix, data@);
    }
    interleave_bytes(prefixes, crate::replace::copy_bytes(data))
}

} // verus!
