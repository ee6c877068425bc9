//! A byte stream that watches for trigger patterns and acts on them before
//! the bytes are handed on.
//!
//! Bytes wait in `buffer` until the library can decide whether a trigger
//! begins at the front: it reads ahead while some trigger still agrees with
//! what was read, and stops at the first byte count at which a trigger is
//! complete or none agrees any more.  Nothing read ahead is consumed: when
//! more input is needed the buffer is left as it was, and the caller feeds
//! the next chunk and asks again.

use std::collections::VecDeque;
use vstd::prelude::*;

verus! {

/// What a trigger does when its pattern arrives.
pub enum TriggerAction<M> {
    /// Drops `target.len()` bytes from the front of the buffer and puts
    /// `repl` in their place.
    Replace { target: Vec<u8>, repl: Vec<u8> },
    /// Leaves the bytes alone and hands the message to the caller.
    Message(M),
}

/// The stream: the source it reads from, the bytes read but not yet handed
/// on, and the triggers with their patterns, in the order they are tried.
pub struct ReplaceStream<S, M> {
    pub stream: S,
    pub buffer: VecDeque<u8>,
    pub triggers: Vec<(Vec<u8>, TriggerAction<M>)>,
}

/// The same stream, under the name that the stream-of-chunks variant bears.
pub type ReplaceStream2<S, M> = ReplaceStream<S, M>;

/// The outcome of looking at the front of the buffer.
pub enum ScanOutcome {
    /// Every byte was read and some trigger still agrees: more input is needed.
    NeedMore,
    /// No trigger begins at the front.
    NoMatch,
    /// The trigger with this index is complete at the front, and no trigger
    /// before it in the list is.
    Matched(usize),
}

/// The result of one poll of the stream.
pub enum PollStep {
    /// Nothing can be decided from the buffered bytes: feed more input.
    NeedInput,
    /// The next byte (or `None` when a replacement left the buffer empty),
    /// and the index of the trigger that fired, if one did.
    Ready { byte: Option<u8>, fired: Option<usize> },
}

/// The patterns of the triggers, in order.
pub open spec fn patterns<M>(triggers: Seq<(Vec<u8>, TriggerAction<M>)>) -> Seq<Seq<u8>> {
    Seq::new(triggers.len(), |i: int| triggers[i].0@)
}

/// `read` is where pattern `p` begins.
pub open spec fn is_prefix_of(read: Seq<u8>, p: Seq<u8>) -> bool {
    read.len() <= p.len() && p.take(read.len() as int) == read
}

/// Some pattern still agrees with the bytes read.
pub open spec fn still_possible(pats: Seq<Seq<u8>>, read: Seq<u8>) -> bool {
    exists|i: int| 0 <= i < pats.len() && is_prefix_of(read, #[trigger] pats[i])
}

/// Pattern `i` equals the bytes read and no earlier pattern does.
pub open spec fn is_first_complete(pats: Seq<Seq<u8>>, read: Seq<u8>, i: int) -> bool {
    &&& 0 <= i < pats.len()
    &&& pats[i] == read
    &&& forall|j: int| 0 <= j < i ==> pats[j] != read
}

/// Some pattern equals the bytes read.
pub open spec fn has_complete(pats: Seq<Seq<u8>>, read: Seq<u8>) -> bool {
    exists|i: int| 0 <= i < pats.len() && #[trigger] pats[i] == read
}

/// The index of the first pattern equal to the bytes read.
pub open spec fn first_complete(pats: Seq<Seq<u8>>, read: Seq<u8>) -> int {
    choose|i: int| is_first_complete(pats, read, i)
}

/// The outcome once `k` bytes of `buf` have been read: the first count from
/// `k` on at which a pattern is complete or none agrees any more.
pub open spec fn scan_from(pats: Seq<Seq<u8>>, buf: Seq<u8>, k: nat) -> ScanOutcome
    decreases buf.len() + 1 - k,
{
    if k > buf.len() {
        ScanOutcome::NeedMore
    } else if has_complete(pats, buf.take(k as int)) {
        ScanOutcome::Matched(first_complete(pats, buf.take(k as int)) as usize)
    } else if !still_possible(pats, buf.take(k as int)) {
        ScanOutcome::NoMatch
    } else {
        scan_from(pats, buf, k + 1)
    }
}

/// The outcome of looking at the front of `buf`, reading at least one byte.
pub open spec fn scan(pats: Seq<Seq<u8>>, buf: Seq<u8>) -> ScanOutcome {
    scan_from(pats, buf, 1)
}

/// The buffer after `action` fired on it.
pub open spec fn apply_action<M>(action: TriggerAction<M>, buf: Seq<u8>) -> Seq<u8> {
    match action {
        TriggerAction::Replace { target, repl } => repl@ + buf.skip(target@.len() as int),
        TriggerAction::Message(_) => buf,
    }
}

/// The step, and the buffer after it, that a poll makes of `buf`.
pub open spec fn poll_outcome<M>(triggers: Seq<(Vec<u8>, TriggerAction<M>)>, buf: Seq<u8>) -> (
    PollStep,
    Seq<u8>,
) {
    match scan(patterns(triggers), buf) {
        ScanOutcome::NeedMore => (PollStep::NeedInput, buf),
        ScanOutcome::NoMatch => (
            PollStep::Ready { byte: Some(buf[0]), fired: None },
            buf.drop_first(),
        ),
        ScanOutcome::Matched(i) => {
            let after = apply_action(triggers[i as int].1, buf);
            if after.len() == 0 {
                (PollStep::Ready { byte: None, fired: Some(i) }, after)
            } else {
                (PollStep::Ready { byte: Some(after[0]), fired: Some(i) }, after.drop_first())
            }
        },
    }
}

/// The trigger that fires on `buf`, if any, can drop its target from it: a
/// target longer than the buffer would make the drop fail.
pub open spec fn fire_fits<M>(triggers: Seq<(Vec<u8>, TriggerAction<M>)>, buf: Seq<u8>) -> bool {
    match scan(patterns(triggers), buf) {
        ScanOutcome::Matched(i) => match triggers[i as int].1 {
            TriggerAction::Replace { target, repl } => target@.len() <= buf.len(),
            TriggerAction::Message(_) => true,
        },
        _ => true,
    }
}

/// No replacement drops more bytes than its own pattern holds; then every
/// firing fits (see `lemma_fits_when_targets_fit`).
pub open spec fn targets_fit<M>(triggers: Seq<(Vec<u8>, TriggerAction<M>)>) -> bool {
    forall|i: int|
        0 <= i < triggers.len() ==> match #[trigger] triggers[i].1 {
            TriggerAction::Replace { target, repl } => target@.len() <= triggers[i].0@.len(),
            TriggerAction::Message(_) => true,
        }
}

/// Reading one more byte keeps a pattern in play exactly when it agreed so
/// far and has that byte next.
proof fn lemma_prefix_step(buf: Seq<u8>, p: Seq<u8>, k: nat)
    requires
        1 <= k <= buf.len(),
    ensures
        is_prefix_of(buf.take(k as int), p) <==> (is_prefix_of(buf.take(k - 1), p) && p.len()
            >= k && p[k - 1] == buf[k - 1]),
{
    if is_prefix_of(buf.take(k as int), p) {
        assert(p.take(k - 1) =~= p.take(k as int).take(k - 1));
        assert(buf.take(k - 1) =~= buf.take(k as int).take(k - 1));
        assert(p.take(k as int)[k - 1] == p[k - 1]);
    }
    if is_prefix_of(buf.take(k - 1), p) && p.len() >= k && p[k - 1] == buf[k - 1] {
        assert(p.take(k as int) =~= buf.take(k as int)) by {
            assert forall|j: int| 0 <= j < k implies p.take(k as int)[j] == buf.take(k as int)[j] by {
                if j < k - 1 {
                    assert(p.take(k - 1)[j] == buf.take(k - 1)[j]);
                }
            }
        }
    }
}

/// Once the front of a buffer decides the outcome, bytes that arrive later
/// do not change it.
pub proof fn lemma_scan_stable(pats: Seq<Seq<u8>>, buf: Seq<u8>, more: Seq<u8>, k: nat)
    requires
        !(scan_from(pats, buf, k) is NeedMore),
    ensures
        scan_from(pats, buf + more, k) == scan_from(pats, buf, k),
    decreases buf.len() + 1 - k,
{
    assert((buf + more).take(k as int) =~= buf.take(k as int));
    if k <= buf.len() && !has_complete(pats, buf.take(k as int)) && still_possible(
        pats,
        buf.take(k as int),
    ) {
        lemma_scan_stable(pats, buf, more, k + 1);
    }
}

/// When no replacement target is longer than its pattern, every firing fits.
pub proof fn lemma_fits_when_targets_fit<M>(
    triggers: Seq<(Vec<u8>, TriggerAction<M>)>,
    buf: Seq<u8>,
)
    requires
        targets_fit(triggers),
        triggers.len() <= usize::MAX,
    ensures
        fire_fits(triggers, buf),
{
    let pats = patterns(triggers);
    if let ScanOutcome::Matched(i) = scan(pats, buf) {
        lemma_matched_within(pats, buf, 1);
        let k = choose|k: nat| 1 <= k <= buf.len() && is_first_complete(pats, buf.take(k as int), i as int);
        assert(triggers[i as int].0@ == pats[i as int]);
    }
}

/// A match names a pattern that equals a front part of the buffer.
proof fn lemma_matched_within(pats: Seq<Seq<u8>>, buf: Seq<u8>, k: nat)
    requires
        k >= 1,
        pats.len() <= usize::MAX,
        scan_from(pats, buf, k) is Matched,
    ensures
        exists|j: nat|
            1 <= j <= buf.len() && is_first_complete(
                pats,
                buf.take(j as int),
                scan_from(pats, buf, k)->Matched_0 as int,
            ),
    decreases buf.len() + 1 - k,
{
    if has_complete(pats, buf.take(k as int)) {
        let read = buf.take(k as int);
        let w = choose|i: int| 0 <= i < pats.len() && #[trigger] pats[i] == read;
        lemma_first_complete_exists(pats, read, w);
        assert(is_first_complete(pats, buf.take(k as int), first_complete(pats, read)));
        assert(1 <= k <= buf.len() && is_first_complete(
            pats,
            buf.take(k as int),
            scan_from(pats, buf, k)->Matched_0 as int,
        ));
    } else {
        lemma_matched_within(pats, buf, k + 1);
    }
}

/// If some pattern equals the bytes read, a first one does.
proof fn lemma_first_complete_exists(pats: Seq<Seq<u8>>, read: Seq<u8>, w: int)
    requires
        0 <= w < pats.len(),
        pats[w] == read,
    ensures
        is_first_complete(pats, read, first_complete(pats, read)),
        0 <= first_complete(pats, read) < pats.len(),
    decreases w,
{
    if forall|j: int| 0 <= j < w ==> pats[j] != read {
        assert(is_first_complete(pats, read, w));
    } else {
        let v = choose|j: int| 0 <= j < w && pats[j] == read;
        lemma_first_complete_exists(pats, read, v);
    }
}

/// With no triggers every poll hands on the first buffered byte unchanged,
/// and asks for input only when nothing is buffered.
pub proof fn lemma_no_triggers_pass_through<M>(
    triggers: Seq<(Vec<u8>, TriggerAction<M>)>,
    buf: Seq<u8>,
)
    requires
        triggers.len() == 0,
    ensures
        buf.len() == 0 ==> poll_outcome(triggers, buf) == (PollStep::NeedInput, buf),
        buf.len() > 0 ==> poll_outcome(triggers, buf) == (
            PollStep::Ready { byte: Some(buf[0]), fired: None },
            buf.drop_first(),
        ),
{
    let pats = patterns(triggers);
    assert(pats.len() == 0);
    assert(!has_complete(pats, buf.take(1)));
    assert(!still_possible(pats, buf.take(1)));
}

/// The buffer that a replacement leaves when it fires.
pub open spec fn replaced<M>(action: TriggerAction<M>, rest: Seq<u8>) -> Seq<u8> {
    match action {
        TriggerAction::Replace { target, repl } => repl@ + rest,
        TriggerAction::Message(_) => rest,
    }
}

/// A lone replacement trigger whose pattern is its target fires when its
/// pattern is at the front: the pattern gives way to the replacement, and
/// the first byte of the result is handed on.
pub proof fn lemma_replacement_fires<M>(
    triggers: Seq<(Vec<u8>, TriggerAction<M>)>,
    rest: Seq<u8>,
)
    requires
        triggers.len() == 1,
        triggers[0].0@.len() > 0,
        triggers[0].1 matches TriggerAction::Replace { target, repl } && target@ == triggers[0].0@,
    ensures
        ({
            let after = replaced(triggers[0].1, rest);
            poll_outcome(triggers, triggers[0].0@ + rest) == if after.len() == 0 {
                (PollStep::Ready { byte: None, fired: Some(0usize) }, after)
            } else {
                (PollStep::Ready { byte: Some(after[0]), fired: Some(0usize) }, after.drop_first())
            }
        }),
{
    let pats = patterns(triggers);
    let t = triggers[0].0@;
    let buf = t + rest;
    assert(pats[0] == t);
    assert(buf.take(t.len() as int) =~= t);
    lemma_scan_reaches_pattern(pats, buf, 1);
    assert(buf.skip(t.len() as int) =~= rest);
}

/// Before the lone pattern is complete it still agrees with the front of
/// the buffer, so scanning goes on until it is complete.
proof fn lemma_scan_reaches_pattern(pats: Seq<Seq<u8>>, buf: Seq<u8>, k: nat)
    requires
        pats.len() == 1,
        1 <= k <= pats[0].len(),
        pats[0].len() <= buf.len(),
        buf.take(pats[0].len() as int) == pats[0],
    ensures
        scan_from(pats, buf, k) == ScanOutcome::Matched(0),
    decreases pats[0].len() - k,
{
    let p = pats[0];
    let read = buf.take(k as int);
    if k == p.len() {
        assert(read =~= p);
        assert(is_first_complete(pats, read, 0));
        lemma_first_complete_exists(pats, read, 0);
    } else {
        assert(read.len() != p.len());
        assert(!has_complete(pats, read));
        assert(p.take(k as int) =~= read);
        assert(is_prefix_of(read, pats[0]));
        lemma_scan_reaches_pattern(pats, buf, k + 1);
    }
}

/// The bytes that `steps` polls hand on from `buf` when no input arrives,
/// stopping early when input is needed or the buffer ran dry.
pub open spec fn drained<M>(triggers: Seq<(Vec<u8>, TriggerAction<M>)>, buf: Seq<u8>, steps: nat) -> Seq<
    u8,
>
    decreases steps,
{
    if steps == 0 {
        Seq::empty()
    } else {
        match poll_outcome(triggers, buf) {
            (PollStep::Ready { byte: Some(b), fired: _ }, rest) => seq![b] + drained(
                triggers,
                rest,
                (steps - 1) as nat,
            ),
            _ => Seq::empty(),
        }
    }
}

/// No pattern of the triggers begins with byte `b`.
pub open spec fn starts_none<M>(triggers: Seq<(Vec<u8>, TriggerAction<M>)>, b: u8) -> bool {
    forall|i: int| 0 <= i < triggers.len() ==> (#[trigger] triggers[i].0@).len() == 0 || triggers[i].0@[0] != b
}

/// A front byte that begins no pattern is handed on as it is.
proof fn lemma_plain_front<M>(triggers: Seq<(Vec<u8>, TriggerAction<M>)>, buf: Seq<u8>)
    requires
        buf.len() > 0,
        starts_none(triggers, buf[0]),
    ensures
        scan(patterns(triggers), buf) == ScanOutcome::NoMatch,
{
    let pats = patterns(triggers);
    let read = buf.take(1);
    assert forall|i: int| 0 <= i < pats.len() implies !is_prefix_of(read, #[trigger] pats[i]) by {
        assert(pats[i] == triggers[i].0@);
        if is_prefix_of(read, pats[i]) {
            assert(pats[i].take(1)[0] == read[0]);
        }
    }
    assert(!has_complete(pats, read)) by {
        if has_complete(pats, read) {
            let w = choose|i: int| 0 <= i < pats.len() && #[trigger] pats[i] == read;
            assert(pats[w].take(1) =~= pats[w]);
        }
    }
}

/// Bytes none of which begins a pattern pass through the stream unchanged,
/// one per poll.
pub proof fn lemma_plain_bytes_pass_through<M>(triggers: Seq<(Vec<u8>, TriggerAction<M>)>, buf: Seq<u8>)
    requires
        forall|j: int| 0 <= j < buf.len() ==> starts_none(triggers, #[trigger] buf[j]),
    ensures
        drained(triggers, buf, buf.len()) == buf,
    decreases buf.len(),
{
    if buf.len() > 0 {
        lemma_plain_front(triggers, buf);
        let rest = buf.drop_first();
        assert forall|j: int| 0 <= j < rest.len() implies starts_none(triggers, #[trigger] rest[j]) by {
            assert(rest[j] == buf[j + 1]);
        }
        lemma_plain_bytes_pass_through(triggers, rest);
        assert(seq![buf[0]] + rest =~= buf);
    }
}

/// A lone replacement trigger whose pattern is its target rewrites its
/// pattern into the replacement: when no byte after the replacement's first
/// one begins the pattern, the stream hands on the replacement followed by
/// the bytes that came after the pattern.
pub proof fn lemma_replacement_stream<M>(
    triggers: Seq<(Vec<u8>, TriggerAction<M>)>,
    rest: Seq<u8>,
)
    requires
        triggers.len() == 1,
        triggers[0].0@.len() > 0,
        triggers[0].1 matches TriggerAction::Replace { target, repl } && target@ == triggers[0].0@
            && repl@.len() > 0,
        forall|j: int| 1 <= j < replaced(triggers[0].1, rest).len() ==> starts_none(
            triggers,
            #[trigger] replaced(triggers[0].1, rest)[j],
        ),
    ensures
        drained(triggers, triggers[0].0@ + rest, replaced(triggers[0].1, rest).len()) == replaced(
            triggers[0].1,
            rest,
        ),
{
    let after = replaced(triggers[0].1, rest);
    lemma_replacement_fires(triggers, rest);
    let tail = after.drop_first();
    assert forall|j: int| 0 <= j < tail.len() implies starts_none(triggers, #[trigger] tail[j]) by {
        assert(tail[j] == after[j + 1]);
    }
    lemma_plain_bytes_pass_through(triggers, tail);
    assert(seq![after[0]] + tail =~= after);
}

/// A decided outcome was decided on at least one buffered byte.
proof fn lemma_decided_nonempty(pats: Seq<Seq<u8>>, buf: Seq<u8>, k: nat)
    requires
        k >= 1,
        !(scan_from(pats, buf, k) is NeedMore),
    ensures
        buf.len() >= 1,
    decreases buf.len() + 1 - k,
{
    if k <= buf.len() && !has_complete(pats, buf.take(k as int)) && still_possible(
        pats,
        buf.take(k as int),
    ) {
        lemma_decided_nonempty(pats, buf, k + 1);
    }
}

/// Replaces the first `target_len` bytes of `buffer` with `repl`.
fn replace_front(buffer: &mut VecDeque<u8>, target_len: usize, repl: &Vec<u8>)
    requires
        target_len <= old(buffer)@.len(),
    ensures
        final(buffer)@ == repl@ + old(buffer)@.skip(target_len as int),
{
    let mut rest = buffer.split_off(target_len);
    let mut fresh: VecDeque<u8> = VecDeque::new();
    for i in 0..repl.len()
        invariant
            fresh@ == repl@.take(i as int),
    {
        fresh.push_back(repl[i]);
        assert(fresh@ =~= repl@.take(i + 1));
    }
    assert(fresh@ =~= repl@);
    fresh.append(&mut rest);
    *buffer = fresh;
}

/// Builds a stream over `stream` with the given triggers and nothing buffered.
pub fn replacment_builder<S, M>(stream: S, triggers: Vec<(Vec<u8>, TriggerAction<M>)>) -> (rs:
    ReplaceStream<S, M>)
    ensures
        rs.stream == stream,
        rs.buffer@ == Seq::<u8>::empty(),
        rs.triggers@ == triggers@,
{
    ReplaceStream { stream, buffer: VecDeque::new(), triggers }
}

/// An action that replaces `target` with `repl`.
pub fn rpl_boxed<M>(target: Vec<u8>, repl: Vec<u8>) -> (action: TriggerAction<M>)
    ensures
        action == (TriggerAction::<M>::Replace { target, repl }),
{
    TriggerAction::Replace { target, repl }
}

/// An action that hands `message` to the caller.
pub fn message<M>(signal: M) -> (action: TriggerAction<M>)
    ensures
        action == TriggerAction::<M>::Message(signal),
{
    TriggerAction::Message(signal)
}

/// A trigger on `target` that replaces it with `repl`.
pub fn rpl_util<M>(target: Vec<u8>, repl: Vec<u8>) -> (trigger: (Vec<u8>, TriggerAction<M>))
    ensures
        trigger.0@ == target@,
        trigger.1 == (TriggerAction::<M>::Replace { target, repl }),
{
    (copy_bytes(&target), rpl_boxed(target, repl))
}

/// A copy of the bytes.
pub fn copy_bytes(bytes: &Vec<u8>) -> (copy: Vec<u8>)
    ensures
        copy@ == bytes@,
{
    let mut copy: Vec<u8> = Vec::new();
    for i in 0..bytes.len()
        invariant
            copy@ == bytes@.take(i as int),
    {
        copy.push(bytes[i]);
        assert(copy@ =~= bytes@.take(i + 1));
    }
    assert(copy@ =~= bytes@);
    copy
}

impl<S, M> ReplaceStream<S, M> {
    /// Looks at the front of the buffer and says whether, and which, trigger
    /// begins there, or that more input is needed to tell.
    pub fn scan_front(&self) -> (outcome: ScanOutcome)
        ensures
            outcome == scan(patterns(self.triggers@), self.buffer@),
    {
        let ghost pats = patterns(self.triggers@);
        let ghost buf = self.buffer@;
        let n = self.triggers.len();
        let blen = self.buffer.len();
        let mut alive: Vec<bool> = Vec::new();
        for i in 0..n
            invariant
                alive@.len() == i,
                forall|j: int| 0 <= j < i ==> alive@[j],
        {
            alive.push(true);
        }
        proof {
            assert forall|j: int| 0 <= j < n implies is_prefix_of(buf.take(0), pats[j]) by {
                assert(pats[j].take(0) =~= buf.take(0));
            }
        }
        // `read` bytes have been read; the next count to decide on is `read + 1`.
        let mut read: usize = 0;
        loop
            invariant
                read <= blen,
                n == self.triggers@.len(),
                blen == buf.len(),
                buf == self.buffer@,
                pats == patterns(self.triggers@),
                alive@.len() == n,
                forall|j: int| 0 <= j < n ==> (alive@[j] <==> is_prefix_of(buf.take(read as int), pats[j])),
                scan_from(pats, buf, (read + 1) as nat) == scan(pats, buf),
            decreases blen - read,
        {
            if read >= blen {
                return ScanOutcome::NeedMore;
            }
            let ghost k: nat = (read + 1) as nat;
            let byte = self.buffer[read];
            let mut i: usize = 0;
            while i < n
                invariant
                    read < blen,
                    k == read + 1,
                    0 <= i <= n,
                    n == self.triggers@.len(),
                    blen == buf.len(),
                    buf == self.buffer@,
                    pats == patterns(self.triggers@),
                    byte == buf[read as int],
                    alive@.len() == n,
                    forall|j: int| 0 <= j < i ==> (alive@[j] <==> is_prefix_of(buf.take(k as int), pats[j])),
                    forall|j: int| i <= j < n ==> (alive@[j] <==> is_prefix_of(buf.take(read as int), pats[j])),
                decreases n - i,
            {
                let p = &self.triggers[i].0;
                let keep = alive[i] && p.len() > read && p[read] == byte;
                proof {
                    lemma_prefix_step(buf, pats[i as int], k);
                    assert(p@ == pats[i as int]);
                }
                alive.set(i, keep);
                i = i + 1;
            }
            let mut any = false;
            let mut j: usize = 0;
            while j < n
                invariant
                    read < blen,
                    k == read + 1,
                    0 <= j <= n,
                    n == self.triggers@.len(),
                    blen == buf.len(),
                    buf == self.buffer@,
                    pats == patterns(self.triggers@),
                    alive@.len() == n,
                    forall|m: int| 0 <= m < n ==> (alive@[m] <==> is_prefix_of(buf.take(k as int), pats[m])),
                    forall|m: int| 0 <= m < j ==> pats[m] != buf.take(k as int),
                    any <==> exists|m: int| 0 <= m < j && alive@[m],
                    scan_from(pats, buf, k) == scan(pats, buf),
                decreases n - j,
            {
                let plen = self.triggers[j].0.len();
                let complete = alive[j] && plen > read && plen - 1 == read;
                proof {
                    let read_seq = buf.take(k as int);
                    let pj = pats[j as int];
                    assert(self.triggers@[j as int].0@ == pj);
                    if pj == read_seq {
                        assert(pj.take(k as int) =~= pj);
                    }
                    if complete {
                        assert(pj.take(k as int) =~= pj);
                    }
                }
                if complete {
                    proof {
                        let read_seq = buf.take(k as int);
                        assert(is_first_complete(pats, read_seq, j as int));
                        assert(has_complete(pats, read_seq));
                        lemma_first_complete_exists(pats, read_seq, j as int);
                        let f = first_complete(pats, read_seq);
                        assert(f == j as int) by {
                            if f < j as int {
                                assert(pats[f] != read_seq);
                            } else if f > j as int {
                                assert(pats[j as int] != read_seq);
                            }
                        }
                    }
                    return ScanOutcome::Matched(j);
                }
                if alive[j] {
                    any = true;
                }
                j = j + 1;
            }
            proof {
                let read_seq = buf.take(k as int);
                assert(!has_complete(pats, read_seq));
                if still_possible(pats, read_seq) {
                    let w = choose|m: int| 0 <= m < pats.len() && is_prefix_of(read_seq, #[trigger] pats[m]);
                    assert(alive@[w]);
                }
            }
            if !any {
                return ScanOutcome::NoMatch;
            }
            read = read + 1;
        }
    }

    /// Appends a chunk that arrived from the source.
    pub fn feed(&mut self, bytes: &[u8])
        ensures
            final(self).buffer@ == old(self).buffer@ + bytes@,
            final(self).triggers == old(self).triggers,
            final(self).stream == old(self).stream,
    {
        for i in 0..bytes.len()
            invariant
                self.buffer@ == old(self).buffer@ + bytes@.take(i as int),
                self.triggers == old(self).triggers,
                self.stream == old(self).stream,
        {
            self.buffer.push_back(bytes[i]);
            assert(self.buffer@ =~= old(self).buffer@ + bytes@.take(i + 1));
        }
        assert(bytes@.take(bytes@.len() as int) =~= bytes@);
    }

    /// Hands out the first buffered byte, if any, without looking at triggers.
    pub fn pop_buffered(&mut self) -> (byte: Option<u8>)
        ensures
            final(self).triggers == old(self).triggers,
            final(self).stream == old(self).stream,
            old(self).buffer@.len() == 0 ==> byte is None && final(self).buffer@ == old(self).buffer@,
            old(self).buffer@.len() > 0 ==> byte == Some(old(self).buffer@[0])
                && final(self).buffer@ == old(self).buffer@.drop_first(),
    {
        let b = self.buffer.pop_front();
        proof {
            if old(self).buffer@.len() > 0 {
                assert(self.buffer@ =~= old(self).buffer@.drop_first());
            }
        }
        b
    }

    /// Replaces `target.len()` bytes at the front of the buffer with `repl`.
    pub fn replace_vec(&mut self, target: &Vec<u8>, repl: &Vec<u8>)
        requires
            target@.len() <= old(self).buffer@.len(),
        ensures
            final(self).buffer@ == repl@ + old(self).buffer@.skip(target@.len() as int),
            final(self).triggers == old(self).triggers,
            final(self).stream == old(self).stream,
    {
        replace_front(&mut self.buffer, target.len(), repl);
    }

    /// Adds a trigger that replaces `target` with `repl`.
    pub fn add_repl(&mut self, target: Vec<u8>, repl: Vec<u8>)
        ensures
            final(self).buffer == old(self).buffer,
            final(self).stream == old(self).stream,
            final(self).triggers@.len() == old(self).triggers@.len() + 1,
            final(self).triggers@.drop_last() == old(self).triggers@,
            final(self).triggers@.last().0@ == target@,
            final(self).triggers@.last().1 == (TriggerAction::<M>::Replace { target, repl }),
    {
        let trigger = rpl_util(target, repl);
        self.triggers.push(trigger);
        assert(self.triggers@.drop_last() =~= old(self).triggers@);
    }

    /// Whether no replacement target is longer than its pattern, which
    /// makes every poll safe.
    pub fn targets_fit(&self) -> (fit: bool)
        ensures
            fit == targets_fit(self.triggers@),
    {
        let n = self.triggers.len();
        for i in 0..n
            invariant
                n == self.triggers@.len(),
                forall|j: int| 0 <= j < i ==> match #[trigger] self.triggers@[j].1 {
                    TriggerAction::Replace { target, repl } => target@.len() <= self.triggers@[j].0@.len(),
                    TriggerAction::Message(_) => true,
                },
        {
            let t = &self.triggers[i];
            match &t.1 {
                TriggerAction::Replace { target, repl } => {
                    if target.len() > t.0.len() {
                        return false;
                    }
                },
                TriggerAction::Message(_) => {},
            }
        }
        true
    }

    /// Whether the trigger that would fire on the buffered bytes, if any,
    /// can drop its target from them, as a poll needs.
    pub fn fire_fits(&self) -> (ok: bool)
        ensures
            ok == fire_fits(self.triggers@, self.buffer@),
    {
        let ghost pats = patterns(self.triggers@);
        let _n = self.triggers.len();
        match self.scan_front() {
            ScanOutcome::Matched(i) => {
                proof {
                    lemma_matched_within(pats, self.buffer@, 1);
                }
                match &self.triggers[i].1 {
                    TriggerAction::Replace { target, repl } => target.len() <= self.buffer.len(),
                    TriggerAction::Message(_) => true,
                }
            },
            _ => true,
        }
    }

    /// One poll: decides on the buffered bytes whether a trigger fires,
    /// applies a replacement, and hands out the next byte; or asks for more
    /// input and leaves the buffer as it was.
    pub fn poll_step(&mut self) -> (step: PollStep)
        requires
            fire_fits(old(self).triggers@, old(self).buffer@),
        ensures
            (step, final(self).buffer@) == poll_outcome(old(self).triggers@, old(self).buffer@),
            final(self).triggers == old(self).triggers,
            final(self).stream == old(self).stream,
    {
        let ghost buf = self.buffer@;
        let ghost pats = patterns(self.triggers@);
        let _n = self.triggers.len();
        match self.scan_front() {
            ScanOutcome::NeedMore => PollStep::NeedInput,
            ScanOutcome::NoMatch => {
                proof {
                    lemma_decided_nonempty(pats, buf, 1);
                }
                let byte = self.pop_buffered();
                PollStep::Ready { byte, fired: None }
            },
            ScanOutcome::Matched(i) => {
                proof {
                    lemma_matched_within(pats, buf, 1);
                }
                match &self.triggers[i].1 {
                    TriggerAction::Replace { target, repl } => {
                        replace_front(&mut self.buffer, target.len(), repl);
                    },
                    TriggerAction::Message(_) => {},
                }
                let byte = self.pop_buffered();
                PollStep::Ready { byte, fired: Some(i) }
            },
        }
    }
}

} // verus!
