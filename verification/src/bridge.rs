//! Streaming replacement of byte patterns between two connections.
//!
//! Each byte read waits in `outbuf` together with the replacement patterns
//! that began at it and still agree with the bytes that followed; a pattern
//! is held as the pair (index of the replacement, bytes of it matched so
//! far).  A byte goes out once no pattern that began at it, or at a byte
//! before it, is still in play.  When a pattern completes, the pattern is
//! picked out again from the front of `outbuf`, its bytes give way to the
//! replacement, and the replacement goes out in their place.

use std::collections::VecDeque;
use vstd::prelude::*;

verus! {

/// The patterns of the replacements, in order.
pub open spec fn pattern_view(reps: Seq<(Vec<u8>, Vec<u8>)>) -> Seq<Seq<u8>> {
    Seq::new(reps.len(), |i: int| reps[i].0@)
}

/// A partial match `(index, matched)` has `r` as its next byte.
pub open spec fn continues_with(pats: Seq<Seq<u8>>, m: (usize, usize), r: u8) -> bool {
    m.1 < pats[m.0 as int].len() && pats[m.0 as int][m.1 as int] == r
}

/// The partial matches that `r` continues, each one byte further on.
pub open spec fn advance_matches(pats: Seq<Seq<u8>>, ms: Seq<(usize, usize)>, r: u8) -> Seq<
    (usize, usize),
>
    decreases ms.len(),
{
    if ms.len() == 0 {
        seq![]
    } else {
        let prev = advance_matches(pats, ms.drop_last(), r);
        let m = ms.last();
        if continues_with(pats, m, r) {
            prev.push((m.0, (m.1 + 1) as usize))
        } else {
            prev
        }
    }
}

/// The patterns among the first `n` that begin with `r`, one byte matched.
pub open spec fn starting_matches(pats: Seq<Seq<u8>>, r: u8, n: nat) -> Seq<(usize, usize)>
    decreases n,
{
    if n == 0 {
        seq![]
    } else {
        let prev = starting_matches(pats, r, (n - 1) as nat);
        if pats[n - 1].len() > 0 && pats[n - 1][0] == r {
            prev.push(((n - 1) as usize, 1usize))
        } else {
            prev
        }
    }
}

/// Some waiting byte has a pattern that `r` completes.
pub open spec fn completes(pats: Seq<Seq<u8>>, outbuf: Seq<(u8, Vec<(usize, usize)>)>, r: u8) -> bool {
    exists|i: int, j: int|
        0 <= i < outbuf.len() && 0 <= j < outbuf[i].1@.len() && continues_with(
            pats,
            #[trigger] outbuf[i].1@[j],
            r,
        ) && pats[outbuf[i].1@[j].0 as int].len() == outbuf[i].1@[j].1 + 1
}

/// The waiting bytes after `r` is read: every partial match that `r`
/// continues moves on, the others are dropped, and `r` joins at the back
/// with the patterns that begin with it.
pub open spec fn absorbed(pats: Seq<Seq<u8>>, outbuf: Seq<(u8, Vec<(usize, usize)>)>, r: u8) -> Seq<
    (u8, Seq<(usize, usize)>),
> {
    Seq::new(
        outbuf.len(),
        |i: int| (outbuf[i].0, advance_matches(pats, outbuf[i].1@, r)),
    ).push((r, starting_matches(pats, r, pats.len())))
}

/// The bytes of the waiting entries.
pub open spec fn entry_bytes(entries: Seq<(u8, Seq<(usize, usize)>)>) -> Seq<u8> {
    Seq::new(entries.len(), |i: int| entries[i].0)
}

/// The candidates that have byte `b` at position `i`.
pub open spec fn agreeing(pats: Seq<Seq<u8>>, cands: Seq<usize>, b: u8, i: nat) -> Seq<usize>
    decreases cands.len(),
{
    if cands.len() == 0 {
        seq![]
    } else {
        let prev = agreeing(pats, cands.drop_last(), b, i);
        let c = cands.last();
        if i < pats[c as int].len() && pats[c as int][i as int] == b {
            prev.push(c)
        } else {
            prev
        }
    }
}

/// Narrows the candidates position by position along `bytes`, from `i` on,
/// stopping as soon as one is left.
pub open spec fn narrow(pats: Seq<Seq<u8>>, cands: Seq<usize>, bytes: Seq<u8>, i: nat) -> Seq<usize>
    decreases bytes.len() - i,
{
    if i >= bytes.len() {
        cands
    } else {
        let next = agreeing(pats, cands, bytes[i as int], i);
        if next.len() == 1 {
            next
        } else {
            narrow(pats, next, bytes, i + 1)
        }
    }
}

/// All replacements, as candidates.
pub open spec fn all_candidates(n: nat) -> Seq<usize> {
    Seq::new(n, |i: int| i as usize)
}

/// The replacement picked out from the front of the waiting bytes, if any.
pub open spec fn picked(pats: Seq<Seq<u8>>, entries: Seq<(u8, Seq<(usize, usize)>)>) -> Option<usize> {
    let cands = narrow(pats, all_candidates(pats.len()), entry_bytes(entries), 0);
    if cands.len() == 0 {
        None
    } else {
        Some(cands[0])
    }
}

/// The waiting entries after replacement `c` replaced the bytes of its
/// pattern at the front.
pub open spec fn replaced_entries(
    reps: Seq<(Vec<u8>, Vec<u8>)>,
    entries: Seq<(u8, Seq<(usize, usize)>)>,
    c: usize,
) -> Seq<(u8, Seq<(usize, usize)>)> {
    Seq::new(reps[c as int].1@.len(), |i: int| (reps[c as int].1@[i], Seq::<(usize, usize)>::empty()))
        + entries.skip(reps[c as int].0@.len() as int)
}

/// How many entries at the front have no pattern in play.
pub open spec fn settled_count(entries: Seq<(u8, Seq<(usize, usize)>)>) -> nat
    decreases entries.len(),
{
    if entries.len() == 0 || entries[0].1.len() > 0 {
        0
    } else {
        1 + settled_count(entries.drop_first())
    }
}

/// The result of one byte passing the bridge.
pub enum BridgeStep {
    /// These bytes go out.
    Forward(Vec<u8>),
    /// A pattern completed but no replacement agrees with the waiting bytes:
    /// the bridge stops.
    Stop,
}

/// The two-stage outcome of a byte: the entries after it was absorbed, and
/// whether a pattern completed.
pub open spec fn absorb_outcome(
    reps: Seq<(Vec<u8>, Vec<u8>)>,
    outbuf: Seq<(u8, Vec<(usize, usize)>)>,
    r: u8,
) -> (Seq<(u8, Seq<(usize, usize)>)>, bool) {
    (absorbed(pattern_view(reps), outbuf, r), completes(pattern_view(reps), outbuf, r))
}

/// Applying the replacement, if one completed, keeps within the waiting
/// bytes (a longer pattern would make the drop fail).
pub open spec fn step_fits(
    reps: Seq<(Vec<u8>, Vec<u8>)>,
    outbuf: Seq<(u8, Vec<(usize, usize)>)>,
    r: u8,
) -> bool {
    let (entries, done) = absorb_outcome(reps, outbuf, r);
    done ==> match picked(pattern_view(reps), entries) {
        Some(c) => reps[c as int].0@.len() <= entries.len(),
        None => true,
    }
}

/// The entries, before the settled ones go out, after one byte.
pub open spec fn before_flush(
    reps: Seq<(Vec<u8>, Vec<u8>)>,
    outbuf: Seq<(u8, Vec<(usize, usize)>)>,
    r: u8,
) -> Option<Seq<(u8, Seq<(usize, usize)>)>> {
    let (entries, done) = absorb_outcome(reps, outbuf, r);
    if !done {
        Some(entries)
    } else {
        match picked(pattern_view(reps), entries) {
            Some(c) => Some(replaced_entries(reps, entries, c)),
            None => None,
        }
    }
}

/// The view of the waiting entries.
pub open spec fn outbuf_view(outbuf: Seq<(u8, Vec<(usize, usize)>)>) -> Seq<(u8, Seq<(usize, usize)>)> {
    Seq::new(outbuf.len(), |i: int| (outbuf[i].0, outbuf[i].1@))
}

/// The replacer between two connections.
pub struct ReplaceBridge {
    /// Pairs of pattern and replacement, tried in order.
    pub replacements: Vec<(Vec<u8>, Vec<u8>)>,
    /// Bytes waiting to go out, each with the partial matches begun at it.
    pub outbuf: VecDeque<(u8, Vec<(usize, usize)>)>,
}

impl ReplaceBridge {
    /// Every partial match names a replacement and stays within its pattern.
    pub open spec fn wf(&self) -> bool {
        forall|i: int, j: int|
            0 <= i < self.outbuf@.len() && 0 <= j < self.outbuf@[i].1@.len() ==> {
                let m = #[trigger] self.outbuf@[i].1@[j];
                m.0 < self.replacements@.len() && m.1 <= self.replacements@[m.0 as int].0@.len()
            }
    }

    /// A bridge with nothing waiting.
    pub fn new(replacements: Vec<(Vec<u8>, Vec<u8>)>) -> (b: ReplaceBridge)
        ensures
            b.wf(),
            b.replacements@ == replacements@,
            b.outbuf@.len() == 0,
    {
        ReplaceBridge { replacements, outbuf: VecDeque::new() }
    }

    /// Reads byte `r` into the waiting entries; says whether it completed
    /// a pattern.
    pub fn absorb(&mut self, r: u8) -> (done: bool)
        requires
            old(self).wf(),
        ensures
            final(self).wf(),
            final(self).replacements == old(self).replacements,
            outbuf_view(final(self).outbuf@) == absorbed(
                pattern_view(old(self).replacements@),
                old(self).outbuf@,
                r,
            ),
            done == completes(pattern_view(old(self).replacements@), old(self).outbuf@, r),
    {
        let ghost pats = pattern_view(self.replacements@);
        let ghost old_out = self.outbuf@;
        let n = self.outbuf.len();
        let mut next: VecDeque<(u8, Vec<(usize, usize)>)> = VecDeque::new();
        let mut done = false;
        for i in 0..n
            invariant
                n == old_out.len(),
                self.outbuf@ == old_out,
                self.wf(),
                pats == pattern_view(self.replacements@),
                next@.len() == i,
                forall|k: int|
                    0 <= k < i ==> (#[trigger] next@[k]).0 == old_out[k].0 && next@[k].1@
                        == advance_matches(pats, old_out[k].1@, r),
                forall|k: int, j: int|
                    0 <= k < i && 0 <= j < next@[k].1@.len() ==> {
                        let m = #[trigger] next@[k].1@[j];
                        m.0 < self.replacements@.len() && m.1 <= self.replacements@[m.0 as int].0@.len()
                    },
                done <==> exists|k: int, j: int|
                    0 <= k < i && 0 <= j < old_out[k].1@.len() && continues_with(
                        pats,
                        #[trigger] old_out[k].1@[j],
                        r,
                    ) && pats[old_out[k].1@[j].0 as int].len() == old_out[k].1@[j].1 + 1,
        {
            let entry = &self.outbuf[i];
            let (moved, complete) = advance(&self.replacements, &entry.1, r);
            if complete {
                done = true;
            }
            next.push_back((entry.0, moved));
        }
        let starts = starting(&self.replacements, r);
        next.push_back((r, starts));
        proof {
            assert(outbuf_view(next@) =~= absorbed(pats, old_out, r));
        }
        self.outbuf = next;
        done
    }
}

impl ReplaceBridge {
    /// Picks out, from the front of the waiting bytes, the replacement
    /// whose pattern they spell, if one agrees.
    pub fn pick(&self) -> (c: Option<usize>)
        ensures
            c == picked(pattern_view(self.replacements@), outbuf_view(self.outbuf@)),
            c matches Some(i) ==> i < self.replacements@.len(),
    {
        let ghost pats = pattern_view(self.replacements@);
        let ghost bytes = entry_bytes(outbuf_view(self.outbuf@));
        let n = self.replacements.len();
        let mut cands: Vec<usize> = Vec::new();
        for i in 0..n
            invariant
                cands@ == all_candidates(i as nat),
        {
            cands.push(i);
            assert(cands@ =~= all_candidates((i + 1) as nat));
        }
        let len = self.outbuf.len();
        let mut i: usize = 0;
        while i < len
            invariant
                len == bytes.len(),
                pats == pattern_view(self.replacements@),
                bytes == entry_bytes(outbuf_view(self.outbuf@)),
                n == self.replacements@.len(),
                i <= len,
                forall|j: int| 0 <= j < cands@.len() ==> #[trigger] cands@[j] < n,
                narrow(pats, cands@, bytes, i as nat) == narrow(pats, all_candidates(n as nat), bytes, 0),
            decreases len - i,
        {
            let b = self.outbuf[i].0;
            let next = agree(&self.replacements, &cands, b, i);
            if next.len() == 1 {
                return Some(next[0]);
            }
            cands = next;
            i = i + 1;
        }
        if cands.len() == 0 {
            None
        } else {
            Some(cands[0])
        }
    }

    /// Puts replacement `c` in place of the bytes of its pattern at the
    /// front of the waiting bytes.
    pub fn apply_replacement(&mut self, c: usize)
        requires
            old(self).wf(),
            c < old(self).replacements@.len(),
            old(self).replacements@[c as int].0@.len() <= old(self).outbuf@.len(),
        ensures
            final(self).wf(),
            final(self).replacements == old(self).replacements,
            outbuf_view(final(self).outbuf@) == replaced_entries(
                old(self).replacements@,
                outbuf_view(old(self).outbuf@),
                c,
            ),
    {
        let ghost old_out = self.outbuf@;
        let plen = self.replacements[c].0.len();
        let mut tail = self.outbuf.split_off(plen);
        let repl = &self.replacements[c].1;
        let mut fresh: VecDeque<(u8, Vec<(usize, usize)>)> = VecDeque::new();
        for i in 0..repl.len()
            invariant
                fresh@.len() == i,
                forall|k: int|
                    0 <= k < i ==> (#[trigger] fresh@[k]).0 == repl@[k] && fresh@[k].1@.len() == 0,
        {
            fresh.push_back((repl[i], Vec::new()));
        }
        let ghost tail_view = tail@;
        assert(tail_view == old_out.subrange(plen as int, old_out.len() as int));
        assert(repl@ == old(self).replacements@[c as int].1@);
        fresh.append(&mut tail);
        self.outbuf = fresh;
        proof {
            let rv = outbuf_view(self.outbuf@);
            let ev = replaced_entries(old(self).replacements@, outbuf_view(old_out), c);
            assert(rv.len() == ev.len());
            assert forall|i: int| 0 <= i < rv.len() implies rv[i] == ev[i] by {
                if i < repl@.len() {
                    assert(self.outbuf@[i] == fresh@[i]);
                    assert(fresh@[i].1@ =~= Seq::<(usize, usize)>::empty());
                } else {
                    assert(self.outbuf@[i] == tail_view[i - repl@.len()]);
                }
            }
            assert(outbuf_view(self.outbuf@) =~= replaced_entries(
                old(self).replacements@,
                outbuf_view(old_out),
                c,
            ));
            assert forall|i: int, j: int|
                0 <= i < self.outbuf@.len() && 0 <= j < self.outbuf@[i].1@.len() implies {
                    let m = #[trigger] self.outbuf@[i].1@[j];
                    m.0 < self.replacements@.len() && m.1 <= self.replacements@[m.0 as int].0@.len()
                } by {
                if i >= repl@.len() {
                    assert(self.outbuf@[i] == old_out[i - repl@.len() + plen]);
                }
            }
        }
    }

    /// Sends out the entries at the front that have no pattern in play.
    pub fn flush(&mut self) -> (out: Vec<u8>)
        requires
            old(self).wf(),
        ensures
            final(self).wf(),
            final(self).replacements == old(self).replacements,
            out@ == entry_bytes(
                outbuf_view(old(self).outbuf@).take(settled_count(outbuf_view(old(self).outbuf@)) as int),
            ),
            outbuf_view(final(self).outbuf@) == outbuf_view(old(self).outbuf@).skip(
                settled_count(outbuf_view(old(self).outbuf@)) as int,
            ),
    {
        let ghost view = outbuf_view(self.outbuf@);
        let len = self.outbuf.len();
        let mut k: usize = 0;
        while k < len && self.outbuf[k].1.len() == 0
            invariant
                k <= len,
                len == view.len(),
                view == outbuf_view(self.outbuf@),
                forall|j: int| 0 <= j < k ==> (#[trigger] view[j]).1.len() == 0,
            decreases len - k,
        {
            k = k + 1;
        }
        proof {
            lemma_settled_prefix(view, k as nat);
            if k < len {
                assert(view.skip(k as int)[0] == view[k as int]);
            }
        }
        let rest = self.outbuf.split_off(k);
        let mut out: Vec<u8> = Vec::new();
        for i in 0..k
            invariant
                k == self.outbuf@.len(),
                k <= view.len(),
                view.take(k as int) == outbuf_view(self.outbuf@),
                out@ == entry_bytes(view.take(k as int)).take(i as int),
        {
            out.push(self.outbuf[i].0);
            assert(out@ =~= entry_bytes(view.take(k as int)).take(i + 1));
        }
        proof {
            assert(view.take(k as int) =~= outbuf_view(self.outbuf@));
            assert(out@ =~= entry_bytes(view.take(k as int)));
        }
        self.outbuf = rest;
        proof {
            assert(outbuf_view(self.outbuf@) =~= view.skip(k as int));
        }
        out
    }

    /// One byte through the bridge, or `None` when the replacement picked
    /// out is longer than the waiting bytes (its bytes cannot be dropped).
    pub fn checked_step(&mut self, r: u8) -> (res: Option<BridgeStep>)
        requires
            old(self).wf(),
        ensures
            final(self).wf(),
            final(self).replacements == old(self).replacements,
            res is None <==> !step_fits(old(self).replacements@, old(self).outbuf@, r),
            res is Some ==> step_result(old(self).replacements@, old(self).outbuf@, r, res->Some_0, outbuf_view(final(self).outbuf@)),
    {
        let ghost reps = self.replacements@;
        let ghost old_out = self.outbuf@;
        let done = self.absorb(r);
        if done {
            match self.pick() {
                None => {
                    return Some(BridgeStep::Stop);
                },
                Some(c) => {
                    if self.replacements[c].0.len() > self.outbuf.len() {
                        return None;
                    }
                    self.apply_replacement(c);
                },
            }
        }
        let out = self.flush();
        Some(BridgeStep::Forward(out))
    }

    /// One byte through the bridge: the bytes that go out, or the stop when a
    /// completed pattern matches no replacement.
    pub fn step(&mut self, r: u8) -> (res: BridgeStep)
        requires
            old(self).wf(),
            step_fits(old(self).replacements@, old(self).outbuf@, r),
        ensures
            final(self).wf(),
            final(self).replacements == old(self).replacements,
            step_result(old(self).replacements@, old(self).outbuf@, r, res, outbuf_view(final(self).outbuf@)),
    {
        match self.checked_step(r) {
            Some(res) => res,
            None => {
                proof {
                    assert(false);
                }
                BridgeStep::Stop
            },
        }
    }
}

/// `step` is what one byte `r` makes of the waiting bytes `outbuf`, and
/// `after` the entries left waiting.
pub open spec fn step_result(
    reps: Seq<(Vec<u8>, Vec<u8>)>,
    outbuf: Seq<(u8, Vec<(usize, usize)>)>,
    r: u8,
    step: BridgeStep,
    after: Seq<(u8, Seq<(usize, usize)>)>,
) -> bool {
    match before_flush(reps, outbuf, r) {
        None => step is Stop && after == absorbed(pattern_view(reps), outbuf, r),
        Some(e) => step matches BridgeStep::Forward(out) && out@ == entry_bytes(
            e.take(settled_count(e) as int),
        ) && after == e.skip(settled_count(e) as int),
    }
}

/// No more entries settle than there are.
proof fn lemma_settled_bound(entries: Seq<(u8, Seq<(usize, usize)>)>)
    ensures
        settled_count(entries) <= entries.len(),
        settled_count(entries) < entries.len() ==> entries[settled_count(entries) as int].1.len() > 0,
    decreases entries.len(),
{
    if entries.len() > 0 && entries[0].1.len() == 0 {
        lemma_settled_bound(entries.drop_first());
        if settled_count(entries) < entries.len() {
            assert(entries.drop_first()[settled_count(entries.drop_first()) as int] == entries[settled_count(
                entries,
            ) as int]);
        }
    }
}

/// What goes out and what stays waiting, together, are the entries' bytes.
proof fn lemma_split_bytes(entries: Seq<(u8, Seq<(usize, usize)>)>, k: nat)
    requires
        k <= entries.len(),
    ensures
        entry_bytes(entries.take(k as int)) + entry_bytes(entries.skip(k as int)) == entry_bytes(entries),
{
    assert(entry_bytes(entries.take(k as int)) + entry_bytes(entries.skip(k as int)) =~= entry_bytes(
        entries,
    ));
}

/// When the byte read completes no pattern, no byte is lost, added or
/// moved: the bytes that go out, followed by those left waiting, are the
/// bytes that were waiting followed by the new one.
pub proof fn lemma_bridge_conserves_bytes(
    reps: Seq<(Vec<u8>, Vec<u8>)>,
    outbuf: Seq<(u8, Vec<(usize, usize)>)>,
    r: u8,
)
    requires
        !completes(pattern_view(reps), outbuf, r),
    ensures
        before_flush(reps, outbuf, r) matches Some(e) && entry_bytes(e.take(settled_count(e) as int))
            + entry_bytes(e.skip(settled_count(e) as int)) == entry_bytes(outbuf_view(outbuf)).push(
            r,
        ),
{
    let e = absorbed(pattern_view(reps), outbuf, r);
    lemma_settled_bound(e);
    lemma_split_bytes(e, settled_count(e));
    assert(entry_bytes(e) =~= entry_bytes(outbuf_view(outbuf)).push(r));
}

/// When the byte read completes a pattern and a replacement is picked out,
/// its pattern's bytes at the front give way to the replacement: what goes
/// out, followed by what stays waiting, is the replacement followed by the
/// waiting bytes (the new one included) past the pattern.
pub proof fn lemma_bridge_replaces(
    reps: Seq<(Vec<u8>, Vec<u8>)>,
    outbuf: Seq<(u8, Vec<(usize, usize)>)>,
    r: u8,
    c: usize,
)
    requires
        completes(pattern_view(reps), outbuf, r),
        picked(pattern_view(reps), absorbed(pattern_view(reps), outbuf, r)) == Some(c),
        step_fits(reps, outbuf, r),
        c < reps.len(),
    ensures
        before_flush(reps, outbuf, r) matches Some(e) && entry_bytes(e.take(settled_count(e) as int))
            + entry_bytes(e.skip(settled_count(e) as int)) == reps[c as int].1@ + entry_bytes(
            outbuf_view(outbuf),
        ).push(r).skip(reps[c as int].0@.len() as int),
{
    let a = absorbed(pattern_view(reps), outbuf, r);
    let e = replaced_entries(reps, a, c);
    lemma_settled_bound(e);
    lemma_split_bytes(e, settled_count(e));
    assert(entry_bytes(a) =~= entry_bytes(outbuf_view(outbuf)).push(r));
    assert(entry_bytes(e) =~= reps[c as int].1@ + entry_bytes(a).skip(reps[c as int].0@.len() as int));
}

/// The bytes that a run of steps sends out, in order.
pub open spec fn forwarded_bytes(steps: Seq<BridgeStep>) -> Seq<u8>
    decreases steps.len(),
{
    if steps.len() == 0 {
        Seq::empty()
    } else {
        forwarded_bytes(steps.drop_last()) + match steps.last() {
            BridgeStep::Forward(out) => out@,
            BridgeStep::Stop => Seq::empty(),
        }
    }
}

/// Over a run of steps in which no byte read completes a pattern, the
/// bridge hands the stream on unchanged: what all the steps sent out,
/// followed by what is left waiting, is what was waiting at the start
/// followed by every byte read.  `bufs[i]` is the waiting entries before
/// byte `input[i]`, and `steps[i]` what that byte's step returned.
pub proof fn lemma_bridge_run_passes_through(
    reps: Seq<(Vec<u8>, Vec<u8>)>,
    bufs: Seq<Seq<(u8, Vec<(usize, usize)>)>>,
    input: Seq<u8>,
    steps: Seq<BridgeStep>,
)
    requires
        bufs.len() == input.len() + 1,
        steps.len() == input.len(),
        forall|i: int|
            0 <= i < input.len() ==> !completes(pattern_view(reps), bufs[i], #[trigger] input[i]) && step_result(
                reps,
                bufs[i],
                input[i],
                steps[i],
                outbuf_view(bufs[i + 1]),
            ),
    ensures
        forwarded_bytes(steps) + entry_bytes(outbuf_view(bufs.last())) == entry_bytes(outbuf_view(bufs[0]))
            + input,
    decreases input.len(),
{
    let n = input.len() as int;
    if n == 0 {
        assert(entry_bytes(outbuf_view(bufs[0])) + input =~= entry_bytes(outbuf_view(bufs[0])));
        assert(forwarded_bytes(steps) + entry_bytes(outbuf_view(bufs.last())) =~= entry_bytes(
            outbuf_view(bufs.last()),
        ));
    } else {
        let pb = bufs.drop_last();
        let pi = input.drop_last();
        let ps = steps.drop_last();
        assert forall|i: int| 0 <= i < pi.len() implies !completes(pattern_view(reps), pb[i], #[trigger] pi[i])
            && step_result(reps, pb[i], pi[i], ps[i], outbuf_view(pb[i + 1])) by {
            assert(input[i] == pi[i]);
        }
        lemma_bridge_run_passes_through(reps, pb, pi, ps);
        let r = input[n - 1];
        assert(!completes(pattern_view(reps), bufs[n - 1], input[n - 1]));
        assert(step_result(reps, bufs[n - 1], input[n - 1], steps[n - 1], outbuf_view(bufs[n])));
        lemma_bridge_conserves_bytes(reps, bufs[n - 1], r);
        let e = absorbed(pattern_view(reps), bufs[n - 1], r);
        assert(before_flush(reps, bufs[n - 1], r) == Some(e));
        assert(pb.last() == bufs[n - 1]);
        assert(entry_bytes(outbuf_view(bufs[0])) + input =~= entry_bytes(outbuf_view(bufs[0])) + pi + seq![r]);
        if let BridgeStep::Forward(out) = steps.last() {
            assert(out@ + entry_bytes(outbuf_view(bufs.last())) == entry_bytes(outbuf_view(bufs[n - 1])).push(r));
            assert(forwarded_bytes(steps) + entry_bytes(outbuf_view(bufs.last())) =~= forwarded_bytes(ps) + (
            out@ + entry_bytes(outbuf_view(bufs.last()))));
            assert(entry_bytes(outbuf_view(bufs[n - 1])).push(r) =~= entry_bytes(outbuf_view(bufs[n - 1])) + seq![
                r,
            ]);
        }
    }
}

/// After every step the first waiting byte, if any, still has a pattern in
/// play: nothing is held back for no reason.
pub proof fn lemma_bridge_holds_only_pending(
    reps: Seq<(Vec<u8>, Vec<u8>)>,
    outbuf: Seq<(u8, Vec<(usize, usize)>)>,
    r: u8,
)
    ensures
        before_flush(reps, outbuf, r) matches Some(e) ==> {
            let after = e.skip(settled_count(e) as int);
            after.len() == 0 || after[0].1.len() > 0
        },
{
    if let Some(e) = before_flush(reps, outbuf, r) {
        lemma_settled_bound(e);
    }
}

/// An idle bridge hands a byte that begins no pattern straight on and stays
/// idle.
pub proof fn lemma_idle_pass_through(reps: Seq<(Vec<u8>, Vec<u8>)>, r: u8)
    requires
        forall|i: int| 0 <= i < reps.len() ==> (#[trigger] reps[i].0@).len() == 0 || reps[i].0@[0] != r,
    ensures
        step_fits(reps, Seq::empty(), r),
        before_flush(reps, Seq::empty(), r) matches Some(e) && entry_bytes(
            e.take(settled_count(e) as int),
        ) == seq![r] && e.skip(settled_count(e) as int).len() == 0,
{
    let pats = pattern_view(reps);
    lemma_no_starts(pats, r, pats.len());
    let e = absorbed(pats, Seq::empty(), r);
    assert(e.len() == 1);
    assert(e[0].1.len() == 0);
    assert(settled_count(e.drop_first()) == 0);
    assert(settled_count(e) == 1);
    assert(entry_bytes(e.take(1)) =~= seq![r]);
}

/// No pattern begins with `r`, so none starts matching at it.
proof fn lemma_no_starts(pats: Seq<Seq<u8>>, r: u8, n: nat)
    requires
        n <= pats.len(),
        forall|i: int| 0 <= i < pats.len() ==> (#[trigger] pats[i]).len() == 0 || pats[i][0] != r,
    ensures
        starting_matches(pats, r, n).len() == 0,
    decreases n,
{
    if n > 0 {
        lemma_no_starts(pats, r, (n - 1) as nat);
    }
}

/// The first `k` entries having no pattern in play, they all count as
/// settled before the rest is looked at.
proof fn lemma_settled_prefix(entries: Seq<(u8, Seq<(usize, usize)>)>, k: nat)
    requires
        k <= entries.len(),
        forall|j: int| 0 <= j < k ==> (#[trigger] entries[j]).1.len() == 0,
    ensures
        settled_count(entries) == k + settled_count(entries.skip(k as int)),
    decreases k,
{
    if k > 0 {
        let rest = entries.drop_first();
        assert forall|j: int| 0 <= j < k - 1 implies (#[trigger] rest[j]).1.len() == 0 by {
            assert(rest[j] == entries[j + 1]);
        }
        lemma_settled_prefix(rest, (k - 1) as nat);
        assert(rest.skip(k - 1) =~= entries.skip(k as int));
    } else {
        assert(entries.skip(0) =~= entries);
    }
}

/// The candidates that have byte `b` at position `i`.
fn agree(reps: &Vec<(Vec<u8>, Vec<u8>)>, cands: &Vec<usize>, b: u8, i: usize) -> (res: Vec<usize>)
    requires
        forall|j: int| 0 <= j < cands@.len() ==> #[trigger] cands@[j] < reps@.len(),
    ensures
        res@ == agreeing(pattern_view(reps@), cands@, b, i as nat),
        forall|j: int| 0 <= j < res@.len() ==> #[trigger] res@[j] < reps@.len(),
{
    let ghost pats = pattern_view(reps@);
    let mut out: Vec<usize> = Vec::new();
    for j in 0..cands.len()
        invariant
            pats == pattern_view(reps@),
            forall|k: int| 0 <= k < cands@.len() ==> #[trigger] cands@[k] < reps@.len(),
            out@ == agreeing(pats, cands@.take(j as int), b, i as nat),
            forall|k: int| 0 <= k < out@.len() ==> #[trigger] out@[k] < reps@.len(),
    {
        let c = cands[j];
        let pat = &reps[c].0;
        proof {
            assert(cands@.take(j + 1).drop_last() =~= cands@.take(j as int));
            assert(pat@ == pats[c as int]);
        }
        if i < pat.len() && pat[i] == b {
            out.push(c);
        }
    }
    proof {
        assert(cands@.take(cands@.len() as int) =~= cands@);
    }
    out
}

/// The partial matches that `r` continues, moved on by one byte, and
/// whether one of them is complete with it.
fn advance(reps: &Vec<(Vec<u8>, Vec<u8>)>, ms: &Vec<(usize, usize)>, r: u8) -> (res: (
    Vec<(usize, usize)>,
    bool,
))
    requires
        forall|j: int|
            0 <= j < ms@.len() ==> (#[trigger] ms@[j]).0 < reps@.len() && ms@[j].1
                <= reps@[ms@[j].0 as int].0@.len(),
    ensures
        res.0@ == advance_matches(pattern_view(reps@), ms@, r),
        forall|j: int|
            0 <= j < res.0@.len() ==> (#[trigger] res.0@[j]).0 < reps@.len() && res.0@[j].1
                <= reps@[res.0@[j].0 as int].0@.len(),
        res.1 <==> exists|j: int|
            0 <= j < ms@.len() && continues_with(pattern_view(reps@), #[trigger] ms@[j], r)
                && pattern_view(reps@)[ms@[j].0 as int].len() == ms@[j].1 + 1,
{
    let ghost pats = pattern_view(reps@);
    let mut out: Vec<(usize, usize)> = Vec::new();
    let mut complete = false;
    for j in 0..ms.len()
        invariant
            pats == pattern_view(reps@),
            forall|k: int|
                0 <= k < ms@.len() ==> (#[trigger] ms@[k]).0 < reps@.len() && ms@[k].1
                    <= reps@[ms@[k].0 as int].0@.len(),
            out@ == advance_matches(pats, ms@.take(j as int), r),
            forall|k: int|
                0 <= k < out@.len() ==> (#[trigger] out@[k]).0 < reps@.len() && out@[k].1
                    <= reps@[out@[k].0 as int].0@.len(),
            complete <==> exists|k: int|
                0 <= k < j && continues_with(pats, #[trigger] ms@[k], r) && pats[ms@[k].0 as int].len()
                    == ms@[k].1 + 1,
    {
        let m = ms[j];
        let pat = &reps[m.0].0;
        proof {
            assert(ms@.take(j + 1).drop_last() =~= ms@.take(j as int));
            assert(pat@ == pats[m.0 as int]);
        }
        if m.1 < pat.len() && pat[m.1] == r {
            if pat.len() - m.1 == 1 {
                complete = true;
            }
            out.push((m.0, m.1 + 1));
        }
    }
    proof {
        assert(ms@.take(ms@.len() as int) =~= ms@);
    }
    (out, complete)
}

/// The patterns that begin with `r`, one byte matched.
fn starting(reps: &Vec<(Vec<u8>, Vec<u8>)>, r: u8) -> (res: Vec<(usize, usize)>)
    ensures
        res@ == starting_matches(pattern_view(reps@), r, reps@.len()),
        forall|j: int|
            0 <= j < res@.len() ==> (#[trigger] res@[j]).0 < reps@.len() && res@[j].1
                <= reps@[res@[j].0 as int].0@.len(),
{
    let ghost pats = pattern_view(reps@);
    let mut out: Vec<(usize, usize)> = Vec::new();
    for i in 0..reps.len()
        invariant
            pats == pattern_view(reps@),
            out@ == starting_matches(pats, r, i as nat),
            forall|j: int|
                0 <= j < out@.len() ==> (#[trigger] out@[j]).0 < i && out@[j].1
                    <= reps@[out@[j].0 as int].0@.len(),
    {
        let pat = &reps[i].0;
        proof {
            assert(pat@ == pats[i as int]);
        }
        if pat.len() > 0 && pat[0] == r {
            out.push((i, 1));
        }
    }
    out
}

} // verus!
