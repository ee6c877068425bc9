//! The replay of a capture against the PLC: what each logged pair asks for,
//! and the trigger that re-keys the rest of the capture once the PLC hands
//! out a new session key.

use crate::replace::{rpl_util, TriggerAction};
use vstd::prelude::*;

verus! {

/// What a logged tag asks of the replay.
pub enum ReplayStep {
    /// Tag 0xff: the capture is over.
    Stop,
    /// An even tag: send the byte to the PLC.
    Send,
    /// An odd tag: the PLC is expected to send the byte.
    Expect,
}

/// The step for a tag.
pub open spec fn step_for(tag: u8) -> ReplayStep {
    if tag == 0xff {
        ReplayStep::Stop
    } else if tag % 2 == 0 {
        ReplayStep::Send
    } else {
        ReplayStep::Expect
    }
}

/// What the replay does with a logged pair of this tag.
pub fn classify(tag: u8) -> (step: ReplayStep)
    ensures
        step == step_for(tag),
        tag == 0xff ==> step is Stop,
        tag != 0xff && tag % 2 == 0 ==> step is Send,
        tag != 0xff && tag % 2 == 1 ==> step is Expect,
{
    if tag == 0xff {
        ReplayStep::Stop
    } else if tag % 2 == 0 {
        ReplayStep::Send
    } else {
        ReplayStep::Expect
    }
}

/// The end marker 0xff stops the replay; every other tag is sent to the PLC
/// when it is even (a client's byte) and awaited from it when it is odd.
pub proof fn lemma_step_by_parity(tag: u8)
    ensures
        tag == 0xff ==> step_for(tag) is Stop,
        tag != 0xff ==> (step_for(tag) is Send <==> tag % 2 == 0),
        tag != 0xff ==> (step_for(tag) is Expect <==> tag % 2 == 1),
{
}

/// Each byte, in order, preceded by the field marker 0x04.
pub open spec fn marked(bytes: Seq<u8>) -> Seq<u8> {
    Seq::new(2 * bytes.len(), |i: int| if i % 2 == 0 { 4u8 } else { bytes[i / 2] })
}

/// The bytes at even positions.
pub open spec fn even_positions(bytes: Seq<u8>) -> Seq<u8> {
    Seq::new((bytes.len() + 1) / 2, |i: int| bytes[2 * i])
}

/// The bytes, each preceded by 0x04: the encoding of the key fields.
pub fn mark_bytes(bytes: &Vec<u8>) -> (out: Vec<u8>)
    requires
        bytes@.len() <= usize::MAX / 2,
    ensures
        out@ == marked(bytes@),
{
    let mut out: Vec<u8> = Vec::new();
    for i in 0..bytes.len()
        invariant
            bytes@.len() <= usize::MAX / 2,
            out@ == marked(bytes@.take(i as int)),
    {
        out.push(4);
        out.push(bytes[i]);
        assert(out@ =~= marked(bytes@.take(i + 1)));
    }
    assert(bytes@.take(bytes@.len() as int) =~= bytes@);
    out
}

/// The bytes at even positions, each preceded by 0x04: the key fields as
/// the capture holds them, read from the logged (tag, byte) stream.
pub fn mark_even_bytes(bytes: &Vec<u8>) -> (out: Vec<u8>)
    requires
        bytes@.len() < usize::MAX,
    ensures
        out@ == marked(even_positions(bytes@)),
{
    let mut evens: Vec<u8> = Vec::new();
    for j in 0..bytes.len()
        invariant
            evens@ == even_positions(bytes@.take(j as int)),
    {
        if j % 2 == 0 {
            evens.push(bytes[j]);
        }
        assert(evens@ =~= even_positions(bytes@.take(j + 1)));
    }
    assert(bytes@.take(bytes@.len() as int) =~= bytes@);
    mark_bytes(&evens)
}

/// The trigger that replaces the key fields `old_key` of the capture with
/// those of the new session, `new_key`.
pub fn rekey_trigger<M>(old_key: Vec<u8>, new_key: Vec<u8>) -> (trigger: (Vec<u8>, TriggerAction<M>))
    ensures
        trigger.0@ == old_key@,
        trigger.1 == (TriggerAction::<M>::Replace { target: old_key, repl: new_key }),
{
    rpl_util(old_key, new_key)
}

} // verus!
