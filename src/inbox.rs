//! The inbound channel of an environment: an unbounded first-in first-out
//! channel of effects whose sending and receiving ends are held together.
use vstd::prelude::*;

use crate::effect::Effect;

verus! {

/// Both ends of an unbounded channel of effects.
#[verifier::external_body]
pub struct Inbox {
    tx: crossbeam_channel::Sender<Effect>,
    rx: crossbeam_channel::Receiver<Effect>,
}

/// The effects in the channel, from the oldest to the newest.
pub uninterp spec fn inbox_items(q: Inbox) -> Seq<Effect>;

/// Relies on `crossbeam_channel::unbounded`: a new channel holds no message.
#[verifier::external_body]
pub(crate) fn new_inbox() -> (r: Inbox)
    ensures
        inbox_items(r) == Seq::<Effect>::empty(),
{
    let (tx, rx) = crossbeam_channel::unbounded();
    Inbox { tx, rx }
}

/// Relies on `crossbeam_channel::Sender::send` on an unbounded channel: the
/// message goes to the back and the call neither blocks nor fails, since the
/// receiving end is held in the same `Inbox` and so is never dropped first.
#[verifier::external_body]
pub(crate) fn inbox_push(q: &mut Inbox, e: Effect)
    ensures
        inbox_items(*final(q)) == inbox_items(*old(q)).push(e),
{
    let _ = q.tx.send(e);
}

/// Relies on `crossbeam_channel::Receiver::try_recv`: it takes the message at
/// the front, or reports an empty channel and takes nothing. The channel is
/// never disconnected, since the sending end is held in the same `Inbox`.
#[verifier::external_body]
pub(crate) fn inbox_pop(q: &mut Inbox) -> (r: Option<Effect>)
    ensures
        inbox_items(*old(q)).len() == 0 ==> r is None && inbox_items(*final(q)) == inbox_items(*old(q)),
        inbox_items(*old(q)).len() > 0 ==> r == Some(inbox_items(*old(q))[0]) && inbox_items(*final(q))
            == inbox_items(*old(q)).drop_first(),
{
    q.rx.try_recv().ok()
}

/// Relies on `crossbeam_channel::Receiver::len`: the number of messages in
/// the channel.
#[verifier::external_body]
pub(crate) fn inbox_len(q: &Inbox) -> (r: usize)
    ensures
        r == inbox_items(*q).len(),
{
    q.rx.len()
}

} // verus!
