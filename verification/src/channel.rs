//! The channel through which the dashboard gets its samples.
use crate::sample::{MetricSample, SampleModel};
use crossbeam_channel::{unbounded, Receiver, Sender, TryRecvError};
use vstd::prelude::*;

verus! {

/// The sending end of a channel, as `crossbeam_channel` has it.
#[verifier::external_type_specification]
#[verifier::external_body]
#[verifier::reject_recursive_types(T)]
pub struct ExSender<T>(Sender<T>);

/// Why nothing was received, as `crossbeam_channel` has it.
#[verifier::external_type_specification]
#[verifier::external_body]
pub struct ExTryRecvError(TryRecvError);

/// The one receiving end of a channel of `crossbeam_channel`. Nothing else can
/// take samples out of the channel: the end is private, and never cloned.
#[verifier::external_body]
pub struct SampleReceiver {
    receiver: Receiver<MetricSample>,
}

/// The samples that are in the channel, oldest first, as it stood when it was
/// last looked at. Samples that are sent later come behind them.
pub uninterp spec fn queued(receiver: SampleReceiver) -> Seq<SampleModel>;

/// The samples that have come out of the channel through this end, in their order.
pub uninterp spec fn received(receiver: SampleReceiver) -> Seq<SampleModel>;

/// Whether the two are the ends of one channel.
pub uninterp spec fn linked(sender: Sender<MetricSample>, receiver: SampleReceiver) -> bool;

/// Calls `crossbeam_channel::unbounded`: the two ends are those of one channel,
/// there is nothing in it yet, and nothing has come out of it.
#[verifier::external_body]
fn new_channel() -> (ends: (Sender<MetricSample>, SampleReceiver))
    ensures
        linked(ends.0, ends.1),
        queued(ends.1).len() == 0,
        received(ends.1).len() == 0,
{
    let (sender, receiver) = unbounded();
    (sender, SampleReceiver { receiver })
}

/// Calls `Receiver::try_recv`, which takes out the oldest sample, or finds the
/// channel empty. The sample handed over is the one that has come out; where there
/// is none, nothing has. What was in the channel before stays in front of what was
/// sent since: either the sample is the first of it, and the rest is still there,
/// or there was nothing. Nothing is claimed of samples that were sent since, as
/// that is up to other threads.
#[verifier::external_body]
fn try_receive(receiver: &mut SampleReceiver) -> (r: Result<MetricSample, TryRecvError>)
    ensures
        r matches Ok(sample) ==> queued(*old(receiver)).is_prefix_of(
            seq![sample@] + queued(*final(receiver)),
        ),
        r matches Ok(sample) ==> received(*final(receiver)) == received(*old(receiver)).push(
            sample@,
        ),
        r is Err ==> queued(*old(receiver)).len() == 0 && queued(*final(receiver)).len() == 0,
        r is Err ==> received(*final(receiver)) == received(*old(receiver)),
        forall|sender: Sender<MetricSample>| #[trigger]
            linked(sender, *final(receiver)) == linked(sender, *old(receiver)),
{
    receiver.receiver.try_recv()
}

/// The receiving end of the channel.
pub struct Inbox {
    receiver: SampleReceiver,
}

impl Inbox {
    /// The samples taken out so far, in their order.
    pub closed spec fn taken(self) -> Seq<SampleModel> {
        received(self.receiver)
    }

    /// The samples that wait to be taken out, as of the last look.
    pub closed spec fn waiting(self) -> Seq<SampleModel> {
        queued(self.receiver)
    }

    /// The samples that have come in so far, as of the last look.
    pub open spec fn arrived(self) -> Seq<SampleModel> {
        self.taken() + self.waiting()
    }

    /// Whether it is fed by what `sender` sends.
    pub closed spec fn fed_by(self, sender: Sender<MetricSample>) -> bool {
        linked(sender, self.receiver)
    }

    /// A new channel: an empty inbox, and the end that feeds it.
    pub fn new() -> (r: (Sender<MetricSample>, Inbox))
        ensures
            r.1.fed_by(r.0),
            r.1.taken().len() == 0,
            r.1.waiting().len() == 0,
    {
        let (sender, receiver) = new_channel();
        (sender, Inbox { receiver })
    }

    /// Takes out the next sample; `None` where none waits.
    pub fn take(&mut self) -> (r: Option<MetricSample>)
        ensures
            r matches Some(sample) ==> final(self).taken() == old(self).taken().push(sample@),
            r is None ==> {
                &&& final(self).taken() == old(self).taken()
                &&& old(self).waiting().len() == 0
                &&& final(self).waiting().len() == 0
            },
            old(self).arrived().is_prefix_of(final(self).arrived()),
            forall|sender: Sender<MetricSample>| #[trigger]
                final(self).fed_by(sender) == old(self).fed_by(sender),
    {
        match try_receive(&mut self.receiver) {
            Ok(sample) => {
                proof {
                    let before = old(self).waiting();
                    let after = seq![sample@] + self.waiting();
                    assert(self.arrived() =~= old(self).taken() + after);
                    assert(old(self).arrived() =~= self.arrived().take(
                        old(self).arrived().len() as int,
                    )) by {
                        assert(before == after.take(before.len() as int));
                    }
                }
                Some(sample)
            },
            Err(_) => None,
        }
    }
}

} // verus!
