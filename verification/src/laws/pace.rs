//! When samples are taken, and until when.

use crate::laws::pushes;
use crate::output;
use crate::output::OutputState;
use crate::sampler;
use crate::sampler::{Next, Received};
use crate::text;
use crate::zend;
use vstd::prelude::*;

verus! {

/// A sample that is taken no more than four intervals after the next is due is
/// followed by one an interval after it was due itself; one that is taken later is
/// followed by one an interval from then.
pub proof fn lemma_next_due(next: u64, interval: u64, now: u64)
    requires
        next + interval <= u64::MAX,
        now + interval <= u64::MAX,
    ensures
        now <= next + interval + 4 * interval ==> sampler::next_due(next, interval, now) == next
            + interval,
        now > next + interval + 4 * interval ==> sampler::next_due(next, interval, now) == now
            + interval,
{
    assert(interval * 4 == 4 * interval);
}

/// Times that the clock cannot show are the last one that it can.
pub proof fn lemma_last_time(t: int)
    ensures
        t > u64::MAX ==> sampler::at_most(t) == u64::MAX,
        0 <= t <= u64::MAX ==> sampler::at_most(t) == t,
{
}

/// A run that is to last some seconds has ended from that many seconds after its
/// start on; one that is not to end never has.
pub proof fn lemma_expired(start: u64, secs: u64, now: u64)
    ensures
        secs > 0 ==> (sampler::expired(start, Some(secs), now) <==> now >= start + secs
            * 1_000_000_000),
        !sampler::expired(start, None, now),
{
    pushes::lemma_due(start, now, secs);
}

/// A process stands before the URI in brackets; what is not known stays so, and
/// the method stays as it is.
pub proof fn lemma_annotated(pid: int, meta: crate::output::MetaView)
    ensures
        ({
            let after = sampler::annotated_meta(pid, meta);
            &&& meta.request_uri matches Some(uri) ==> after.request_uri == Some(
                seq!['[', 'p', 'i', 'd', ' '] + text::signed_decimal(pid) + seq![']', ' '] + uri,
            )
            &&& meta.request_uri is None ==> after.request_uri is None
            &&& after.request_method == meta.request_method
        }),
{
    reveal_strlit("[pid ");
    reveal_strlit("] ");
    assert("[pid "@ =~= seq!['[', 'p', 'i', 'd', ' ']);
    assert("] "@ =~= seq![']', ' ']);
}

/// A run of many processes ends when no sample will come any more; until then it
/// discovers anew from the time on that is set for it, if any, and waits before.
pub proof fn lemma_next(received: Received, due: Option<u64>, now: u64)
    ensures
        received is Disconnected <==> sampler::next_after(received, due, now) == Next::Stop,
        !(received is Disconnected) ==> (due matches Some(t) && now >= t <==> sampler::next_after(
            received,
            due,
            now,
        ) == Next::Rediscover),
{
}

/// The next discovery is as many seconds later as it is to be, and never if it is
/// never to be.
pub proof fn lemma_next_discovery(secs: u64, now: u64)
    ensures
        now + secs * 1_000_000_000 <= u64::MAX ==> sampler::next_discovery(Some(secs), now)
            == Some((now + secs * 1_000_000_000) as u64),
        sampler::next_discovery(None, now) is None,
{
}

/// A sample that comes of a process goes into the sink with its frames, and with
/// its process before the URI; nothing goes into it where none comes.
pub proof fn lemma_received(
    state: OutputState,
    received: Received,
    clock: u64,
    now_nanos: i64,
)
    ensures
        received matches Received::Sample(msg) ==> sampler::received_state(
            state,
            received,
            clock,
            now_nanos,
        ) == output::taken(state, zend::frames_view(msg.sample.frames@), clock, now_nanos)
            && sampler::received_output(state, received, clock, now_nanos) == Some(
            output::taken_output(
                state,
                zend::frames_view(msg.sample.frames@),
                sampler::annotated_meta(msg.pid as int, msg.sample.meta@),
                clock,
                now_nanos,
            ),
        ),
        !(received is Sample) ==> sampler::received_state(state, received, clock, now_nanos)
            == state && sampler::received_output(state, received, clock, now_nanos) is None,
{
}

} // verus!
