//! Splitting one audio block at time-stamped events.
//!
//! The split is computed as a plan: the ordered list of audio segments and
//! events that a block's processing runs through. Segments are frame ranges of
//! the block; events are named by their index in the input.
use vstd::prelude::*;
use crate::audio::AudioBufferMut;
use crate::kernel::Event;

verus! {

/// One step of processing a block.
#[derive(Clone, Copy, Debug, PartialEq, Eq, Structural)]
pub enum EventOrAudio {
    /// Handle the event with this index in the input.
    Event(usize),
    /// Process the frames `[start, end)` of the block.
    Audio { start: usize, end: usize },
}

/// The frame up to which audio has been handed out after the first `k` events.
pub open spec fn cursor_after(times: Seq<i64>, k: nat) -> int
    decreases k,
{
    if k == 0 {
        0
    } else {
        let c = cursor_after(times, (k - 1) as nat);
        if times[k - 1] <= c {
            c
        } else {
            times[k - 1] as int
        }
    }
}

/// The steps taken for the first `k` events: each event fires at once when it
/// is not later than the cursor, else after the audio up to its time.
pub open spec fn steps_upto(times: Seq<i64>, k: nat) -> Seq<EventOrAudio>
    decreases k,
{
    if k == 0 {
        Seq::empty()
    } else {
        let c = cursor_after(times, (k - 1) as nat);
        let prev = steps_upto(times, (k - 1) as nat);
        let ev = EventOrAudio::Event((k - 1) as usize);
        if times[k - 1] <= c {
            prev.push(ev)
        } else {
            prev.push(EventOrAudio::Audio { start: c as usize, end: times[k - 1] as usize }).push(ev)
        }
    }
}

/// The whole plan for a block of `len` frames: the steps for every event,
/// then the trailing audio up to the end of the block.
pub open spec fn split_plan(len: int, times: Seq<i64>) -> Seq<EventOrAudio> {
    let c = cursor_after(times, times.len());
    steps_upto(times, times.len()).push(EventOrAudio::Audio { start: c as usize, end: len as usize })
}

/// Every event that lies after the cursor lies inside the block.
pub open spec fn times_in_block(len: int, times: Seq<i64>) -> bool {
    forall|i: int| 0 <= i < times.len() ==> #[trigger] times[i] <= 0 || times[i] < len
}

/// The times of a sequence of events.
pub open spec fn times_of<V>(events: Seq<Event<V>>) -> Seq<i64> {
    Seq::new(events.len(), |i: int| events[i].time)
}

/// What a block's processing calls back into: each event with its index,
/// and each audio segment between events (possibly empty) as a frame range
/// of the caller's view. The handler reaches the segment's samples through
/// `audio.slice(start, end)`.
pub trait BlockHandler<V, T> {
    /// Whether `after` is what this handler becomes when it handles the
    /// event with index `index`.
    spec fn handled_event(&self, index: usize, event: Event<V>, after: &Self) -> bool;

    /// Whether `after`, with the block going from `audio_before` to
    /// `audio_after`, is what running the frames `[start, end)` does.
    spec fn ran_audio(
        &self,
        start: usize,
        end: usize,
        audio_before: &AudioBufferMut<'_, '_, T>,
        audio_after: &AudioBufferMut<'_, '_, T>,
        after: &Self,
    ) -> bool;

    fn handle_event(&mut self, index: usize, event: Event<V>)
        ensures
            old(self).handled_event(index, event, final(self)),
    ;

    fn run_audio(&mut self, audio: &mut AudioBufferMut<'_, '_, T>, start: usize, end: usize)
        requires
            old(audio).ordered(),
            start <= end <= old(audio).frames(),
        ensures
            final(audio).ordered(),
            final(audio).frames() == old(audio).frames(),
            old(self).ran_audio(start, end, old(audio), final(audio), final(self)),
    ;
}

/// Handler states `hs` and block states `auds` follow the steps of `plan`
/// one by one: an event step leaves the block as it is and moves the
/// handler as handling that event does; an audio step moves both as running
/// that segment does. Nothing else touches the block.
pub open spec fn follows_plan<'c, 'a, V, T, H: BlockHandler<V, T>>(
    plan: Seq<EventOrAudio>,
    events: Seq<Event<V>>,
    hs: Seq<H>,
    auds: Seq<AudioBufferMut<'c, 'a, T>>,
) -> bool {
    &&& hs.len() == plan.len() + 1
    &&& auds.len() == plan.len() + 1
    &&& forall|i: int|
        0 <= i < plan.len() ==> match #[trigger] plan[i] {
            EventOrAudio::Event(k) => {
                &&& hs[i].handled_event(k, events[k as int], &hs[i + 1])
                &&& auds[i + 1] == auds[i]
            },
            EventOrAudio::Audio { start, end } => hs[i].ran_audio(start, end, &auds[i], &auds[i + 1], &hs[i + 1]),
        }
}

/// Processes one block without allocating: hands `handler` the events and
/// the audio segments between them in the order `split_plan` gives, and
/// touches no sample itself.
pub fn process_block<'c, 'a, V: Copy, T, H: BlockHandler<V, T>>(
    handler: &mut H,
    audio: &mut AudioBufferMut<'c, 'a, T>,
    events: &[Event<V>],
)
    requires
        old(audio).ordered(),
        times_in_block(old(audio).frames() as int, times_of(events@)),
    ensures
        final(audio).frames() == old(audio).frames(),
        exists|hs: Seq<H>, auds: Seq<AudioBufferMut<'c, 'a, T>>|
            {
                &&& follows_plan(split_plan(old(audio).frames() as int, times_of(events@)), events@, hs, auds)
                &&& hs[0] == *old(handler)
                &&& auds[0] == *old(audio)
                &&& hs.last() == *final(handler)
                &&& auds.last() == *final(audio)
            },
{
    let ghost times = times_of(events@);
    let len = audio.len();
    let mut cursor: usize = 0;
    let mut k: usize = 0;
    let ghost mut hs: Seq<H> = seq![*handler];
    let ghost mut auds: Seq<AudioBufferMut<'c, 'a, T>> = seq![*audio];
    while k < events.len()
        invariant
            k <= events.len(),
            times == times_of(events@),
            audio.ordered(),
            audio.frames() == len,
            len == old(audio).frames(),
            times_in_block(len as int, times),
            cursor == cursor_after(times, k as nat),
            cursor <= len,
            cursor <= i64::MAX,
            follows_plan(steps_upto(times, k as nat), events@, hs, auds),
            hs[0] == *old(handler),
            auds[0] == *old(audio),
            hs.last() == *handler,
            auds.last() == *audio,
        decreases events.len() - k,
    {
        let ev = events[k];
        assert(times[k as int] == ev.time);
        let ghost prev = steps_upto(times, k as nat);
        if ev.time <= cursor as i64 {
            handler.handle_event(k, ev);
            proof {
                hs = hs.push(*handler);
                auds = auds.push(*audio);
            }
        } else {
            let t = ev.time as usize;
            handler.run_audio(audio, cursor, t);
            proof {
                hs = hs.push(*handler);
                auds = auds.push(*audio);
            }
            cursor = t;
            handler.handle_event(k, ev);
            proof {
                hs = hs.push(*handler);
                auds = auds.push(*audio);
            }
        }
        k = k + 1;
        assert(follows_plan(steps_upto(times, k as nat), events@, hs, auds)) by {
            let cur = steps_upto(times, k as nat);
            assert forall|i: int| 0 <= i < cur.len() implies match #[trigger] cur[i] {
                EventOrAudio::Event(k) => {
                    &&& hs[i].handled_event(k, events@[k as int], &hs[i + 1])
                    &&& auds[i + 1] == auds[i]
                },
                EventOrAudio::Audio { start, end } => hs[i].ran_audio(start, end, &auds[i], &auds[i + 1], &hs[i + 1]),
            } by {
                if i < prev.len() {
                    assert(cur[i] == prev[i]);
                }
            }
        }
    }
    let ghost prev = steps_upto(times, k as nat);
    handler.run_audio(audio, cursor, len);
    proof {
        hs = hs.push(*handler);
        auds = auds.push(*audio);
        let plan = split_plan(len as int, times);
        assert(plan.drop_last() == prev);
        assert(times.len() == k);
        assert(follows_plan(plan, events@, hs, auds)) by {
            assert forall|i: int| 0 <= i < plan.len() implies match #[trigger] plan[i] {
                EventOrAudio::Event(k) => {
                    &&& hs[i].handled_event(k, events@[k as int], &hs[i + 1])
                    &&& auds[i + 1] == auds[i]
                },
                EventOrAudio::Audio { start, end } => hs[i].ran_audio(start, end, &auds[i], &auds[i + 1], &hs[i + 1]),
            } by {
                if i < prev.len() {
                    assert(plan[i] == prev[i]);
                }
            }
        }
    }
}

/// Plans the processing of a block of `len` frames with events at `times`:
/// the audio between events goes out in one segment each, and every event
/// comes right after the audio that precedes it.
pub fn run_split_at_events(len: usize, times: &[i64]) -> (r: Vec<EventOrAudio>)
    requires
        times_in_block(len as int, times@),
    ensures
        r@ == split_plan(len as int, times@),
{
    let mut out: Vec<EventOrAudio> = Vec::new();
    let mut cursor: usize = 0;
    let mut k: usize = 0;
    while k < times.len()
        invariant
            k <= times.len(),
            times_in_block(len as int, times@),
            out@ == steps_upto(times@, k as nat),
            cursor == cursor_after(times@, k as nat),
            cursor <= len,
            cursor <= i64::MAX,
        decreases times.len() - k,
    {
        let t = times[k];
        if t <= cursor as i64 {
            out.push(EventOrAudio::Event(k));
        } else {
            let tu = t as usize;
            out.push(EventOrAudio::Audio { start: cursor, end: tu });
            out.push(EventOrAudio::Event(k));
            cursor = tu;
        }
        k = k + 1;
    }
    out.push(EventOrAudio::Audio { start: cursor, end: len });
    out
}

/// The event indices of a plan, in order.
pub open spec fn event_indices(s: Seq<EventOrAudio>) -> Seq<usize>
    decreases s.len(),
{
    if s.len() == 0 {
        Seq::empty()
    } else {
        let rest = event_indices(s.drop_last());
        match s.last() {
            EventOrAudio::Event(i) => rest.push(i),
            EventOrAudio::Audio { .. } => rest,
        }
    }
}

/// Total number of frames in the audio segments of a plan.
pub open spec fn audio_len(s: Seq<EventOrAudio>) -> int
    decreases s.len(),
{
    if s.len() == 0 {
        0
    } else {
        let rest = audio_len(s.drop_last());
        match s.last() {
            EventOrAudio::Event(_) => rest,
            EventOrAudio::Audio { start, end } => rest + end - start,
        }
    }
}

/// Where the last audio segment of a plan ends; `from` where there is none.
pub open spec fn audio_end(s: Seq<EventOrAudio>, from: int) -> int
    decreases s.len(),
{
    if s.len() == 0 {
        from
    } else {
        match s.last() {
            EventOrAudio::Event(_) => audio_end(s.drop_last(), from),
            EventOrAudio::Audio { end, .. } => end as int,
        }
    }
}

/// The audio segments of a plan follow each other without gap or overlap,
/// in increasing order, the first one starting at `from`.
pub open spec fn chained(s: Seq<EventOrAudio>, from: int) -> bool
    decreases s.len(),
{
    if s.len() == 0 {
        true
    } else {
        &&& chained(s.drop_last(), from)
        &&& match s.last() {
            EventOrAudio::Event(_) => true,
            EventOrAudio::Audio { start, end } => start == audio_end(s.drop_last(), from) && start
                <= end,
        }
    }
}

/// The step at position `p` of a plan, where it is an event, comes right
/// after the audio up to that event's time.
pub open spec fn on_time(s: Seq<EventOrAudio>, times: Seq<i64>, p: int) -> bool {
    match s[p] {
        EventOrAudio::Event(i) => audio_len(s.take(p)) == times[i as int],
        EventOrAudio::Audio { .. } => true,
    }
}

/// Event times that never decrease and lie in `[0, len)`.
pub open spec fn ascending_in_block(len: int, times: Seq<i64>) -> bool {
    &&& forall|i: int| 0 <= i < times.len() ==> 0 <= #[trigger] times[i] < len
    &&& forall|i: int, j: int| 0 <= i <= j < times.len() ==> times[i] <= times[j]
}

proof fn lemma_audio_len_chained(s: Seq<EventOrAudio>, from: int)
    requires
        chained(s, from),
    ensures
        audio_len(s) == audio_end(s, from) - from,
        from <= audio_end(s, from),
    decreases s.len(),
{
    if s.len() > 0 {
        lemma_audio_len_chained(s.drop_last(), from);
    }
}

proof fn lemma_steps_upto(len: int, times: Seq<i64>, k: nat)
    requires
        ascending_in_block(len, times),
        len <= usize::MAX,
        times.len() <= usize::MAX,
        k <= times.len(),
    ensures
        cursor_after(times, k) == if k == 0 { 0 } else { times[k - 1] as int },
        chained(steps_upto(times, k), 0),
        audio_end(steps_upto(times, k), 0) == cursor_after(times, k),
        event_indices(steps_upto(times, k)) == Seq::new(k, |i: int| i as usize),
        forall|p: int|
            0 <= p < steps_upto(times, k).len() ==> #[trigger] on_time(steps_upto(times, k), times, p),
    decreases k,
{
    if k > 0 {
        let k1 = (k - 1) as nat;
        lemma_steps_upto(len, times, k1);
        let prev = steps_upto(times, k1);
        let cur = steps_upto(times, k);
        let c = cursor_after(times, k1);
        assert(c <= times[k - 1]) by {
            if k1 > 0 {
                assert(times[k1 - 1] <= times[k - 1]);
            }
        }
        if times[k - 1] <= c {
            assert(cur.drop_last() == prev);
            assert(event_indices(cur) == event_indices(prev).push((k - 1) as usize));
        } else {
            let mid = prev.push(EventOrAudio::Audio { start: c as usize, end: times[k - 1] as usize });
            assert(cur.drop_last() == mid);
            assert(mid.drop_last() == prev);
            assert(event_indices(mid) == event_indices(prev));
            assert(event_indices(cur) == event_indices(mid).push((k - 1) as usize));
            assert(audio_end(mid, 0) == times[k - 1]);
            assert(chained(mid, 0));
        }
        assert(chained(cur, 0));
        assert(event_indices(cur) =~= Seq::new(k, |i: int| i as usize));
        lemma_audio_len_chained(cur.drop_last(), 0);
        assert forall|p: int| 0 <= p < cur.len() implies #[trigger] on_time(cur, times, p) by {
            if p < prev.len() {
                assert(cur[p] == prev[p]);
                assert(cur.take(p) =~= prev.take(p));
                assert(on_time(prev, times, p));
                assert(on_time(cur, times, p));
            } else if p == cur.len() - 1 {
                assert(cur.take(p) =~= cur.drop_last());
                assert(cur[p] == EventOrAudio::Event((k - 1) as usize));
                assert(audio_end(cur.drop_last(), 0) == times[k - 1]);
                assert(audio_len(cur.drop_last()) == times[k - 1]);
                assert(on_time(cur, times, p));
            } else {
                assert(cur[p] matches EventOrAudio::Audio { .. });
            }
        }
    }
}

/// For a block of `len` frames and event times that never decrease and lie in
/// the block, the plan's audio segments follow each other from frame 0 to the
/// end of the block without gap or overlap, so their lengths add up to `len`;
/// every event comes exactly once, in input order; and each event comes right
/// after the audio up to its own time.
pub proof fn lemma_split_covers_block(len: usize, times: Seq<i64>)
    requires
        ascending_in_block(len as int, times),
        times.len() <= usize::MAX,
    ensures
        chained(split_plan(len as int, times), 0),
        audio_end(split_plan(len as int, times), 0) == len,
        audio_len(split_plan(len as int, times)) == len,
        event_indices(split_plan(len as int, times)) == Seq::new(times.len(), |i: int| i as usize),
        forall|p: int|
            0 <= p < split_plan(len as int, times).len() ==> #[trigger] on_time(split_plan(len as int, times), times, p),
{
    let n = times.len();
    lemma_steps_upto(len as int, times, n);
    let steps = steps_upto(times, n);
    let plan = split_plan(len as int, times);
    assert(plan.drop_last() == steps);
    assert(cursor_after(times, n) <= len) by {
        if n > 0 {
            assert(times[n - 1] < len);
        }
    }
    lemma_audio_len_chained(plan, 0);
    assert forall|p: int| 0 <= p < plan.len() implies #[trigger] on_time(plan, times, p) by {
        if p < steps.len() {
            assert(plan[p] == steps[p]);
            assert(plan.take(p) =~= steps.take(p));
            assert(on_time(steps, times, p));
        } else {
            assert(plan[p] == plan.last());
        }
    }
}

} // verus!
