use brinicle::split::run_split_at_events;
use brinicle::split::EventOrAudio;
use brinicle::split::EventOrAudio::Audio;
use brinicle::split::EventOrAudio::Event;

#[test]
fn events_interleave_with_audio() {
    let plan = run_split_at_events(8, &[0, 3, 3, 6]);
    assert_eq!(
        plan,
        vec![
            Event(0),
            Audio { start: 0, end: 3 },
            Event(1),
            Event(2),
            Audio { start: 3, end: 6 },
            Event(3),
            Audio { start: 6, end: 8 },
        ]
    );
}

#[test]
fn no_events_gives_one_segment() {
    assert_eq!(run_split_at_events(8, &[]), vec![Audio { start: 0, end: 8 }]);
}

#[test]
fn trailing_segment_may_be_empty() {
    let plan: Vec<EventOrAudio> = run_split_at_events(4, &[3]);
    assert_eq!(plan, vec![Audio { start: 0, end: 3 }, Event(0), Audio { start: 3, end: 4 }]);
    assert_eq!(run_split_at_events(0, &[0]), vec![Event(0), Audio { start: 0, end: 0 }]);
}

#[test]
fn segment_lengths_sum_to_block() {
    let plan = run_split_at_events(100, &[1, 1, 50, 99]);
    let mut total = 0;
    let mut next = 0;
    for step in plan {
        if let Audio { start, end } = step {
            assert_eq!(start, next);
            total += end - start;
            next = end;
        }
    }
    assert_eq!(total, 100);
}

use brinicle::audio::AudioBufferMut;
use brinicle::kernel::Data;
use brinicle::kernel::Event as KernelEvent;
use brinicle::split::process_block;
use brinicle::split::BlockHandler;

#[derive(Debug, PartialEq)]
enum Call {
    Ev(u64),
    Seg(usize),
}

struct Recorder {
    calls: Vec<Call>,
    next_fill: i32,
}

impl BlockHandler<i32, i32> for Recorder {
    fn handled_event(&self, _index: usize, event: KernelEvent<i32>, after: &Self) -> bool {
        match event.data {
            Data::ParameterChange { address, .. } => after.calls.last() == Some(&Call::Ev(address)),
            _ => after.calls == self.calls,
        }
    }

    fn ran_audio(
        &self,
        start: usize,
        end: usize,
        _audio_before: &AudioBufferMut<'_, '_, i32>,
        _audio_after: &AudioBufferMut<'_, '_, i32>,
        after: &Self,
    ) -> bool {
        after.calls.last() == Some(&Call::Seg(end - start)) && after.next_fill == self.next_fill + 1
    }

    fn handle_event(&mut self, _index: usize, event: KernelEvent<i32>) {
        if let Data::ParameterChange { address, .. } = event.data {
            self.calls.push(Call::Ev(address));
        }
    }

    fn run_audio(&mut self, audio: &mut AudioBufferMut<'_, '_, i32>, start: usize, end: usize) {
        let mut seg = audio.slice(start, end);
        self.calls.push(Call::Seg(seg.len()));
        for i in 0..seg.len() {
            seg.set(0, i, self.next_fill);
        }
        self.next_fill += 1;
    }
}

fn change(time: i64, address: u64) -> KernelEvent<i32> {
    KernelEvent { time, data: Data::ParameterChange { address, value: 0 } }
}

#[test]
fn block_driver_follows_plan() {
    let mut samples = [0i32; 8];
    let mut rec = Recorder { calls: vec![], next_fill: 1 };
    {
        let mut chans: Vec<&mut [i32]> = vec![&mut samples[..]];
        let mut audio = AudioBufferMut::new(&mut chans[..]);
        let events = [change(0, 0), change(3, 1), change(3, 2), change(6, 3)];
        process_block(&mut rec, &mut audio, &events);
    }
    assert_eq!(
        rec.calls,
        vec![Call::Ev(0), Call::Seg(3), Call::Ev(1), Call::Ev(2), Call::Seg(3), Call::Ev(3), Call::Seg(2)]
    );
    assert_eq!(samples, [1, 1, 1, 2, 2, 2, 3, 3]);
}

#[test]
fn block_driver_without_events_runs_whole_block() {
    let mut samples = [0i32; 5];
    let mut rec = Recorder { calls: vec![], next_fill: 9 };
    {
        let mut chans: Vec<&mut [i32]> = vec![&mut samples[..]];
        let mut audio = AudioBufferMut::new(&mut chans[..]);
        process_block(&mut rec, &mut audio, &[]);
    }
    assert_eq!(rec.calls, vec![Call::Seg(5)]);
    assert_eq!(samples, [9; 5]);
}
