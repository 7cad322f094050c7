use brinicle::voices::Manager;
use brinicle::voices::Voice;

#[derive(Default)]
struct Configuration;

struct MockVoice {
    note_on_calls: Vec<(u8, u8)>,
    note_off_calls: Vec<u8>,

    is_running: bool,
}

impl Voice for MockVoice {
    type Configuration = Configuration;
    fn note_on(&mut self, _: &Configuration, note_number: u8, velocity: u8) {
        self.is_running = true;
        self.note_on_calls.push((note_number, velocity));
    }
    fn note_off(&mut self, _: &Configuration, velocity: u8) {
        self.is_running = false;
        self.note_off_calls.push(velocity);
    }

    fn running(&self) -> bool {
        self.is_running
    }

    fn noted_on(&self, _: &Configuration, note_number: u8, velocity: u8, after: &Self) -> bool {
        after.is_running
            && after.note_off_calls == self.note_off_calls
            && after.note_on_calls.len() == self.note_on_calls.len() + 1
            && after.note_on_calls.starts_with(&self.note_on_calls)
            && after.note_on_calls.last() == Some(&(note_number, velocity))
    }

    fn noted_off(&self, _: &Configuration, velocity: u8, after: &Self) -> bool {
        !after.is_running
            && after.note_on_calls == self.note_on_calls
            && after.note_off_calls.len() == self.note_off_calls.len() + 1
            && after.note_off_calls.starts_with(&self.note_off_calls)
            && after.note_off_calls.last() == Some(&velocity)
    }

    fn is_running(&self) -> bool {
        return self.is_running;
    }
}

impl Default for MockVoice {
    fn default() -> MockVoice {
        return MockVoice {
            note_on_calls: Vec::new(),
            note_off_calls: Vec::new(),
            is_running: false,
        };
    }
}

#[test]
fn note_on_off_gets_called() {
    let mut mock = vec![MockVoice::default()];
    let mut manager = Manager::new(1);
    manager.note_on(&mut mock[..], 32, 88);
    manager.note_off(&mut mock[..], 32, 89);
    assert_eq!(mock[0].note_on_calls.len(), 1);
    assert_eq!(mock[0].note_on_calls[0], (32, 88));
    assert_eq!(mock[0].note_off_calls.len(), 1);
    assert_eq!(mock[0].note_off_calls[0], 89);
}

#[test]
fn note_off_gets_called_once() {
    let mut mock = vec![MockVoice::default()];
    let mut manager = Manager::new(1);
    manager.note_on(&mut mock[..], 32, 88);
    manager.note_off(&mut mock[..], 32, 89);
    manager.note_off(&mut mock[..], 32, 89);
    assert_eq!(mock[0].note_on_calls.len(), 1);
    assert_eq!(mock[0].note_on_calls[0], (32, 88));
    assert_eq!(mock[0].note_off_calls.len(), 1);
    assert_eq!(mock[0].note_off_calls[0], (89));
}

#[test]
fn note_off_does_not_get_called() {
    let mut mock = vec![MockVoice::default()];
    let mut manager = Manager::new(1);
    manager.note_on(&mut mock[..], 32, 88);
    manager.note_off(&mut mock[..], 33, 89);
    assert_eq!(mock[0].note_on_calls.len(), 1);
    assert_eq!(mock[0].note_on_calls[0], (32, 88));
    assert_eq!(mock[0].note_off_calls.len(), 0);
}

#[test]
fn notes_distributed() {
    let mut mock = vec![MockVoice::default(), MockVoice::default()];
    let mut manager = Manager::new(2);
    manager.note_on(&mut mock[..], 32, 88);
    manager.note_on(&mut mock[..], 33, 88);
    manager.note_off(&mut mock[..], 33, 89);
    manager.note_off(&mut mock[..], 32, 89);
    assert_eq!(mock[0].note_on_calls.len(), 1);
    assert_eq!(mock[0].note_on_calls[0], (32, 88));
    assert_eq!(mock[0].note_off_calls.len(), 1);
    assert_eq!(mock[0].note_off_calls[0], 89);
    assert_eq!(mock[1].note_on_calls.len(), 1);
    assert_eq!(mock[1].note_on_calls[0], (33, 88));
    assert_eq!(mock[1].note_off_calls.len(), 1);
    assert_eq!(mock[1].note_off_calls[0], 89);
}

#[test]
fn first_voice_repeats() {
    let mut mock = vec![MockVoice::default(), MockVoice::default()];
    let mut manager = Manager::new(2);
    manager.note_on(&mut mock[..], 32, 88);
    manager.note_off(&mut mock[..], 32, 89);
    manager.note_on(&mut mock[..], 33, 88);
    manager.note_off(&mut mock[..], 33, 89);
    assert_eq!(mock[0].note_on_calls.len(), 2);
    assert_eq!(mock[0].note_off_calls.len(), 2);
    assert_eq!(mock[1].note_on_calls.len(), 0);
    assert_eq!(mock[1].note_off_calls.len(), 0);
}

#[test]
fn repeat_note_on() {
    let mut mock = vec![MockVoice::default(), MockVoice::default()];
    let mut manager = Manager::new(2);
    manager.note_on(&mut mock[..], 32, 88);
    mock[0].is_running = false;
    manager.note_on(&mut mock[..], 33, 88);
    assert_eq!(mock[0].note_on_calls.len(), 2);
    assert_eq!(mock[1].note_on_calls.len(), 0);
}

#[test]
fn no_note_off_if_self_ended() {
    let mut mock = vec![MockVoice::default(), MockVoice::default()];
    let mut manager = Manager::new(2);
    manager.note_on(&mut mock[..], 32, 88);
    mock[0].is_running = false;
    manager.note_off(&mut mock[..], 32, 88);
    assert_eq!(mock[0].note_on_calls.len(), 1);
    assert_eq!(mock[0].note_off_calls.len(), 0);
}

#[test]
fn full_manager_drops_new_note() {
    let mut mock = vec![MockVoice::default()];
    let mut manager = Manager::new(1);
    manager.note_on(&mut mock[..], 32, 88);
    manager.note_on(&mut mock[..], 40, 90);
    assert_eq!(mock[0].note_on_calls, vec![(32, 88)]);
    manager.note_off(&mut mock[..], 40, 1);
    assert_eq!(mock[0].note_off_calls.len(), 0);
}

#[test]
fn self_ended_slot_reused_and_old_note_off_ignored() {
    let mut mock = vec![MockVoice::default(), MockVoice::default()];
    let mut manager = Manager::new(2);
    manager.note_on(&mut mock[..], 32, 88);
    mock[0].is_running = false;
    manager.note_on(&mut mock[..], 33, 70);
    assert_eq!(mock[0].note_on_calls, vec![(32, 88), (33, 70)]);
    manager.note_off(&mut mock[..], 32, 5);
    assert_eq!(mock[0].note_off_calls.len(), 0);
    assert_eq!(mock[1].note_off_calls.len(), 0);
    manager.note_off(&mut mock[..], 33, 6);
    assert_eq!(mock[0].note_off_calls, vec![6]);
}

#[test]
fn retriggered_note_releases_every_slot() {
    let mut mock = vec![MockVoice::default(), MockVoice::default()];
    let mut manager = Manager::new(2);
    manager.note_on(&mut mock[..], 50, 10);
    manager.note_on(&mut mock[..], 50, 20);
    manager.note_off(&mut mock[..], 50, 30);
    assert_eq!(mock[0].note_off_calls, vec![30]);
    assert_eq!(mock[1].note_off_calls, vec![30]);
}

#[test]
fn all_voices_sounding_drops_note() {
    let mut mock = vec![MockVoice::default(), MockVoice::default()];
    let mut manager = Manager::new(2);
    manager.note_on(&mut mock[..], 40, 1);
    manager.note_on(&mut mock[..], 41, 2);
    manager.note_on(&mut mock[..], 42, 3);
    assert_eq!(mock[0].note_on_calls, vec![(40, 1)]);
    assert_eq!(mock[1].note_on_calls, vec![(41, 2)]);
    manager.note_off(&mut mock[..], 42, 9);
    assert_eq!(mock[0].note_off_calls.len(), 0);
    assert_eq!(mock[1].note_off_calls.len(), 0);
}
