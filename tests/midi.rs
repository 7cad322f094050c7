use brinicle::midi::parse_midi;
use brinicle::midi::Behavior;
use brinicle::midi::Message;

#[test]
fn note_on_decodes() {
    assert_eq!(
        parse_midi(1, &[0x90, 60, 64], Behavior::Omni),
        Some(Message::NoteOn { note: 60, velocity: 64 })
    );
}

#[test]
fn note_on_velocity_zero_is_note_off() {
    assert_eq!(
        parse_midi(1, &[0x90, 60, 0], Behavior::Omni),
        Some(Message::NoteOff { note: 60, velocity: 0 })
    );
}

#[test]
fn channel_filter_rejects_other_channel() {
    assert_eq!(parse_midi(1, &[0x90, 60, 64], Behavior::ChannelOmni(2)), None);
    assert_eq!(
        parse_midi(1, &[0x92, 60, 64], Behavior::ChannelOmni(2)),
        Some(Message::NoteOn { note: 60, velocity: 64 })
    );
}

#[test]
fn empty_input_is_none() {
    assert_eq!(parse_midi(0, &[], Behavior::Omni), None);
}

#[test]
fn note_off_decodes() {
    assert_eq!(
        parse_midi(3, &[0x85, 61, 12], Behavior::Omni),
        Some(Message::NoteOff { note: 61, velocity: 12 })
    );
}

#[test]
fn cable_filters() {
    assert_eq!(parse_midi(1, &[0x90, 60, 64], Behavior::CableOmni(2)), None);
    assert_eq!(
        parse_midi(2, &[0x90, 60, 64], Behavior::CableOmni(2)),
        Some(Message::NoteOn { note: 60, velocity: 64 })
    );
    let specific = Behavior::Specific { cable: 2, channel: 3 };
    assert_eq!(parse_midi(2, &[0x90, 60, 64], specific), None);
    assert_eq!(parse_midi(1, &[0x93, 60, 64], specific), None);
    assert_eq!(
        parse_midi(2, &[0x93, 60, 64], specific),
        Some(Message::NoteOn { note: 60, velocity: 64 })
    );
}

#[test]
fn other_messages_are_none() {
    assert_eq!(parse_midi(0, &[0xB0, 7, 100], Behavior::Omni), None);
    assert_eq!(parse_midi(0, &[0x90, 60], Behavior::Omni), None);
    assert_eq!(parse_midi(0, &[0x80, 60, 1, 2], Behavior::Omni), None);
}

#[test]
fn default_behavior_is_omni() {
    assert_eq!(Behavior::default(), Behavior::Omni);
}
