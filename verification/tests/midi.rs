use beatmatcher::decode::{parse_control_change, parse_note_on, resolve_move, ControlMemory, Move, Reading};
use beatmatcher::mapping::{
    parse_mapping, Action, Binding, BindingError, BindingSpec, DeckScope, Feedback, Mapping, MappingError,
    MappingFile, Profile, ProfileError, MAPPING_VERSION,
};
use beatmatcher::midi::{ports_to_open, MidiMessage, Monitor, MONITOR_CAPACITY};
use beatmatcher::wire::{Half, Key, KeysError, Resolution, Source, CONTROL_CHANGE, NOTE_ON};

fn message(byte: u8) -> MidiMessage {
    MidiMessage {
        port: "test".to_string(),
        timestamp_us: byte as u64,
        data: vec![0xB0, 0x01, byte],
    }
}

fn control_change(channel: u8, controller: u8, value: u8) -> Vec<u8> {
    vec![CONTROL_CHANGE | channel, controller, value]
}

fn note_on(channel: u8, note: u8, velocity: u8) -> Vec<u8> {
    vec![NOTE_ON | channel, note, velocity]
}

fn deck_param(channel: u8, controller: u8, deck: &str, slot: &str, param: &str) -> Binding {
    Binding {
        source: Source::ControlChange {
            channel,
            controller,
            resolution: Resolution::FourteenBit,
        },
        action: Action::DeckParam {
            deck: deck.to_string(),
            slot: slot.to_string(),
            param: param.to_string(),
        },
    }
}

#[test]
fn a_control_change_decodes_to_its_channel_controller_and_value() {
    let message = parse_control_change(&control_change(2, 20, 64)).expect("a control change");
    assert_eq!(
        (message.channel, message.controller, message.value),
        (2, 20, 64)
    );
}

#[test]
fn anything_that_is_not_a_three_byte_control_change_is_ignored() {
    // Note on, pitch bend, a running-status runt, and an empty buffer.
    assert!(parse_control_change(&[0x90, 60, 100]).is_none());
    assert!(parse_control_change(&[0xE0, 0, 64]).is_none());
    assert!(parse_control_change(&[0xB0, 20]).is_none());
    assert!(parse_control_change(&[]).is_none());
}

#[test]
fn a_profile_whose_sources_collide_is_refused() {
    let collision = Profile::new(vec![
        deck_param(0, 7, "A", "eq", "high"),
        deck_param(0, 7, "B", "eq", "high"),
    ]);
    assert!(collision.is_err());
}

#[test]
fn an_implied_low_half_colliding_with_another_high_half_is_refused() {
    let collision = Profile::new(vec![
        deck_param(0, 7, "A", "eq", "high"),
        deck_param(0, 39, "A", "eq", "mid"),
    ]);
    assert!(collision.is_err());
}

#[test]
fn a_control_change_too_high_to_carry_a_low_half_is_refused() {
    assert!(Profile::new(vec![deck_param(0, 96, "A", "eq", "high")]).is_err());
    assert!(Profile::new(vec![deck_param(0, 95, "A", "eq", "high")]).is_ok());
}

#[test]
fn the_two_halves_of_a_high_resolution_control_join() {
    let mut halves = ControlMemory::default();
    assert_eq!(halves.join(0, Half::Msb, 61), 61 << 7);
    assert_eq!(halves.join(0, Half::Lsb, 75), (61 << 7) | 75);
    assert_eq!(halves.join(0, Half::Msb, 62), (62 << 7) | 75);
    assert_eq!(halves.join(0, Half::Lsb, 50), (62 << 7) | 50);
    assert_eq!(halves.join(0, Half::Msb, 64), (64 << 7) | 50);
    assert_eq!(halves.join(0, Half::Lsb, 0), 8192);
}

#[test]
fn a_high_half_on_its_own_lands_within_one_low_half_step() {
    let mut halves = ControlMemory::default();
    halves.join(0, Half::Msb, 61);
    halves.join(0, Half::Lsb, 127);
    let intermediate = halves.join(0, Half::Msb, 62);
    let settled = halves.join(0, Half::Lsb, 0);
    assert!(u32::from(intermediate).abs_diff(u32::from(settled)) <= 127);
}

#[test]
fn two_high_resolution_controls_do_not_share_halves() {
    let mut halves = ControlMemory::default();
    halves.join(0, Half::Msb, 64);
    assert_eq!(halves.join(1, Half::Lsb, 3), 3);
}

#[test]
fn clearing_forgets_a_half() {
    let mut halves = ControlMemory::default();
    halves.join(0, Half::Msb, 127);
    halves.clear();
    assert_eq!(halves.join(0, Half::Lsb, 3), 3);
}

#[test]
fn an_output_that_failed_to_open_is_retried_while_its_input_stays_alone() {
    let wanted = vec!["DDJ-FLX6".to_string(), "XDJ-1000MK2".to_string()];
    let open_inputs = vec!["DDJ-FLX6".to_string()];

    let inputs = ports_to_open(&wanted, &open_inputs);
    assert_eq!(inputs, vec!["XDJ-1000MK2".to_string()]);

    // Nothing is open for output, so the port whose input is already up is still tried.
    let outputs = ports_to_open(&wanted, &Vec::new());
    assert_eq!(outputs, wanted);
}

#[test]
fn each_kind_of_feedback_keeps_its_own_key() {
    let profile = Profile::new(vec![
        Binding {
            source: Source::Note {
                channel: 0,
                note: 84,
            },
            action: Action::CueToggle {
                deck: "A".to_string(),
            },
        },
        Binding {
            source: Source::Note {
                channel: 0,
                note: 48,
            },
            action: Action::QuantizeToggle {
                deck: "A".to_string(),
            },
        },
    ])
    .expect("a profile");
    assert_eq!(
        profile.led_key(Feedback::Cue, "A"),
        Some(Key::Note {
            channel: 0,
            note: 84
        })
    );
    assert_eq!(
        profile.led_key(Feedback::Quantize, "A"),
        Some(Key::Note {
            channel: 0,
            note: 48
        })
    );
}

#[test]
fn a_disabled_monitor_buffers_nothing() {
    let mut monitor = Monitor::new();
    monitor.push(message(1));
    assert!(monitor.drain().is_empty());
}

#[test]
fn a_controller_outrunning_the_flush_drops_the_oldest_rather_than_growing() {
    let mut monitor = Monitor::new();
    monitor.set_enabled(true);
    for index in 0..MONITOR_CAPACITY + 10 {
        monitor.push(message((index % 128) as u8));
    }

    let drained = monitor.drain();
    assert_eq!(drained.len(), MONITOR_CAPACITY);
    assert_eq!(drained[0].timestamp_us, 10);
    assert!(monitor.drain().is_empty());
}

// What follows checks the library's own contracts on concrete values.

#[test]
fn closing_the_console_discards_what_it_held() {
    let mut monitor = Monitor::new();
    monitor.set_enabled(true);
    monitor.push(message(1));
    monitor.push(message(2));
    monitor.set_enabled(false);
    assert!(!monitor.is_enabled());
    monitor.set_enabled(true);
    assert!(monitor.drain().is_empty());
}

#[test]
fn a_note_on_decodes_and_a_control_change_is_no_note() {
    let note = parse_note_on(&note_on(3, 60, 100)).expect("a note on");
    assert_eq!((note.channel, note.note, note.velocity), (3, 60, 100));
    assert!(parse_note_on(&control_change(3, 60, 100)).is_none());
    // The value is held to seven bits.
    let change = parse_control_change(&[0xB1, 7, 0xFF]).expect("a control change");
    assert_eq!(change.value, 0x7F);
}

#[test]
fn a_source_names_its_keys_and_a_relative_one_claims_no_low_half() {
    let fine = Source::ControlChange { channel: 0, controller: 7, resolution: Resolution::FourteenBit };
    assert_eq!(
        fine.keys().expect("keys"),
        vec![
            (Key::ControlChange { channel: 0, controller: 7 }, Half::Msb),
            (Key::ControlChange { channel: 0, controller: 39 }, Half::Lsb)
        ]
    );
    let jog = Source::ControlChange { channel: 0, controller: 100, resolution: Resolution::CentreDelta };
    assert_eq!(
        jog.keys().expect("keys"),
        vec![(Key::ControlChange { channel: 0, controller: 100 }, Half::Msb)]
    );
    let high = Source::ControlChange { channel: 0, controller: 96, resolution: Resolution::FourteenBit };
    assert_eq!(high.keys(), Err(KeysError::NoLowHalf { controller: 96 }));
}

#[test]
fn a_collision_names_the_key_two_bindings_share() {
    let collision = Profile::new(vec![
        deck_param(0, 7, "A", "eq", "high"),
        deck_param(0, 39, "A", "eq", "mid"),
    ]);
    assert!(matches!(
        collision,
        Err(ProfileError::Collision(Key::ControlChange { channel: 0, controller: 39 }))
    ));
}

#[test]
fn a_fourteen_bit_control_moves_its_param_with_both_halves() {
    let profile = Profile::new(vec![deck_param(1, 7, "B", "eq", "low")]).expect("a profile");
    let mut memory = ControlMemory::default();
    let first = resolve_move(&profile, &mut memory, &control_change(1, 7, 64));
    assert_eq!(
        first,
        Some(Move::Param {
            deck: "B".to_string(),
            slot: "eq".to_string(),
            param: "low".to_string(),
            reading: Reading { value: 64 << 7, max: 16383 }
        })
    );
    let second = resolve_move(&profile, &mut memory, &control_change(1, 39, 5));
    assert_eq!(
        second,
        Some(Move::Param {
            deck: "B".to_string(),
            slot: "eq".to_string(),
            param: "low".to_string(),
            reading: Reading { value: (64 << 7) | 5, max: 16383 }
        })
    );
    assert_eq!(resolve_move(&profile, &mut memory, &control_change(2, 7, 5)), None);
}

#[test]
fn a_cue_press_toggles_and_its_release_does_not() {
    let profile = Profile::new(vec![Binding {
        source: Source::Note { channel: 0, note: 84 },
        action: Action::CueToggle { deck: "A".to_string() },
    }])
    .expect("a profile");
    let mut memory = ControlMemory::default();
    assert_eq!(
        resolve_move(&profile, &mut memory, &note_on(0, 84, 127)),
        Some(Move::Cue { deck: "A".to_string() })
    );
    assert_eq!(resolve_move(&profile, &mut memory, &note_on(0, 84, 0)), None);
}

#[test]
fn a_shift_reports_both_edges() {
    let profile = Profile::new(vec![Binding {
        source: Source::Note { channel: 1, note: 63 },
        action: Action::Shift { deck: "B".to_string() },
    }])
    .expect("a profile");
    let mut memory = ControlMemory::default();
    assert_eq!(
        resolve_move(&profile, &mut memory, &note_on(1, 63, 127)),
        Some(Move::Shift { deck: "B".to_string(), held: true })
    );
    assert_eq!(
        resolve_move(&profile, &mut memory, &note_on(1, 63, 0)),
        Some(Move::Shift { deck: "B".to_string(), held: false })
    );
}

#[test]
fn a_jog_reports_its_deviation_from_the_centre() {
    let profile = Profile::new(vec![Binding {
        source: Source::ControlChange { channel: 0, controller: 33, resolution: Resolution::CentreDelta },
        action: Action::Jog { deck: "A".to_string() },
    }])
    .expect("a profile");
    let mut memory = ControlMemory::default();
    assert_eq!(
        resolve_move(&profile, &mut memory, &control_change(0, 33, 66)),
        Some(Move::Jog { deck: "A".to_string(), ticks: 2 })
    );
    assert_eq!(
        resolve_move(&profile, &mut memory, &control_change(0, 33, 62)),
        Some(Move::Jog { deck: "A".to_string(), ticks: -2 })
    );
    assert_eq!(resolve_move(&profile, &mut memory, &control_change(0, 33, 64)), None);
}

fn spec(action: &str, channel: u8, note: Option<u8>, cc: Option<u8>, deck: Option<&str>) -> BindingSpec {
    BindingSpec {
        channel,
        action: action.to_string(),
        note,
        cc,
        resolution: None,
        button: None,
        deck: deck.map(|deck| deck.to_string()),
        slot: None,
        param: None,
        steps: None,
    }
}

fn file(version: u32, decks: DeckScope, bindings: Vec<BindingSpec>) -> MappingFile {
    MappingFile {
        version,
        name: "Test".to_string(),
        matches: vec!["TEST-1".to_string()],
        decks,
        per_deck: Vec::new(),
        deck_bindings: Vec::new(),
        bindings,
    }
}

fn parsed(file: MappingFile) -> Mapping {
    match parse_mapping(file) {
        Ok(mapping) => mapping,
        Err(_) => panic!("a mapping"),
    }
}

#[test]
fn a_file_declaring_a_newer_version_is_refused() {
    let refused = parse_mapping(file(MAPPING_VERSION + 1, DeckScope::Fixed, Vec::new()));
    assert!(matches!(refused, Err(MappingError::Newer { .. })));
}

#[test]
fn a_binding_naming_both_a_note_and_a_control_change_is_refused() {
    let mapping = parsed(file(
        MAPPING_VERSION,
        DeckScope::Fixed,
        vec![spec("play_toggle", 1, Some(1), Some(2), Some("A"))],
    ));
    assert!(matches!(
        mapping.profile(None),
        Err(MappingError::Binding { binding: BindingError::NoteOrCc, .. })
    ));
}

#[test]
fn an_unknown_action_name_is_refused() {
    let mapping = parsed(file(MAPPING_VERSION, DeckScope::Fixed, vec![spec("teleport", 1, Some(1), None, None)]));
    assert!(mapping.profile(None).is_err());
}

#[test]
fn a_files_channel_zero_is_refused_because_the_file_counts_from_one() {
    let mapping = parsed(file(MAPPING_VERSION, DeckScope::Fixed, vec![spec("play_toggle", 0, Some(1), None, Some("A"))]));
    assert!(matches!(
        mapping.profile(None),
        Err(MappingError::Binding { binding: BindingError::ChannelFromOne, .. })
    ));
}

#[test]
fn an_assigned_mapping_builds_for_the_deck_it_is_given_and_not_without_one() {
    let mapping = parsed(file(MAPPING_VERSION, DeckScope::Assigned, vec![spec("play_toggle", 1, Some(11), None, None)]));
    assert!(mapping.needs_deck());
    assert!(matches!(
        mapping.profile(None),
        Err(MappingError::Binding { binding: BindingError::NoDeck, .. })
    ));
    let profile = match mapping.profile(Some("D")) {
        Ok(profile) => profile,
        Err(_) => panic!("a profile for deck D"),
    };
    let mut memory = ControlMemory::default();
    assert_eq!(
        resolve_move(&profile, &mut memory, &note_on(0, 11, 127)),
        Some(Move::Play { deck: "D".to_string() })
    );
}

#[test]
fn a_mapping_claims_a_port_whose_name_holds_one_of_its_names() {
    let mapping = parsed(file(MAPPING_VERSION, DeckScope::Fixed, Vec::new()));
    assert!(mapping.claims("TEST-1 MIDI 1"));
    assert!(!mapping.claims("TEST-2"));
    assert_eq!(mapping.name(), "Test");
}
