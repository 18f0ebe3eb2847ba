use beatmatcher::learn::{infer, Capture, Draft, Learn, Slot, Watch};
use beatmatcher::mapping::{
    parse_mapping, BindingSpec, ButtonSpec, DeckScope, MappingFile, ResolutionSpec, MAPPING_VERSION,
};
use beatmatcher::vocabulary::ControlKind;
use beatmatcher::wire::{CONTROL_CHANGE, NOTE_ON};

fn watched(kind: ControlKind, messages: &[Vec<u8>]) -> Option<Capture> {
    let mut watch = Watch::default();
    for data in messages {
        watch.observe(data);
    }
    infer(kind, &watch)
}

fn control_change(channel: u8, controller: u8, value: u8) -> Vec<u8> {
    vec![CONTROL_CHANGE | channel, controller, value]
}

fn sweep(channel: u8, controller: u8) -> Vec<Vec<u8>> {
    (0..=8)
        .map(|step| control_change(channel, controller, step * 15))
        .collect()
}

#[test]
fn a_button_captures_its_note_on_the_channel_the_file_counts_from_one() {
    let captured =
        watched(ControlKind::Button, &[vec![NOTE_ON, 84, 127]]).expect("a note is a button");
    assert_eq!(
        captured,
        Capture {
            channel: 1,
            note: Some(84),
            cc: None,
            resolution: None,
            // No release arrived while the slot was armed.
            button: Some(ButtonSpec::Trigger)
        }
    );
}

#[test]
fn a_button_released_while_armed_captures_as_momentary() {
    let captured = watched(
        ControlKind::Button,
        &[vec![NOTE_ON, 84, 127], vec![NOTE_ON, 84, 0]],
    )
    .expect("a press and its release");
    assert_eq!(captured.button, Some(ButtonSpec::Momentary));
}

#[test]
fn a_release_for_another_note_leaves_the_capture_a_trigger() {
    let captured = watched(
        ControlKind::Button,
        &[vec![NOTE_ON, 84, 127], vec![NOTE_ON, 11, 0]],
    )
    .expect("a press");
    assert_eq!(captured.button, Some(ButtonSpec::Trigger));
}

#[test]
fn a_fader_sending_one_address_captures_seven_bit() {
    let captured =
        watched(ControlKind::Positional, &sweep(0, 7)).expect("a swept control change");
    assert_eq!(captured.cc, Some(7));
    assert_eq!(captured.resolution, Some(ResolutionSpec::SevenBit));
}

#[test]
fn a_fader_sending_both_halves_captures_fourteen_bit_on_the_high_one() {
    let mut messages = sweep(0, 7);
    messages.extend(sweep(0, 39));
    let captured = watched(ControlKind::Positional, &messages).expect("both halves");
    assert_eq!(captured.cc, Some(7));
    assert_eq!(captured.resolution, Some(ResolutionSpec::FourteenBit));
}

#[test]
fn a_high_half_that_moves_less_than_its_low_one_is_still_what_the_file_names() {
    let mut messages = sweep(0, 39);
    messages.push(control_change(0, 7, 64));
    let captured = watched(ControlKind::Positional, &messages).expect("both halves");
    assert_eq!(captured.cc, Some(7));
    assert_eq!(captured.resolution, Some(ResolutionSpec::FourteenBit));
}

#[test]
fn a_platter_held_through_a_turn_captures_a_centre_delta() {
    let messages: Vec<Vec<u8>> = [65, 66, 67, 66, 65, 63, 62]
        .iter()
        .map(|value| control_change(0, 33, *value))
        .collect();
    let captured = watched(ControlKind::Relative, &messages).expect("a platter");
    assert_eq!(captured.resolution, Some(ResolutionSpec::CentreDelta));
}

#[test]
fn a_browse_encoder_clicking_either_way_captures_a_signed_step() {
    let messages: Vec<Vec<u8>> = [1, 1, 127, 1, 127]
        .iter()
        .map(|value| control_change(6, 64, *value))
        .collect();
    let captured = watched(ControlKind::Relative, &messages).expect("an encoder");
    assert_eq!(captured.cc, Some(64));
    assert_eq!(captured.resolution, Some(ResolutionSpec::SignedStep));
}

#[test]
fn a_button_press_on_a_slot_that_reads_a_fader_captures_nothing() {
    assert!(watched(ControlKind::Positional, &[vec![NOTE_ON, 84, 127]]).is_none());
}

#[test]
fn a_fader_swept_into_a_slot_that_reads_a_button_captures_nothing() {
    assert!(watched(ControlKind::Button, &sweep(0, 7)).is_none());
}

#[test]
fn a_note_on_a_channel_above_the_first_keeps_the_channel_it_arrived_on() {
    let captured = watched(ControlKind::Button, &[vec![NOTE_ON | 6, 65, 127]]).expect("a note");
    assert_eq!(captured.note, Some(65));
    assert_eq!(captured.channel, 7);
}

// The busiest address wins, so a controller streaming an unrelated value on
// another cc does not win over the one being held.
#[test]
fn the_busiest_address_is_the_one_captured() {
    let mut messages = sweep(0, 10);
    messages.push(control_change(0, 90, 3));
    let captured = watched(ControlKind::Positional, &messages).expect("a fader");
    assert_eq!(captured.cc, Some(10));
}

fn play_slot() -> Slot {
    Slot {
        action: "play_toggle".to_string(),
        deck: Some("A".to_string()),
        slot: None,
        param: None,
        steps: None,
    }
}

#[test]
fn a_note_release_alone_never_settles_a_capture() {
    let mut learn = Learn::default();
    learn.start("port", None);
    learn.arm("port", play_slot(), 0).expect("play_toggle");
    assert!(learn.observe("port", &[NOTE_ON, 11, 0], 10).is_none());
    assert!(learn.settled(1_000).is_none());
}

#[test]
fn a_press_settles_once_nothing_follows_it() {
    let mut learn = Learn::default();
    learn.start("port", None);
    learn.arm("port", play_slot(), 0).expect("play_toggle");
    let (slot, capture) = learn.observe("port", &[NOTE_ON, 11, 127], 100).expect("a press");
    assert_eq!(slot, play_slot());
    assert_eq!(capture.note, Some(11));
    // Too soon: the press could still be followed by more.
    assert!(learn.settled(200).is_none());
    let landed = learn.settled(400).expect("settled");
    assert_eq!(landed.port, "port");
    assert_eq!(landed.slot, play_slot());
    assert_eq!(landed.capture.note, Some(11));
    assert!(learn.armed_slot().is_none());
    let specs = learn.draft("port").expect("a draft").specs();
    assert_eq!(specs.len(), 1);
    assert_eq!(specs[0].note, Some(11));
}

#[test]
fn rebinding_a_slot_replaces_its_capture_rather_than_adding_one() {
    let mut draft = Draft::empty("port");
    let first = Capture {
        channel: 1,
        note: Some(11),
        cc: None,
        resolution: None,
        button: Some(ButtonSpec::Momentary),
    };
    draft.bind(play_slot(), first);
    draft.bind(
        play_slot(),
        Capture {
            note: Some(12),
            ..first
        },
    );
    let specs = draft.specs();
    assert_eq!(specs.len(), 1);
    assert_eq!(specs[0].note, Some(12));
}

#[test]
fn two_slots_on_one_address_are_both_reported_as_colliding() {
    let mut draft = Draft::empty("port");
    let taken = Capture {
        channel: 1,
        note: Some(11),
        cc: None,
        resolution: None,
        button: Some(ButtonSpec::Momentary),
    };
    let cue = Slot {
        action: "cue_toggle".to_string(),
        ..play_slot()
    };
    draft.bind(play_slot(), taken);
    assert!(draft.colliding().is_empty());
    draft.bind(cue.clone(), taken);
    assert_eq!(draft.colliding(), vec![play_slot(), cue]);
}

#[test]
fn a_browse_press_is_a_different_slot_from_the_one_the_other_way() {
    let forward = Slot {
        action: "browse".to_string(),
        deck: None,
        slot: None,
        param: None,
        steps: Some(1),
    };
    let back = Slot {
        steps: Some(-1),
        ..forward.clone()
    };
    let mut draft = Draft::empty("port");
    let capture = Capture {
        channel: 7,
        note: Some(65),
        cc: None,
        resolution: None,
        button: Some(ButtonSpec::Momentary),
    };
    draft.bind(forward, capture);
    draft.bind(back, capture);
    assert_eq!(draft.specs().len(), 2);
}

fn button(note: u8) -> Capture {
    Capture {
        channel: 1,
        note: Some(note),
        cc: None,
        resolution: None,
        button: Some(ButtonSpec::Momentary),
    }
}

fn play_on(deck: &str) -> Slot {
    Slot {
        deck: Some(deck.to_string()),
        ..play_slot()
    }
}

#[test]
fn a_surface_bound_on_one_deck_plays_whichever_deck_it_is_given() {
    let mut draft = Draft::empty("port");
    draft.bind(play_on("A"), button(11));
    assert_eq!(draft.file().decks, DeckScope::Assigned);
}

#[test]
fn a_surface_bound_across_decks_names_the_decks_itself() {
    let mut draft = Draft::empty("port");
    draft.bind(play_on("A"), button(11));
    draft.bind(play_on("B"), button(12));
    assert_eq!(draft.file().decks, DeckScope::Fixed);
}

#[test]
fn a_surface_that_plays_one_deck_writes_no_deck_on_its_bindings() {
    let mut draft = Draft::empty("port");
    draft.bind(play_on("A"), button(11));
    let written = draft.file();
    assert!(written.bindings.iter().all(|spec| spec.deck.is_none()));
}

#[test]
fn a_surface_that_names_its_decks_keeps_them_on_every_binding() {
    let mut draft = Draft::empty("port");
    draft.bind(play_on("A"), button(11));
    draft.bind(play_on("B"), button(12));
    let written = draft.file();
    assert!(written.bindings.iter().all(|spec| spec.deck.is_some()));
}

#[test]
fn an_empty_draft_writes_the_header_a_shipped_mapping_uses() {
    let draft = Draft::empty("port");
    let written = draft.file();
    assert_eq!(written.version, 3);
    assert_eq!(MAPPING_VERSION, 3);
    assert_eq!(written.name, "port");
    assert_eq!(written.matches, vec!["port".to_string()]);
    assert_eq!(written.decks, DeckScope::Assigned);
    assert!(written.bindings.is_empty());
}

#[test]
fn a_file_writes_its_bindings_in_vocabulary_order_not_capture_order() {
    let mut draft = Draft::empty("port");
    let note = Capture {
        channel: 7,
        note: Some(65),
        cc: None,
        resolution: None,
        button: Some(ButtonSpec::Momentary),
    };
    let browse = |steps| Slot {
        action: "browse".to_string(),
        deck: None,
        slot: None,
        param: None,
        steps,
    };
    draft.bind(browse(Some(1)), note);
    draft.bind(
        Slot {
            action: "enter".to_string(),
            ..browse(None)
        },
        note,
    );
    draft.bind(browse(Some(-1)), note);

    let written: Vec<(String, Option<i32>)> = draft
        .file()
        .bindings
        .into_iter()
        .map(|binding| (binding.action, binding.steps))
        .collect();
    assert_eq!(
        written,
        vec![
            ("browse".to_string(), Some(-1)),
            ("browse".to_string(), Some(1)),
            ("enter".to_string(), None)
        ]
    );
}

// A surface reaches a deck's jog at two addresses when SHIFT moves it.
#[test]
fn a_slot_the_file_reached_twice_is_one_entry_carrying_both_addresses() {
    let wheel = |cc: u8| BindingSpec {
        channel: 1,
        action: "jog".to_string(),
        note: None,
        cc: Some(cc),
        resolution: Some(ResolutionSpec::CentreDelta),
        button: None,
        deck: Some("A".to_string()),
        slot: None,
        param: None,
        steps: None,
    };
    let play = BindingSpec {
        channel: 1,
        action: "play_toggle".to_string(),
        note: Some(11),
        cc: None,
        resolution: None,
        button: None,
        deck: Some("A".to_string()),
        slot: None,
        param: None,
        steps: None,
    };
    let mapping = match parse_mapping(MappingFile {
        version: MAPPING_VERSION,
        name: "Surface".to_string(),
        matches: vec!["SURFACE".to_string()],
        decks: DeckScope::Fixed,
        per_deck: Vec::new(),
        deck_bindings: Vec::new(),
        bindings: vec![wheel(33), play, wheel(38)],
    }) {
        Ok(mapping) => mapping,
        Err(_) => panic!("a mapping"),
    };
    let draft = Draft::of(&mapping);
    let entries = draft.entries();
    assert_eq!(entries.len(), 2);
    // Vocabulary order: play_toggle comes before jog.
    assert_eq!(entries[0].slot, play_slot());
    let jog = &entries[1];
    assert_eq!(jog.slot.action, "jog");
    let addresses: Vec<Option<u8>> = jog.captures.iter().map(|held| held.cc).collect();
    assert_eq!(addresses, vec![Some(33), Some(38)]);

    // Rebinding the slot replaces both.
    let mut draft = draft;
    draft.bind(
        jog.slot.clone(),
        Capture {
            channel: 1,
            note: None,
            cc: Some(90),
            resolution: Some(ResolutionSpec::CentreDelta),
            button: None,
        },
    );
    let held: Vec<Option<u8>> = draft
        .specs()
        .iter()
        .filter(|spec| spec.action == "jog" && spec.deck.as_deref() == Some("A"))
        .map(|spec| spec.cc)
        .collect();
    assert_eq!(held, vec![Some(90)]);
}

#[test]
fn a_browse_encoder_and_a_browse_press_read_different_controls() {
    let mut learn = Learn::default();
    learn.start("port", None);
    let encoder = Slot {
        action: "browse".to_string(),
        deck: None,
        slot: None,
        param: None,
        steps: None,
    };
    learn.arm("port", encoder, 0).expect("browse");
    assert!(learn.observe("port", &[NOTE_ON | 6, 65, 127], 1).is_none());

    let press = Slot {
        action: "browse".to_string(),
        deck: None,
        slot: None,
        param: None,
        steps: Some(1),
    };
    learn.arm("port", press, 2).expect("browse forward");
    assert!(learn.observe("port", &[NOTE_ON | 6, 65, 127], 3).is_some());
}

#[test]
fn a_port_name_becomes_one_hyphenated_file_name() {
    let mut draft = Draft::empty("DDJ-FLX6 MIDI 1");
    assert_eq!(draft.file_name(), "ddj-flx6-midi-1.json");
    draft.name = "XDJ-1000MK2".to_string();
    assert_eq!(draft.file_name(), "xdj-1000mk2.json");
}

#[test]
fn separators_collapse_and_none_leads_or_trails() {
    let mut draft = Draft::empty("  My -- Controller!! ");
    assert_eq!(draft.file_name(), "my-controller.json");
    draft.name = "***".to_string();
    assert_eq!(draft.file_name(), ".json");
}

#[test]
fn messages_for_a_port_that_is_not_the_armed_one_are_ignored() {
    let mut learn = Learn::default();
    learn.start("port", None);
    learn.arm("port", play_slot(), 0).expect("play_toggle");
    assert!(learn.observe("other", &[NOTE_ON, 11, 127], 1).is_none());
}

#[test]
fn arming_an_action_the_vocabulary_does_not_offer_is_refused() {
    let mut learn = Learn::default();
    learn.start("port", None);
    let refused = learn.arm(
        "port",
        Slot {
            action: "teleport".to_string(),
            deck: None,
            slot: None,
            param: None,
            steps: None,
        },
        0,
    );
    assert_eq!(refused, Err("unknown action 'teleport'".to_string()));
}

#[test]
fn a_discarded_draft_is_gone_and_its_slot_disarmed() {
    let mut learn = Learn::default();
    learn.start("port", None);
    assert!(learn.learning("port"));
    learn.arm("port", play_slot(), 0).expect("play_toggle");
    learn.discard("port");
    assert!(learn.draft("port").is_none());
    assert!(learn.armed_slot().is_none());
    learn.stop();
    assert!(!learn.learning("port"));
}

#[test]
fn setting_a_button_reaches_every_address_of_the_slot() {
    let mut draft = Draft::empty("port");
    draft.bind(play_slot(), button(11));
    draft.set_button(&play_slot(), ButtonSpec::Trigger);
    assert_eq!(draft.specs()[0].button, Some(ButtonSpec::Trigger));
    draft.clear(&play_slot());
    assert!(draft.specs().is_empty());
}
