use beatmatcher::decode::Move;
use beatmatcher::learn::Draft;
use beatmatcher::mapping::{parse_mapping, BindingSpec, DeckScope, Feedback, Mapping, MappingFile, MAPPING_VERSION};
use beatmatcher::midi::{send_led, DeckError, MidiState};
use beatmatcher::wire::NOTE_ON;

fn binding(action: &str, note: u8, deck: Option<&str>) -> BindingSpec {
    BindingSpec {
        channel: 1,
        action: action.to_string(),
        note: Some(note),
        cc: None,
        resolution: None,
        button: None,
        deck: deck.map(|deck| deck.to_string()),
        slot: None,
        param: None,
        steps: None,
    }
}

fn mapping(name: &str, claims: &str, decks: DeckScope, bindings: Vec<BindingSpec>) -> Mapping {
    match parse_mapping(MappingFile {
        version: MAPPING_VERSION,
        name: name.to_string(),
        matches: vec![claims.to_string()],
        decks,
        per_deck: Vec::new(),
        deck_bindings: Vec::new(),
        bindings,
    }) {
        Ok(mapping) => mapping,
        Err(_) => panic!("a mapping"),
    }
}

fn state() -> MidiState {
    MidiState::new(vec![
        mapping(
            "Mixer",
            "MIXER",
            DeckScope::Fixed,
            vec![binding("cue_toggle", 84, Some("A")), binding("quantize_toggle", 48, Some("A"))],
        ),
        mapping("Player", "PLAYER", DeckScope::Assigned, vec![binding("play_toggle", 11, None)]),
    ])
}

fn ports(names: &[&str]) -> Vec<String> {
    names.iter().map(|name| name.to_string()).collect()
}

#[test]
fn a_rescan_lists_every_port_by_name_with_its_mapping() {
    let mut midi = state();
    midi.sync_devices(&ports(&["PLAYER 1", "MIXER MIDI", "IAC Bus"]));
    let list = midi.device_list();
    let listed: Vec<(&str, Option<&str>, bool)> = list
        .iter()
        .map(|device| (device.port.as_str(), device.mapping.as_deref(), device.assignable))
        .collect();
    assert_eq!(
        listed,
        vec![
            ("IAC Bus", None, false),
            ("MIXER MIDI", Some("Mixer"), false),
            ("PLAYER 1", Some("Player"), true)
        ]
    );
}

#[test]
fn a_mapping_with_its_own_decks_plays_as_soon_as_it_is_seen() {
    let mut midi = state();
    midi.sync_devices(&ports(&["MIXER MIDI"]));
    assert_eq!(
        midi.resolve("MIXER MIDI", &[NOTE_ON, 84, 127]),
        Some(Move::Cue { deck: "A".to_string() })
    );
    assert_eq!(midi.resolve("ELSEWHERE", &[NOTE_ON, 84, 127]), None);
}

#[test]
fn a_player_plays_nothing_until_it_is_given_a_deck() {
    let mut midi = state();
    midi.sync_devices(&ports(&["PLAYER 1"]));
    assert_eq!(midi.resolve("PLAYER 1", &[NOTE_ON, 11, 127]), None);
    assert_eq!(midi.set_device_deck("PLAYER 1", Some("C".to_string())), Ok(()));
    assert_eq!(
        midi.resolve("PLAYER 1", &[NOTE_ON, 11, 127]),
        Some(Move::Play { deck: "C".to_string() })
    );
    assert_eq!(midi.device_list()[0].deck.as_deref(), Some("C"));
    assert_eq!(midi.set_device_deck("PLAYER 1", None), Ok(()));
    assert_eq!(midi.resolve("PLAYER 1", &[NOTE_ON, 11, 127]), None);
}

#[test]
fn giving_a_deck_to_a_port_without_a_device_or_mapping_is_refused() {
    let mut midi = state();
    midi.sync_devices(&ports(&["IAC Bus"]));
    assert_eq!(midi.set_device_deck("NOWHERE", Some("A".to_string())), Err(DeckError::NoDevice));
    assert_eq!(midi.set_device_deck("IAC Bus", Some("A".to_string())), Err(DeckError::NoMapping));
}

#[test]
fn a_rescan_keeps_a_device_still_present_and_forgets_one_gone() {
    let mut midi = state();
    midi.sync_devices(&ports(&["PLAYER 1", "MIXER MIDI"]));
    midi.set_device_deck("PLAYER 1", Some("B".to_string())).expect("a deck");
    midi.sync_devices(&ports(&["PLAYER 1", "PLAYER 1"]));
    let list = midi.device_list();
    assert_eq!(list.len(), 1);
    assert_eq!(list[0].deck.as_deref(), Some("B"));
}

#[test]
fn a_light_is_written_to_every_device_that_has_it() {
    let mut midi = state();
    midi.sync_devices(&ports(&["MIXER MIDI", "PLAYER 1"]));
    let on = send_led(&midi, Feedback::Cue, "A", true);
    assert_eq!(on, vec![("MIXER MIDI".to_string(), vec![NOTE_ON, 84, 127])]);
    let off = send_led(&midi, Feedback::Quantize, "A", false);
    assert_eq!(off, vec![("MIXER MIDI".to_string(), vec![NOTE_ON, 48, 0])]);
    assert!(send_led(&midi, Feedback::Cue, "B", true).is_empty());
}

#[test]
fn a_draft_seeded_from_a_mapping_reads_deckless_bindings_onto_the_first_deck() {
    let player = mapping("Player", "PLAYER", DeckScope::Assigned, vec![binding("play_toggle", 11, None)]);
    let draft = Draft::of(&player);
    let specs = draft.specs();
    assert_eq!(specs.len(), 1);
    assert_eq!(specs[0].deck.as_deref(), Some("A"));
    // Written back, a surface on one deck names none.
    assert!(draft.file().bindings.iter().all(|spec| spec.deck.is_none()));
}

#[test]
fn every_light_a_device_can_show_is_resynced_once_cue_first() {
    let mut midi = MidiState::new(vec![
        mapping(
            "Mixer",
            "MIXER",
            DeckScope::Fixed,
            vec![
                binding("quantize_toggle", 48, Some("B")),
                binding("cue_toggle", 84, Some("B")),
                binding("cue_toggle", 85, Some("A")),
            ],
        ),
        mapping("Other", "OTHER", DeckScope::Fixed, vec![binding("cue_toggle", 84, Some("A"))]),
    ]);
    midi.sync_devices(&ports(&["MIXER MIDI", "OTHER MIDI"]));
    assert_eq!(
        midi.lights(),
        vec![
            (Feedback::Cue, "A".to_string()),
            (Feedback::Cue, "B".to_string()),
            (Feedback::Quantize, "B".to_string())
        ]
    );
}
