use beatmatcher::mapping::{BindingSpec, DeckScope};
use beatmatcher::vocabulary::{actions, spec, vocabulary, MixerParam, MixerSlot};

fn spec_for(action: &str) -> BindingSpec {
    BindingSpec {
        channel: 1,
        action: action.to_string(),
        note: None,
        cc: Some(1),
        resolution: None,
        button: None,
        deck: Some("A".to_string()),
        slot: Some("eq".to_string()),
        param: Some("low".to_string()),
        steps: None,
    }
}

#[test]
fn every_offered_action_builds_a_binding_that_reports_the_same_id() {
    for action in actions() {
        let built = spec_for(action.id)
            .build(DeckScope::Fixed, None)
            .unwrap_or_else(|error| panic!("{}: {error:?}", action.id));
        assert_eq!(built.action.id(), action.id);
    }
}

#[test]
fn an_action_needing_a_deck_is_the_one_that_refuses_a_binding_without_one() {
    for action in actions() {
        let built = BindingSpec {
            deck: None,
            ..spec_for(action.id)
        }
        .build(DeckScope::Fixed, None);
        assert_eq!(built.is_err(), action.needs_deck, "{}", action.id);
    }
}

#[test]
fn an_addressed_action_is_the_one_that_refuses_a_binding_without_a_slot() {
    for action in actions() {
        let built = BindingSpec {
            slot: None,
            param: None,
            ..spec_for(action.id)
        }
        .build(DeckScope::Fixed, None);
        assert_eq!(built.is_err(), action.addressed, "{}", action.id);
    }
}

#[test]
fn the_actions_that_read_a_release_are_the_held_ones() {
    let held: Vec<&str> = actions()
        .iter()
        .filter(|action| action.needs_release)
        .map(|action| action.id)
        .collect();
    assert_eq!(held, vec!["transport_cue", "shift"]);
}

#[test]
fn a_lookup_prefers_the_exact_steps_and_falls_back_to_the_id() {
    assert_eq!(spec("browse", Some(-1)).expect("browse back").steps, Some(-1));
    assert_eq!(spec("browse", Some(5)).expect("browse").steps, None);
    assert!(spec("teleport", None).is_none());
}

#[test]
fn a_bool_param_is_not_an_address_a_control_change_can_reach() {
    let strip = vec![
        MixerSlot {
            slot: "eq".to_string(),
            params: vec![MixerParam { id: "low".to_string(), is_switch: false }],
        },
        MixerSlot {
            slot: "filter".to_string(),
            params: vec![
                MixerParam { id: "value".to_string(), is_switch: false },
                MixerParam { id: "active".to_string(), is_switch: true },
            ],
        },
    ];
    let offered = vocabulary(&strip).deck_params;
    assert!(offered
        .iter()
        .any(|address| (address.slot.as_str(), address.param.as_str()) == ("filter", "value")));
    assert!(!offered
        .iter()
        .any(|address| (address.slot.as_str(), address.param.as_str()) == ("filter", "active")));
    assert_eq!(offered.len(), 2);
}
