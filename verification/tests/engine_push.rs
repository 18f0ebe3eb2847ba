use beatmatcher::engine_push::{plan_flush, Address, EnginePush, ParamOrigin};

#[test]
fn a_ui_write_is_never_pushed_back() {
    let mut push = EnginePush::new();
    push.mark(ParamOrigin::Ui, "A", "eq", "low");
    assert!(push.take().dirty.is_empty());
}

#[test]
fn a_write_the_ui_did_not_make_is_pushed() {
    let mut push = EnginePush::new();
    push.mark(ParamOrigin::Midi, "A", "eq", "low");
    assert_eq!(push.take().dirty.len(), 1);
}

#[test]
fn repeated_writes_to_one_address_collapse() {
    let mut push = EnginePush::new();
    for _ in 0..500 {
        push.mark(ParamOrigin::Midi, "A", "eq", "low");
    }
    push.mark(ParamOrigin::Midi, "A", "eq", "mid");
    push.mark(ParamOrigin::Midi, "B", "eq", "low");

    let taken = push.take();
    assert_eq!(taken.dirty.len(), 3);
}

#[test]
fn the_crossfader_and_its_assigns_are_separate_addresses() {
    let mut push = EnginePush::new();
    push.mark_xfader(ParamOrigin::Midi);
    push.mark_xfader(ParamOrigin::Midi);
    push.mark_xfader_assign(ParamOrigin::Midi, "A");
    push.mark_xfader_assign(ParamOrigin::Midi, "B");

    assert_eq!(push.take().dirty.len(), 3);
}

#[test]
fn a_ui_crossfader_move_is_never_pushed_back() {
    let mut push = EnginePush::new();
    push.mark_xfader(ParamOrigin::Ui);
    push.mark_xfader_assign(ParamOrigin::Ui, "A");
    assert!(push.take().dirty.is_empty());
}

#[test]
fn a_ui_transport_move_is_never_pushed_back() {
    let mut push = EnginePush::new();
    push.mark_transport(ParamOrigin::Ui, "A", true);
    let taken = push.take();
    assert!(taken.dirty.is_empty());
    assert!(taken.loops_cleared.is_empty());
}

#[test]
fn a_cleared_loop_region_survives_repeated_transport_marks() {
    let mut push = EnginePush::new();
    push.mark_transport(ParamOrigin::Midi, "A", true);
    push.mark_transport(ParamOrigin::Midi, "A", false);
    push.mark_transport(ParamOrigin::Midi, "B", false);

    let taken = push.take();
    assert_eq!(taken.dirty.len(), 2);
    assert!(taken.loop_cleared("A"));
    assert!(!taken.loop_cleared("B"));
}

#[test]
fn a_cleared_loop_region_does_not_outlive_its_batch() {
    let mut push = EnginePush::new();
    push.mark_transport(ParamOrigin::Midi, "A", true);
    push.take();
    push.mark_transport(ParamOrigin::Midi, "A", false);

    assert!(push.take().loops_cleared.is_empty());
}

#[test]
fn transport_is_a_separate_address_from_a_param() {
    let mut push = EnginePush::new();
    push.mark_transport(ParamOrigin::Midi, "A", false);
    push.mark(ParamOrigin::Midi, "A", "fader", "gain");
    push.mark_cue(ParamOrigin::Midi, "A");
    push.mark_rate(ParamOrigin::Midi, "A");

    assert_eq!(push.take().dirty.len(), 4);
}

#[test]
fn a_tempo_sweep_collapses_to_one_rate_per_deck() {
    let mut push = EnginePush::new();
    for _ in 0..2000 {
        push.mark_rate(ParamOrigin::Midi, "A");
    }
    push.mark_rate(ParamOrigin::Midi, "B");

    assert_eq!(push.take().dirty.len(), 2);
}

#[test]
fn a_ui_rate_move_is_never_pushed_back() {
    let mut push = EnginePush::new();
    push.mark_rate(ParamOrigin::Ui, "A");
    assert!(push.take().dirty.is_empty());
}

#[test]
fn taking_drains() {
    let mut push = EnginePush::new();
    push.mark(ParamOrigin::Midi, "A", "eq", "low");
    assert_eq!(push.take().dirty.len(), 1);
    assert!(push.take().dirty.is_empty());
}

// The batch is flushed in address order whatever order the writes came in.
#[test]
fn a_batch_comes_out_in_flush_order() {
    let mut push = EnginePush::new();
    push.mark_rate(ParamOrigin::Midi, "B");
    push.mark_transport(ParamOrigin::Midi, "A", true);
    push.mark_xfader(ParamOrigin::Midi);
    push.mark_cue(ParamOrigin::Midi, "B");
    push.mark(ParamOrigin::Midi, "B", "eq", "low");
    push.mark(ParamOrigin::Midi, "A", "fader", "gain");
    push.mark(ParamOrigin::Midi, "A", "eq", "mid");
    push.mark_xfader_assign(ParamOrigin::Midi, "C");
    push.mark_transport(ParamOrigin::Midi, "C", true);
    let taken = push.take();
    assert_eq!(
        taken.dirty,
        vec![
            Address::Param("A".to_string(), "eq".to_string(), "mid".to_string()),
            Address::Param("A".to_string(), "fader".to_string(), "gain".to_string()),
            Address::Param("B".to_string(), "eq".to_string(), "low".to_string()),
            Address::Cue("B".to_string()),
            Address::Xfader,
            Address::XfaderAssign("C".to_string()),
            Address::Transport("A".to_string()),
            Address::Transport("C".to_string()),
            Address::Rate("B".to_string()),
        ]
    );
    assert_eq!(taken.loops_cleared, vec!["A".to_string(), "C".to_string()]);
}

#[test]
fn a_flush_sends_each_address_on_its_own_event() {
    let mut push = EnginePush::new();
    push.mark_cue(ParamOrigin::Midi, "B");
    push.mark_xfader(ParamOrigin::Midi);
    push.mark_xfader_assign(ParamOrigin::Midi, "A");
    push.mark(ParamOrigin::Midi, "A", "eq", "low");
    push.mark_transport(ParamOrigin::Midi, "A", true);
    push.mark_transport(ParamOrigin::Midi, "C", false);
    push.mark_rate(ParamOrigin::Midi, "D");
    let flush = plan_flush(&push.take());
    let label = |deck: &str, slot: &str, param: &str| (deck.to_string(), slot.to_string(), param.to_string());
    assert_eq!(
        flush.params,
        vec![
            label("A", "eq", "low"),
            label("B", "cue", "active"),
            label("", "xfader", "position"),
            label("A", "xfader", "assign"),
        ]
    );
    assert_eq!(flush.transport, vec![("A".to_string(), true), ("C".to_string(), false)]);
    assert_eq!(flush.rates, vec!["D".to_string()]);
}
