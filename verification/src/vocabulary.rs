//! The closed list of actions a mapping may name, and what each needs.

use vstd::prelude::*;
use crate::mapping::{
    kind_id, kind_needs_deck, lemma_kind_ids_distinct, lemma_kind_named_id, spec_build, spec_kind_id,
    Action, ActionKind, BindingSpec, DeckScope,
};
use crate::text::same_text;

verus! {

/// What a control has to be for an action to read it. The decoder reaches an
/// action from exactly one of these, so a binding that pairs the wrong two is
/// silently dead at runtime.
#[derive(Clone, Copy, Debug, PartialEq, Eq, Structural)]
pub enum ControlKind {
    /// A note, pressed and released.
    Button,
    /// A control change reporting where it sits.
    Positional,
    /// A control change reporting how far it moved.
    Relative,
}

#[derive(Clone, Copy, Debug, PartialEq, Eq)]
pub struct ActionSpec {
    pub id: &'static str,
    pub needs_deck: bool,
    /// A mixer address, so the slot and param come from the manifest rather than
    /// from this list.
    pub addressed: bool,
    /// How far one press moves the cursor. An action offered at more than one
    /// value is that many separate bindings, because a press carries its own
    /// distance and the control it is on cannot report one.
    pub steps: Option<i32>,
    pub kind: ControlKind,
    /// The decoder turns this action's release edge into its own move, so a button
    /// that reports only its press leaves the deck holding the press forever.
    pub needs_release: bool,
}

pub open spec fn spec_deck_action(id: &'static str, kind: ControlKind) -> ActionSpec {
    ActionSpec { id, needs_deck: true, addressed: false, steps: None, kind, needs_release: false }
}

pub open spec fn spec_held_deck_action(id: &'static str) -> ActionSpec {
    ActionSpec { needs_release: true, ..spec_deck_action(id, ControlKind::Button) }
}

pub open spec fn spec_global_action(id: &'static str, kind: ControlKind) -> ActionSpec {
    ActionSpec { id, needs_deck: false, addressed: false, steps: None, kind, needs_release: false }
}

pub open spec fn spec_browse(steps: Option<i32>, kind: ControlKind) -> ActionSpec {
    ActionSpec { id: "browse", needs_deck: false, addressed: false, steps, kind, needs_release: false }
}

pub fn deck_action(id: &'static str, kind: ControlKind) -> (spec: ActionSpec)
    ensures
        spec == spec_deck_action(id, kind),
{
    ActionSpec { id, needs_deck: true, addressed: false, steps: None, kind, needs_release: false }
}

/// Held rather than latched: the deck acts on the press and undoes it on the release.
pub fn held_deck_action(id: &'static str) -> (spec: ActionSpec)
    ensures
        spec == spec_held_deck_action(id),
{
    ActionSpec { needs_release: true, ..deck_action(id, ControlKind::Button) }
}

pub fn global_action(id: &'static str, kind: ControlKind) -> (spec: ActionSpec)
    ensures
        spec == spec_global_action(id, kind),
{
    ActionSpec { id, needs_deck: false, addressed: false, steps: None, kind, needs_release: false }
}

pub fn browse(steps: Option<i32>, kind: ControlKind) -> (spec: ActionSpec)
    ensures
        spec == spec_browse(steps, kind),
{
    ActionSpec { id: "browse", needs_deck: false, addressed: false, steps, kind, needs_release: false }
}

/// Every action a mapping file may name, in the order the learn panel offers them.
pub open spec fn action_table() -> Seq<ActionSpec> {
    seq![
        ActionSpec {
            id: "deck_param",
            needs_deck: true,
            addressed: true,
            steps: None,
            kind: ControlKind::Positional,
            needs_release: false,
        },
        spec_deck_action("play_toggle", ControlKind::Button),
        spec_deck_action("cue_toggle", ControlKind::Button),
        spec_held_deck_action("transport_cue"),
        spec_deck_action("loop_in", ControlKind::Button),
        spec_deck_action("loop_out", ControlKind::Button),
        spec_deck_action("loop_exit_or_reloop", ControlKind::Button),
        spec_deck_action("quantize_toggle", ControlKind::Button),
        spec_held_deck_action("shift"),
        spec_deck_action("eject", ControlKind::Button),
        spec_deck_action("load", ControlKind::Button),
        spec_deck_action("tempo_fader", ControlKind::Positional),
        spec_deck_action("jog", ControlKind::Relative),
        spec_global_action("xfader_position", ControlKind::Positional),
        spec_browse(None, ControlKind::Relative),
        spec_browse(Some(-1i32), ControlKind::Button),
        spec_browse(Some(1i32), ControlKind::Button),
        spec_global_action("enter", ControlKind::Button),
        spec_global_action("back", ControlKind::Button),
        spec_global_action("toggle_view", ControlKind::Button),
    ]
}

/// Every action a mapping file may name. Parsing a mapping refuses a file naming
/// anything absent from here.
pub fn actions() -> (table: Vec<ActionSpec>)
    ensures
        table@ == action_table(),
{
    let table = vec![
        ActionSpec {
            id: "deck_param",
            needs_deck: true,
            addressed: true,
            steps: None,
            kind: ControlKind::Positional,
            needs_release: false,
        },
        deck_action("play_toggle", ControlKind::Button),
        deck_action("cue_toggle", ControlKind::Button),
        held_deck_action("transport_cue"),
        deck_action("loop_in", ControlKind::Button),
        deck_action("loop_out", ControlKind::Button),
        deck_action("loop_exit_or_reloop", ControlKind::Button),
        deck_action("quantize_toggle", ControlKind::Button),
        held_deck_action("shift"),
        deck_action("eject", ControlKind::Button),
        deck_action("load", ControlKind::Button),
        deck_action("tempo_fader", ControlKind::Positional),
        deck_action("jog", ControlKind::Relative),
        global_action("xfader_position", ControlKind::Positional),
        browse(None, ControlKind::Relative),
        browse(Some(-1), ControlKind::Button),
        browse(Some(1), ControlKind::Button),
        global_action("enter", ControlKind::Button),
        global_action("back", ControlKind::Button),
        global_action("toggle_view", ControlKind::Button),
    ];
    assert(table@ =~= action_table());
    table
}

/// The first entry from `from` on with this id, and with these steps when
/// `exact` asks for it.
pub open spec fn lookup_from(table: Seq<ActionSpec>, id: Seq<char>, steps: Option<i32>, exact: bool, from: int) -> Option<
    ActionSpec,
>
    decreases table.len() - from,
{
    if from < 0 || from >= table.len() {
        None
    } else if table[from].id@ == id && (!exact || table[from].steps == steps) {
        Some(table[from])
    } else {
        lookup_from(table, id, steps, exact, from + 1)
    }
}

/// The entry with this id and steps, or failing that the first with this id.
pub open spec fn spec_lookup(id: Seq<char>, steps: Option<i32>) -> Option<ActionSpec> {
    match lookup_from(action_table(), id, steps, true, 0) {
        Some(found) => Some(found),
        None => lookup_from(action_table(), id, steps, false, 0),
    }
}

fn lookup(table: &Vec<ActionSpec>, id: &str, steps: Option<i32>, exact: bool) -> (found: Option<ActionSpec>)
    ensures
        found == lookup_from(table@, id@, steps, exact, 0),
{
    let mut i: usize = 0;
    while i < table.len()
        invariant
            i <= table.len(),
            lookup_from(table@, id@, steps, exact, 0) == lookup_from(table@, id@, steps, exact, i as int),
        decreases table.len() - i,
    {
        let entry = table[i];
        if same_text(entry.id, id) && (!exact || entry.steps == steps) {
            return Some(entry);
        }
        i += 1;
    }
    None
}

/// The offered action with this id and steps, or the first with this id.
pub fn spec(id: &str, steps: Option<i32>) -> (found: Option<ActionSpec>)
    ensures
        found == spec_lookup(id@, steps),
{
    let table = actions();
    match lookup(&table, id, steps, true) {
        Some(found) => Some(found),
        None => lookup(&table, id, steps, false),
    }
}

/// One parameter of a mixer strip slot, and whether it is a switch.
pub struct MixerParam {
    pub id: String,
    pub is_switch: bool,
}

/// One slot of the live mixer's strip and its parameters, in manifest order.
pub struct MixerSlot {
    pub slot: String,
    pub params: Vec<MixerParam>,
}

/// One mixer address a `deck_param` binding can name.
pub struct ParamAddress {
    pub slot: String,
    pub param: String,
}

/// What the frontend needs to offer a mapping: the closed action list and the
/// mixer addresses the live manifest exposes.
pub struct Vocabulary {
    pub actions: Vec<ActionSpec>,
    pub deck_params: Vec<ParamAddress>,
}

pub open spec fn strip_view(strip: Seq<MixerSlot>) -> Seq<(Seq<char>, Seq<(Seq<char>, bool)>)> {
    strip.map_values(
        |slot: MixerSlot|
            (slot.slot@, slot.params@.map_values(|param: MixerParam| (param.id@, param.is_switch))),
    )
}

/// A slot's addresses: each of its parameters that is not a switch.
pub open spec fn slot_addresses(slot: Seq<char>, params: Seq<(Seq<char>, bool)>) -> Seq<(Seq<char>, Seq<char>)>
    decreases params.len(),
{
    if params.len() == 0 {
        Seq::empty()
    } else {
        let rest = slot_addresses(slot, params.drop_last());
        if params.last().1 {
            rest
        } else {
            rest.push((slot, params.last().0))
        }
    }
}

/// A control change places a value on a range, which a switch does not have, so
/// a switch is not reachable from a `deck_param` binding.
pub open spec fn deck_param_addresses(strip: Seq<(Seq<char>, Seq<(Seq<char>, bool)>)>) -> Seq<
    (Seq<char>, Seq<char>),
>
    decreases strip.len(),
{
    if strip.len() == 0 {
        Seq::empty()
    } else {
        deck_param_addresses(strip.drop_last()) + slot_addresses(strip.last().0, strip.last().1)
    }
}

pub open spec fn addresses_view(addresses: Seq<ParamAddress>) -> Seq<(Seq<char>, Seq<char>)> {
    addresses.map_values(|address: ParamAddress| (address.slot@, address.param@))
}

/// The vocabulary over the live mixer's strip.
pub fn vocabulary(strip: &Vec<MixerSlot>) -> (offered: Vocabulary)
    ensures
        offered.actions@ == action_table(),
        addresses_view(offered.deck_params@) == deck_param_addresses(strip_view(strip@)),
{
    let ghost view = strip_view(strip@);
    let mut deck_params: Vec<ParamAddress> = Vec::new();
    let mut i: usize = 0;
    assert(view.take(0) =~= Seq::<(Seq<char>, Seq<(Seq<char>, bool)>)>::empty());
    while i < strip.len()
        invariant
            i <= strip.len(),
            view == strip_view(strip@),
            addresses_view(deck_params@) == deck_param_addresses(view.take(i as int)),
        decreases strip.len() - i,
    {
        let slot = &strip[i];
        let ghost params = slot.params@.map_values(|param: MixerParam| (param.id@, param.is_switch));
        assert(view[i as int] == (slot.slot@, params));
        assert(view.take(i + 1).drop_last() =~= view.take(i as int));
        assert(view.take(i + 1).last() == view[i as int]);
        let ghost before = addresses_view(deck_params@);
        let mut j: usize = 0;
        assert(params.take(0) =~= Seq::<(Seq<char>, bool)>::empty());
        assert(before + slot_addresses(slot.slot@, params.take(0)) =~= before);
        while j < slot.params.len()
            invariant
                j <= slot.params.len(),
                params == slot.params@.map_values(|param: MixerParam| (param.id@, param.is_switch)),
                addresses_view(deck_params@) == before + slot_addresses(slot.slot@, params.take(j as int)),
            decreases slot.params.len() - j,
        {
            let param = &slot.params[j];
            assert(params[j as int] == (param.id@, param.is_switch));
            assert(params.take(j + 1).drop_last() =~= params.take(j as int));
            assert(params.take(j + 1).last() == params[j as int]);
            let ghost prev = addresses_view(deck_params@);
            if !param.is_switch {
                deck_params.push(ParamAddress { slot: slot.slot.clone(), param: param.id.clone() });
                assert(addresses_view(deck_params@) =~= prev.push((slot.slot@, param.id@)));
                assert(before + slot_addresses(slot.slot@, params.take(j + 1)) =~= prev.push(
                    (slot.slot@, param.id@),
                ));
            }
            j += 1;
        }
        assert(params.take(j as int) =~= params);
        i += 1;
    }
    assert(view.take(i as int) =~= view);
    Vocabulary { actions: actions(), deck_params }
}

impl Action {
    /// The name this action carries in a mapping file.
    pub fn id(&self) -> (id: &'static str)
        ensures
            id == spec_kind_id(self@.kind),
    {
        let kind = match self {
            Action::DeckParam { .. } => ActionKind::DeckParam,
            Action::CueToggle { .. } => ActionKind::CueToggle,
            Action::PlayToggle { .. } => ActionKind::PlayToggle,
            Action::TransportCue { .. } => ActionKind::TransportCue,
            Action::LoopIn { .. } => ActionKind::LoopIn,
            Action::LoopOut { .. } => ActionKind::LoopOut,
            Action::LoopExitOrReloop { .. } => ActionKind::LoopExitOrReloop,
            Action::TempoFader { .. } => ActionKind::TempoFader,
            Action::Jog { .. } => ActionKind::Jog,
            Action::Shift { .. } => ActionKind::Shift,
            Action::QuantizeToggle { .. } => ActionKind::QuantizeToggle,
            Action::Eject { .. } => ActionKind::Eject,
            Action::Browse { .. } => ActionKind::Browse,
            Action::Load { .. } => ActionKind::Load,
            Action::Enter => ActionKind::Enter,
            Action::Back => ActionKind::Back,
            Action::ToggleView => ActionKind::ToggleView,
            Action::XfaderPosition => ActionKind::XfaderPosition,
        };
        kind_id(kind)
    }
}


/// The kind of action each entry of the table builds.
pub open spec fn table_kind(i: int) -> ActionKind {
    if i == 0 {
        ActionKind::DeckParam
    } else if i == 1 {
        ActionKind::PlayToggle
    } else if i == 2 {
        ActionKind::CueToggle
    } else if i == 3 {
        ActionKind::TransportCue
    } else if i == 4 {
        ActionKind::LoopIn
    } else if i == 5 {
        ActionKind::LoopOut
    } else if i == 6 {
        ActionKind::LoopExitOrReloop
    } else if i == 7 {
        ActionKind::QuantizeToggle
    } else if i == 8 {
        ActionKind::Shift
    } else if i == 9 {
        ActionKind::Eject
    } else if i == 10 {
        ActionKind::Load
    } else if i == 11 {
        ActionKind::TempoFader
    } else if i == 12 {
        ActionKind::Jog
    } else if i == 13 {
        ActionKind::XfaderPosition
    } else if 14 <= i <= 16 {
        ActionKind::Browse
    } else if i == 17 {
        ActionKind::Enter
    } else if i == 18 {
        ActionKind::Back
    } else {
        ActionKind::ToggleView
    }
}

proof fn lemma_table_entry(i: int)
    requires
        0 <= i < action_table().len(),
    ensures
        action_table()[i].id == spec_kind_id(table_kind(i)),
        action_table()[i].needs_deck == kind_needs_deck(table_kind(i)),
        action_table()[i].addressed == (table_kind(i) == ActionKind::DeckParam),
{
}

/// A binding spec naming an offered action, with a channel, one cc and every
/// address filled in.
pub open spec fn complete_spec(spec: BindingSpec) -> bool {
    &&& spec.channel >= 1
    &&& spec.note is None
    &&& spec.cc is Some
    &&& spec.slot is Some
    &&& spec.param is Some
}

/// Every offered action builds a binding that reports the same id back, so the
/// learn panel never offers an action a mapping file cannot hold.
pub proof fn law_offered_action_builds_its_id(i: int, spec: BindingSpec)
    requires
        0 <= i < action_table().len(),
        spec.action@ == action_table()[i].id@,
        complete_spec(spec),
        spec.deck is Some,
    ensures
        spec_build(spec, DeckScope::Fixed, None) matches Ok(built) && spec_kind_id(built.0.kind)@
            == action_table()[i].id@,
{
    lemma_table_entry(i);
    lemma_kind_named_id(table_kind(i));
}

/// An offered action needing a deck is exactly one whose binding is refused
/// without a deck in a mapping that names its own decks.
pub proof fn law_a_deck_action_needs_a_deck(i: int, spec: BindingSpec)
    requires
        0 <= i < action_table().len(),
        spec.action@ == action_table()[i].id@,
        complete_spec(spec),
        spec.deck is None,
    ensures
        spec_build(spec, DeckScope::Fixed, None) is Err <==> action_table()[i].needs_deck,
{
    lemma_table_entry(i);
    lemma_kind_named_id(table_kind(i));
}

/// An addressed action is exactly one whose binding is refused without a slot
/// and a param.
pub proof fn law_an_addressed_action_needs_an_address(i: int, spec: BindingSpec)
    requires
        0 <= i < action_table().len(),
        spec.action@ == action_table()[i].id@,
        spec.channel >= 1,
        spec.note is None,
        spec.cc is Some,
        spec.deck is Some,
        spec.slot is None,
        spec.param is None,
    ensures
        spec_build(spec, DeckScope::Fixed, None) is Err <==> action_table()[i].addressed,
{
    lemma_table_entry(i);
    lemma_kind_named_id(table_kind(i));
}

/// The actions that read a release are the held ones: the transport cue and shift.
pub proof fn law_the_held_actions_read_a_release(i: int)
    requires
        0 <= i < action_table().len(),
    ensures
        action_table()[i].needs_release <==> (action_table()[i].id@ == spec_kind_id(
            ActionKind::TransportCue,
        )@ || action_table()[i].id@ == spec_kind_id(ActionKind::Shift)@),
{
    lemma_table_entry(i);
    if table_kind(i) != ActionKind::TransportCue {
        lemma_kind_ids_distinct(table_kind(i), ActionKind::TransportCue);
    }
    if table_kind(i) != ActionKind::Shift {
        lemma_kind_ids_distinct(table_kind(i), ActionKind::Shift);
    }
}


proof fn lemma_lookup_finds(table: Seq<ActionSpec>, id: Seq<char>, steps: Option<i32>, from: int, j: int)
    requires
        0 <= from <= j < table.len(),
        table[j].id@ == id,
    ensures
        lookup_from(table, id, steps, false, from) is Some,
    decreases j - from,
{
    if from < j {
        lemma_lookup_finds(table, id, steps, from + 1, j);
    }
}

/// Every action a binding can build is one the vocabulary offers, so nothing a
/// mapping file holds is missing from the learn panel.
pub proof fn law_every_buildable_action_is_offered(kind: ActionKind)
    ensures
        spec_lookup(spec_kind_id(kind)@, None) is Some,
{
    let j: int = match kind {
        ActionKind::DeckParam => 0,
        ActionKind::PlayToggle => 1,
        ActionKind::CueToggle => 2,
        ActionKind::TransportCue => 3,
        ActionKind::LoopIn => 4,
        ActionKind::LoopOut => 5,
        ActionKind::LoopExitOrReloop => 6,
        ActionKind::QuantizeToggle => 7,
        ActionKind::Shift => 8,
        ActionKind::Eject => 9,
        ActionKind::Load => 10,
        ActionKind::TempoFader => 11,
        ActionKind::Jog => 12,
        ActionKind::XfaderPosition => 13,
        ActionKind::Browse => 14,
        ActionKind::Enter => 17,
        ActionKind::Back => 18,
        ActionKind::ToggleView => 19,
    };
    lemma_table_entry(j);
    lemma_lookup_finds(action_table(), spec_kind_id(kind)@, None, 0, j);
}

} // verus!
