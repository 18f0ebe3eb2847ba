//! From the bytes a surface sends to the move the app makes.

use vstd::prelude::*;
use crate::mapping::{Action, Binding, KeyTable, Profile, table_find};
use crate::wire::{
    relative_delta, source_resolution, spec_relative_delta, Half, Key, Resolution, CONTROL_CHANGE,
    FOURTEEN_BIT_MAX, NOTE_ON, SEVEN_BIT_MAX,
};
use std::collections::HashMap;

verus! {

broadcast use vstd::std_specs::hash::group_hash_axioms;

/// The 14-bit value two halves join to.
pub open spec fn joined_value(msb: u8, lsb: u8) -> u16 {
    ((msb as u16) << 7u16) | (lsb as u16)
}

/// The halves a binding holds after one of them arrives, starting from
/// nothing when the binding has none yet.
pub open spec fn joined_pair(memory: Map<usize, (u8, u8)>, binding: usize, half: Half, value: u8) -> (
    u8,
    u8,
) {
    let held = if memory.contains_key(binding) {
        memory[binding]
    } else {
        (0u8, 0u8)
    };
    match half {
        Half::Msb => (value, held.1),
        Half::Lsb => (held.0, value),
    }
}

/// Both halves of every high-resolution binding seen so far, by binding index.
pub struct ControlMemory {
    halves: HashMap<usize, (u8, u8)>,
}

impl View for ControlMemory {
    type V = Map<usize, (u8, u8)>;

    closed spec fn view(&self) -> Map<usize, (u8, u8)> {
        self.halves@
    }
}

impl Default for ControlMemory {
    fn default() -> (memory: ControlMemory)
        ensures
            memory@ == Map::<usize, (u8, u8)>::empty(),
    {
        ControlMemory::new()
    }
}

impl ControlMemory {
    pub fn new() -> (memory: ControlMemory)
        ensures
            memory@ == Map::<usize, (u8, u8)>::empty(),
    {
        ControlMemory { halves: HashMap::new() }
    }

    /// Acts on both halves rather than waiting for a pair, or a controller sending only
    /// the changed half stalls. A lone high half lands within one low-half step.
    pub fn join(&mut self, binding: usize, half: Half, value: u8) -> (joined: u16)
        ensures
            final(self)@ == old(self)@.insert(binding, joined_pair(old(self)@, binding, half, value)),
            joined == joined_value(
                joined_pair(old(self)@, binding, half, value).0,
                joined_pair(old(self)@, binding, half, value).1,
            ),
    {
        let held = match self.halves.get(&binding) {
            Some(pair) => *pair,
            None => (0u8, 0u8),
        };
        let pair = match half {
            Half::Msb => (value, held.1),
            Half::Lsb => (held.0, value),
        };
        self.halves.insert(binding, pair);
        ((pair.0 as u16) << 7u16) | (pair.1 as u16)
    }

    /// A half left over from before a reconnect would join with the first
    /// message after it and produce one value the knob was never at.
    pub fn clear(&mut self)
        ensures
            final(self)@ == Map::<usize, (u8, u8)>::empty(),
    {
        self.halves.clear();
    }
}

/// Two 7-bit halves join to the 14-bit value they spell: the high half times 128
/// plus the low half.
pub proof fn lemma_joined_value(msb: u8, lsb: u8)
    requires
        msb < 128,
        lsb < 128,
    ensures
        joined_value(msb, lsb) == msb * 128 + lsb,
        joined_value(msb, lsb) <= FOURTEEN_BIT_MAX,
{
    assert(msb < 128 && lsb < 128 ==> ((msb as u16) << 7u16) | (lsb as u16) == (msb as u16) * 128
        + (lsb as u16)) by (bit_vector);
}

/// A high half arriving on its own lands within one low-half step of where the
/// pair settles once its low half follows, whatever low half was held before.
pub proof fn law_a_lone_high_half_lands_within_one_low_half_step(msb: u8, held: u8, settled: u8)
    requires
        msb < 128,
        held < 128,
        settled < 128,
    ensures
        -127 <= joined_value(msb, held) - joined_value(msb, settled) <= 127,
{
    lemma_joined_value(msb, held);
    lemma_joined_value(msb, settled);
}

/// Halves are held per binding: a half arriving for one binding leaves every
/// other binding's halves as they were.
pub proof fn law_two_bindings_never_share_halves(
    memory: Map<usize, (u8, u8)>,
    binding: usize,
    other: usize,
    half: Half,
    value: u8,
)
    requires
        binding != other,
    ensures
        memory.insert(binding, joined_pair(memory, binding, half, value)).contains_key(other) == memory.contains_key(
            other,
        ),
        memory.contains_key(other) ==> memory.insert(binding, joined_pair(memory, binding, half, value))[other]
            == memory[other],
{
}

#[derive(Clone, Copy, Debug, PartialEq, Eq, Structural)]
pub struct ControlChange {
    pub channel: u8,
    pub controller: u8,
    pub value: u8,
}

pub open spec fn spec_parse_control_change(data: Seq<u8>) -> Option<ControlChange> {
    if data.len() == 3 && data[0] & 0xF0u8 == CONTROL_CHANGE {
        Some(
            ControlChange { channel: data[0] & 0x0Fu8, controller: data[1], value: data[2] & 0x7Fu8 },
        )
    } else {
        None
    }
}

/// A three-byte control change, its value held to seven bits.
pub fn parse_control_change(data: &[u8]) -> (message: Option<ControlChange>)
    ensures
        message == spec_parse_control_change(data@),
{
    if data.len() != 3 {
        return None;
    }
    let status = data[0];
    if status & 0xF0 != CONTROL_CHANGE {
        return None;
    }
    Some(ControlChange { channel: status & 0x0F, controller: data[1], value: data[2] & 0x7F })
}

#[derive(Clone, Copy, Debug, PartialEq, Eq, Structural)]
pub struct NoteOn {
    pub channel: u8,
    pub note: u8,
    pub velocity: u8,
}

pub open spec fn spec_parse_note_on(data: Seq<u8>) -> Option<NoteOn> {
    if data.len() == 3 && data[0] & 0xF0u8 == NOTE_ON {
        Some(NoteOn { channel: data[0] & 0x0Fu8, note: data[1], velocity: data[2] & 0x7Fu8 })
    } else {
        None
    }
}

/// A three-byte note on; a velocity of zero is the release.
pub fn parse_note_on(data: &[u8]) -> (message: Option<NoteOn>)
    ensures
        message == spec_parse_note_on(data@),
{
    if data.len() != 3 {
        return None;
    }
    let status = data[0];
    if status & 0xF0 != NOTE_ON {
        return None;
    }
    Some(NoteOn { channel: status & 0x0F, note: data[1], velocity: data[2] & 0x7F })
}

/// Where a positional control sits: `value` out of `max`, read onto the unit
/// interval by whoever applies it.
#[derive(Clone, Copy, Debug, PartialEq, Eq, Structural)]
pub struct Reading {
    pub value: u16,
    pub max: u16,
}

/// Separated from applying it so the mapping path is testable without an engine.
#[derive(Debug, PartialEq, Eq)]
pub enum Move {
    Param { deck: String, slot: String, param: String, reading: Reading },
    Cue { deck: String },
    Play { deck: String },
    CuePress { deck: String },
    CueRelease { deck: String },
    LoopIn { deck: String },
    LoopOut { deck: String },
    LoopExitOrReloop { deck: String },
    Tempo { deck: String, reading: Reading },
    Jog { deck: String, ticks: i32 },
    Shift { deck: String, held: bool },
    QuantizeToggle { deck: String },
    Eject { deck: String },
    Browse { steps: i32 },
    Load { deck: String },
    Enter,
    Back,
    ToggleView,
    Xfader { reading: Reading },
}

/// What a relative control's movement does: a jog or a browse, never a stop.
pub open spec fn relative_move(action: Action, delta: i32) -> Option<Move> {
    match action {
        Action::Jog { deck } => if delta != 0 {
            Some(Move::Jog { deck, ticks: delta })
        } else {
            None
        },
        Action::Browse { .. } => if delta != 0 {
            Some(Move::Browse { steps: delta })
        } else {
            None
        },
        _ => None,
    }
}

/// What a positional control's reading does.
pub open spec fn position_move(action: Action, reading: Reading) -> Option<Move> {
    match action {
        Action::DeckParam { deck, slot, param } => Some(Move::Param { deck, slot, param, reading }),
        Action::XfaderPosition => Some(Move::Xfader { reading }),
        Action::TempoFader { deck } => Some(Move::Tempo { deck, reading }),
        _ => None,
    }
}

/// What a press (or a release) of a note does. Toggles act on the press only;
/// held controls report both edges.
pub open spec fn note_move(action: Action, pressed: bool) -> Option<Move> {
    match action {
        Action::CueToggle { deck } => if pressed {
            Some(Move::Cue { deck })
        } else {
            None
        },
        Action::PlayToggle { deck } => if pressed {
            Some(Move::Play { deck })
        } else {
            None
        },
        Action::TransportCue { deck } => Some(
            if pressed {
                Move::CuePress { deck }
            } else {
                Move::CueRelease { deck }
            },
        ),
        Action::LoopIn { deck } => if pressed {
            Some(Move::LoopIn { deck })
        } else {
            None
        },
        Action::LoopOut { deck } => if pressed {
            Some(Move::LoopOut { deck })
        } else {
            None
        },
        Action::LoopExitOrReloop { deck } => if pressed {
            Some(Move::LoopExitOrReloop { deck })
        } else {
            None
        },
        Action::Shift { deck } => Some(Move::Shift { deck, held: pressed }),
        Action::QuantizeToggle { deck } => if pressed {
            Some(Move::QuantizeToggle { deck })
        } else {
            None
        },
        Action::Eject { deck } => if pressed {
            Some(Move::Eject { deck })
        } else {
            None
        },
        Action::Load { deck } => if pressed {
            Some(Move::Load { deck })
        } else {
            None
        },
        Action::Enter => if pressed {
            Some(Move::Enter)
        } else {
            None
        },
        Action::Back => if pressed {
            Some(Move::Back)
        } else {
            None
        },
        Action::ToggleView => if pressed {
            Some(Move::ToggleView)
        } else {
            None
        },
        Action::Browse { steps } => match steps {
            Some(steps) => if pressed {
                Some(Move::Browse { steps })
            } else {
                None
            },
            None => None,
        },
        Action::DeckParam { .. } | Action::XfaderPosition | Action::TempoFader { .. } | Action::Jog {
            ..
        } => None,
    }
}

/// A control change on a binding: a relative control moves by its delta and
/// leaves the halves alone; a 14-bit one joins its half first.
pub open spec fn control_change_move(
    binding: Binding,
    index: usize,
    half: Half,
    value: u8,
    memory: Map<usize, (u8, u8)>,
) -> (Option<Move>, Map<usize, (u8, u8)>) {
    let resolution = source_resolution(binding.source);
    match spec_relative_delta(resolution, value) {
        Some(delta) => (relative_move(binding.action, delta), memory),
        None => if resolution == Resolution::FourteenBit {
            let pair = joined_pair(memory, index, half, value);
            (
                position_move(binding.action, Reading { value: joined_value(pair.0, pair.1), max: FOURTEEN_BIT_MAX }),
                memory.insert(index, pair),
            )
        } else {
            (position_move(binding.action, Reading { value: value as u16, max: SEVEN_BIT_MAX }), memory)
        },
    }
}

/// The move a message makes through a profile, and the halves held after it.
pub open spec fn decode(
    bindings: Seq<Binding>,
    table: KeyTable,
    memory: Map<usize, (u8, u8)>,
    data: Seq<u8>,
) -> (Option<Move>, Map<usize, (u8, u8)>) {
    match spec_parse_control_change(data) {
        Some(message) => match table_find(
            table,
            Key::ControlChange { channel: message.channel, controller: message.controller },
        ) {
            None => (None, memory),
            Some((index, half)) => control_change_move(
                bindings[index as int],
                index,
                half,
                message.value,
                memory,
            ),
        },
        None => match spec_parse_note_on(data) {
            None => (None, memory),
            Some(message) => match table_find(
                table,
                Key::Note { channel: message.channel, note: message.note },
            ) {
                None => (None, memory),
                Some((index, _)) => (
                    note_move(bindings[index as int].action, message.velocity > 0),
                    memory,
                ),
            },
        },
    }
}

/// A note released (a note on at velocity zero) moves nothing on a toggle: play,
/// cue, the loop buttons, quantize, eject, load, enter, back, the view and a
/// stepped browse all act on the press alone, so a press and its release toggle
/// once. Only the transport cue and shift, which are held, answer a release, and
/// they answer it as a release. No release touches the held halves.
pub proof fn law_a_release_moves_only_a_held_control(
    bindings: Seq<Binding>,
    table: KeyTable,
    memory: Map<usize, (u8, u8)>,
    data: Seq<u8>,
)
    requires
        spec_parse_note_on(data) matches Some(message) && message.velocity == 0,
    ensures
        decode(bindings, table, memory, data).1 == memory,
        ({
            let message = spec_parse_note_on(data)->Some_0;
            let moved = decode(bindings, table, memory, data).0;
            match table_find(table, Key::Note { channel: message.channel, note: message.note }) {
                Some((index, _)) => match bindings[index as int].action {
                    Action::TransportCue { deck } => moved == Some(Move::CueRelease { deck }),
                    Action::Shift { deck } => moved == Some(Move::Shift { deck, held: false }),
                    _ => moved is None,
                },
                None => moved is None,
            }
        }),
{
    assert(data[0] & 0xF0u8 == NOTE_ON);
    assert(spec_parse_control_change(data) is None);
}

/// Every button action moves on its press, and only the held ones (the
/// transport cue and shift) move on the release too; a control that reports a
/// position or a movement makes nothing of a note.
pub proof fn law_a_press_moves_every_button_and_a_release_only_the_held_ones(action: Action)
    ensures
        note_move(action, true) is Some <==> !(action is DeckParam || action is XfaderPosition
            || action is TempoFader || action is Jog || action matches Action::Browse { steps: None }),
        note_move(action, false) is Some <==> (action is TransportCue || action is Shift),
{
}

fn copy_text(text: &String) -> (copy: String)
    ensures
        copy == *text,
{
    text.clone()
}

/// The move a message makes on a device with this profile.
pub fn resolve_move(profile: &Profile, memory: &mut ControlMemory, data: &[u8]) -> (moved: Option<
    Move,
>)
    ensures
        (moved, final(memory)@) == decode(profile.bindings(), profile.table(), old(memory)@, data@),
{
    if let Some(message) = parse_control_change(data) {
        let key = Key::ControlChange { channel: message.channel, controller: message.controller };
        let (index, binding, half) = match profile.resolve(key) {
            Some(found) => found,
            None => {
                return None;
            },
        };
        let resolution = binding.source.resolution();
        if let Some(delta) = relative_delta(resolution, message.value) {
            return match &binding.action {
                Action::Jog { deck } => if delta != 0 {
                    Some(Move::Jog { deck: copy_text(deck), ticks: delta })
                } else {
                    None
                },
                Action::Browse { .. } => if delta != 0 {
                    Some(Move::Browse { steps: delta })
                } else {
                    None
                },
                _ => None,
            };
        }
        let reading = match resolution {
            Resolution::FourteenBit => Reading {
                value: memory.join(index, half, message.value),
                max: FOURTEEN_BIT_MAX,
            },
            Resolution::SevenBit | Resolution::CentreDelta | Resolution::SignedStep => Reading {
                value: message.value as u16,
                max: SEVEN_BIT_MAX,
            },
        };
        return match &binding.action {
            Action::DeckParam { deck, slot, param } => Some(
                Move::Param {
                    deck: copy_text(deck),
                    slot: copy_text(slot),
                    param: copy_text(param),
                    reading,
                },
            ),
            Action::XfaderPosition => Some(Move::Xfader { reading }),
            Action::TempoFader { deck } => Some(Move::Tempo { deck: copy_text(deck), reading }),
            _ => None,
        };
    }
    let message = match parse_note_on(data) {
        Some(message) => message,
        None => {
            return None;
        },
    };
    let key = Key::Note { channel: message.channel, note: message.note };
    let (_, binding, _) = match profile.resolve(key) {
        Some(found) => found,
        None => {
            return None;
        },
    };
    let pressed = message.velocity > 0;
    match &binding.action {
        Action::CueToggle { deck } => if pressed {
            Some(Move::Cue { deck: copy_text(deck) })
        } else {
            None
        },
        Action::PlayToggle { deck } => if pressed {
            Some(Move::Play { deck: copy_text(deck) })
        } else {
            None
        },
        Action::TransportCue { deck } => Some(
            if pressed {
                Move::CuePress { deck: copy_text(deck) }
            } else {
                Move::CueRelease { deck: copy_text(deck) }
            },
        ),
        Action::LoopIn { deck } => if pressed {
            Some(Move::LoopIn { deck: copy_text(deck) })
        } else {
            None
        },
        Action::LoopOut { deck } => if pressed {
            Some(Move::LoopOut { deck: copy_text(deck) })
        } else {
            None
        },
        Action::LoopExitOrReloop { deck } => if pressed {
            Some(Move::LoopExitOrReloop { deck: copy_text(deck) })
        } else {
            None
        },
        Action::Shift { deck } => Some(Move::Shift { deck: copy_text(deck), held: pressed }),
        Action::QuantizeToggle { deck } => if pressed {
            Some(Move::QuantizeToggle { deck: copy_text(deck) })
        } else {
            None
        },
        Action::Eject { deck } => if pressed {
            Some(Move::Eject { deck: copy_text(deck) })
        } else {
            None
        },
        Action::Load { deck } => if pressed {
            Some(Move::Load { deck: copy_text(deck) })
        } else {
            None
        },
        Action::Enter => if pressed {
            Some(Move::Enter)
        } else {
            None
        },
        Action::Back => if pressed {
            Some(Move::Back)
        } else {
            None
        },
        Action::ToggleView => if pressed {
            Some(Move::ToggleView)
        } else {
            None
        },
        Action::Browse { steps } => match steps {
            Some(steps) => if pressed {
                Some(Move::Browse { steps: *steps })
            } else {
                None
            },
            None => None,
        },
        Action::DeckParam { .. } | Action::XfaderPosition | Action::TempoFader { .. } | Action::Jog {
            ..
        } => None,
    }
}

} // verus!
