//! Learning a mapping from the surface: watching what a control sends while a
//! slot is armed, reading what kind of control it is, and the draft file the
//! captures land in.

use vstd::prelude::*;
use crate::decode::{parse_control_change, parse_note_on, spec_parse_control_change, spec_parse_note_on};
use crate::mapping::{BindingSpec, ButtonSpec, DeckScope, Mapping, ResolutionSpec};
use crate::vocabulary::ControlKind;
use crate::wire::{LSB_OFFSET, MAX_CONTROLLER};
use crate::order::{
    law_a_stable_order_is_sorted, lemma_insert_at, lemma_stable_order_contents, lemma_stable_order_in_range, ordered_by,
    stable_order, total_preorder,
};
use crate::mapping::{copy_opt_text, text_of, MAPPING_VERSION};
use crate::text::{lemma_opt_text_order, push_char, push_text, compare_opt_text, opt_text_order, opt_view, same_opt_text, same_text};
use crate::vocabulary::{action_table, actions, spec, spec_lookup, ActionSpec};

verus! {

/// How many values one address keeps. A sweep is decided by its spread, and a
/// 14-bit fader sends thousands.
pub const WATCH_CAPACITY: usize = 64;

/// A control has to stop moving for this long before its capture lands, so a
/// fader is read from the whole sweep rather than from its first message.
pub const SETTLE_MS: u64 = 250;

/// What the surface sends for a slot. Channels count from 1 here, the way the
/// file does.
#[derive(Clone, Copy, Debug, PartialEq, Eq, Structural)]
pub struct Capture {
    pub channel: u8,
    pub note: Option<u8>,
    pub cc: Option<u8>,
    pub resolution: Option<ResolutionSpec>,
    /// Read from whether the press was followed by a release while the slot was
    /// armed, so a pad that only reports its press is recorded as one.
    pub button: Option<ButtonSpec>,
}

/// Everything the surface has sent since a slot was armed: the notes pressed,
/// which of those were released, and the values each control address sent.
pub struct Watch {
    notes: Vec<(u8, u8)>,
    released: Vec<(u8, u8)>,
    controls: Vec<((u8, u8), Vec<u8>)>,
}

pub struct WatchView {
    pub notes: Seq<(u8, u8)>,
    pub released: Seq<(u8, u8)>,
    pub controls: Seq<((u8, u8), Seq<u8>)>,
}

impl View for Watch {
    type V = WatchView;

    closed spec fn view(&self) -> WatchView {
        WatchView {
            notes: self.notes@,
            released: self.released@,
            controls: self.controls@.map_values(|entry: ((u8, u8), Vec<u8>)| (entry.0, entry.1@)),
        }
    }
}

/// Each control address appears once.
pub open spec fn addresses_distinct(controls: Seq<((u8, u8), Seq<u8>)>) -> bool {
    forall|i: int, j: int|
        0 <= i < controls.len() && 0 <= j < controls.len() && i != j ==> #[trigger] controls[i].0
            != #[trigger] controls[j].0
}

/// What every watch keeps true: addresses once each, channels off the wire (below
/// 16), and each address holding between one and `WATCH_CAPACITY` values.
pub open spec fn watch_wf(w: WatchView) -> bool {
    &&& addresses_distinct(w.controls)
    &&& forall|i: int| 0 <= i < w.notes.len() ==> (#[trigger] w.notes[i]).0 < 16
    &&& forall|i: int|
        0 <= i < w.controls.len() ==> {
            &&& (#[trigger] w.controls[i]).0.0 < 16
            &&& 1 <= w.controls[i].1.len() <= WATCH_CAPACITY
        }
}

pub open spec fn has_control(controls: Seq<((u8, u8), Seq<u8>)>, address: (u8, u8)) -> bool {
    exists|i: int| 0 <= i < controls.len() && (#[trigger] controls[i]).0 == address
}

/// A control value joins its address's list, up to the capacity; a new address
/// starts its own list at the end.
pub open spec fn watched_control(controls: Seq<((u8, u8), Seq<u8>)>, address: (u8, u8), value: u8) -> Seq<
    ((u8, u8), Seq<u8>),
> {
    if has_control(controls, address) {
        let i = choose|i: int| 0 <= i < controls.len() && (#[trigger] controls[i]).0 == address;
        if controls[i].1.len() < WATCH_CAPACITY {
            controls.update(i, (address, controls[i].1.push(value)))
        } else {
            controls
        }
    } else {
        controls.push((address, seq![value]))
    }
}

/// What a message does to a watch, and whether it carried an address at all. A
/// release only counts for a note already pressed here.
pub open spec fn watched(w: WatchView, data: Seq<u8>) -> (WatchView, bool) {
    match spec_parse_control_change(data) {
        Some(m) => (
            WatchView {
                controls: watched_control(w.controls, (m.channel, m.controller), m.value),
                ..w
            },
            true,
        ),
        None => match spec_parse_note_on(data) {
            Some(m) => if m.velocity == 0 {
                let a = (m.channel, m.note);
                (
                    WatchView {
                        released: if w.notes.contains(a) && !w.released.contains(a) {
                            w.released.push(a)
                        } else {
                            w.released
                        },
                        ..w
                    },
                    true,
                )
            } else {
                let a = (m.channel, m.note);
                (
                    WatchView {
                        notes: if w.notes.contains(a) {
                            w.notes
                        } else {
                            w.notes.push(a)
                        },
                        ..w
                    },
                    true,
                )
            },
            None => (w, false),
        },
    }
}

/// Whether entry `a` moved more than entry `b`: more values, or as many at a
/// lower address.
pub open spec fn busier(a: ((u8, u8), Seq<u8>), b: ((u8, u8), Seq<u8>)) -> bool {
    a.1.len() > b.1.len() || (a.1.len() == b.1.len() && (a.0.0 < b.0.0 || (a.0.0 == b.0.0
        && a.0.1 < b.0.1)))
}

/// The index of the address that moved most.
pub open spec fn busiest_index(controls: Seq<((u8, u8), Seq<u8>)>) -> int
    decreases controls.len(),
{
    if controls.len() <= 1 {
        0
    } else {
        let best = busiest_index(controls.drop_last());
        if busier(controls.last(), controls[best]) {
            controls.len() - 1
        } else {
            best
        }
    }
}

pub proof fn lemma_busiest_index_in_range(controls: Seq<((u8, u8), Seq<u8>)>)
    requires
        controls.len() > 0,
    ensures
        0 <= busiest_index(controls) < controls.len(),
    decreases controls.len(),
{
    if controls.len() > 1 {
        lemma_busiest_index_in_range(controls.drop_last());
    }
}

/// One detent either way, which is 1 and 127 and nothing between.
pub open spec fn spec_only_single_steps(values: Seq<u8>) -> bool {
    forall|i: int| 0 <= i < values.len() ==> #[trigger] values[i] == 1 || values[i] == 127
}

pub fn only_single_steps(values: &Vec<u8>) -> (single: bool)
    ensures
        single == spec_only_single_steps(values@),
{
    let mut i: usize = 0;
    while i < values.len()
        invariant
            i <= values.len(),
            forall|j: int| 0 <= j < i ==> #[trigger] values@[j] == 1 || values@[j] == 127,
        decreases values.len() - i,
    {
        if values[i] != 1 && values[i] != 127 {
            return false;
        }
        i += 1;
    }
    true
}

pub open spec fn spec_relative_resolution(values: Seq<u8>) -> ResolutionSpec {
    if spec_only_single_steps(values) {
        ResolutionSpec::SignedStep
    } else {
        ResolutionSpec::CentreDelta
    }
}

pub fn relative_resolution(values: &Vec<u8>) -> (resolution: ResolutionSpec)
    ensures
        resolution == spec_relative_resolution(values@),
{
    if only_single_steps(values) {
        ResolutionSpec::SignedStep
    } else {
        ResolutionSpec::CentreDelta
    }
}

/// A high-resolution control puts its low half `LSB_OFFSET` above its high one,
/// so both halves arriving on one channel is what tells the two apart. The
/// address named is always the high half.
pub open spec fn spec_positional_resolution(
    controls: Seq<((u8, u8), Seq<u8>)>,
    channel: u8,
    controller: u8,
) -> (u8, ResolutionSpec) {
    if controller + LSB_OFFSET <= MAX_CONTROLLER && has_control(
        controls,
        (channel, (controller + LSB_OFFSET) as u8),
    ) {
        (controller, ResolutionSpec::FourteenBit)
    } else if controller >= LSB_OFFSET && has_control(
        controls,
        (channel, (controller - LSB_OFFSET) as u8),
    ) {
        ((controller - LSB_OFFSET) as u8, ResolutionSpec::FourteenBit)
    } else {
        (controller, ResolutionSpec::SevenBit)
    }
}

/// The capture a watch reads as, for a slot expecting `kind`: `None` while
/// nothing that kind of action can read has arrived.
pub open spec fn spec_infer(kind: ControlKind, w: WatchView) -> Option<Capture> {
    if kind == ControlKind::Button {
        if w.notes.len() == 0 {
            None
        } else {
            let (channel, note) = w.notes[0];
            Some(
                Capture {
                    channel: (channel + 1) as u8,
                    note: Some(note),
                    cc: None,
                    resolution: None,
                    button: Some(
                        if w.released.contains((channel, note)) {
                            ButtonSpec::Momentary
                        } else {
                            ButtonSpec::Trigger
                        },
                    ),
                },
            )
        }
    } else if w.controls.len() == 0 {
        None
    } else {
        let best = w.controls[busiest_index(w.controls)];
        let (channel, controller) = best.0;
        let (controller, resolution) = if kind == ControlKind::Relative {
            (controller, spec_relative_resolution(best.1))
        } else {
            spec_positional_resolution(w.controls, channel, controller)
        };
        Some(
            Capture {
                channel: (channel + 1) as u8,
                note: None,
                cc: Some(controller),
                resolution: Some(resolution),
                button: None,
            },
        )
    }
}

impl Default for Watch {
    fn default() -> (watch: Watch)
        ensures
            watch@.notes.len() == 0,
            watch@.released.len() == 0,
            watch@.controls.len() == 0,
    {
        Watch::new()
    }
}

impl Watch {
    #[verifier::type_invariant]
    closed spec fn wf(&self) -> bool {
        &&& watch_wf(self@)
        &&& self@.controls.len() == self.controls@.len()
    }

    pub fn new() -> (watch: Watch)
        ensures
            watch@.notes.len() == 0,
            watch@.released.len() == 0,
            watch@.controls.len() == 0,
    {
        let watch = Watch { notes: Vec::new(), released: Vec::new(), controls: Vec::new() };
        assert(watch@.controls =~= Seq::<((u8, u8), Seq<u8>)>::empty());
        watch
    }

    fn contains_pair(list: &Vec<(u8, u8)>, pair: (u8, u8)) -> (found: bool)
        ensures
            found == list@.contains(pair),
    {
        let mut i: usize = 0;
        while i < list.len()
            invariant
                i <= list.len(),
                forall|j: int| 0 <= j < i ==> list@[j] != pair,
            decreases list.len() - i,
        {
            if list[i].0 == pair.0 && list[i].1 == pair.1 {
                return true;
            }
            i += 1;
        }
        false
    }

    fn find_in(controls: &Vec<((u8, u8), Vec<u8>)>, address: (u8, u8)) -> (found: Option<usize>)
        ensures
            ({
                let c = controls@.map_values(|entry: ((u8, u8), Vec<u8>)| (entry.0, entry.1@));
                match found {
                    Some(i) => i < c.len() && c[i as int].0 == address,
                    None => !has_control(c, address),
                }
            }),
    {
        let ghost c = controls@.map_values(|entry: ((u8, u8), Vec<u8>)| (entry.0, entry.1@));
        let mut i: usize = 0;
        while i < controls.len()
            invariant
                i <= controls.len(),
                c == controls@.map_values(|entry: ((u8, u8), Vec<u8>)| (entry.0, entry.1@)),
                forall|j: int| 0 <= j < i ==> c[j].0 != address,
            decreases controls.len() - i,
        {
            assert(c[i as int].0 == controls@[i as int].0);
            let at = controls[i].0;
            if at.0 == address.0 && at.1 == address.1 {
                return Some(i);
            }
            i += 1;
        }
        None
    }

    fn find_control(&self, address: (u8, u8)) -> (found: Option<usize>)
        ensures
            match found {
                Some(i) => i < self@.controls.len() && self@.controls[i as int].0 == address,
                None => !has_control(self@.controls, address),
            },
    {
        Self::find_in(&self.controls, address)
    }

    /// Whether any address has sent a value.
    pub fn has_address(&self, address: (u8, u8)) -> (found: bool)
        ensures
            found == has_control(self@.controls, address),
    {
        self.find_control(address).is_some()
    }

    /// The one place a message becomes a watched address, so nothing can observe a
    /// stream differently from the way an armed slot does. `false` for a message
    /// that carries no address.
    pub fn observe(&mut self, data: &[u8]) -> (carried: bool)
        ensures
            (final(self)@, carried) == watched(old(self)@, data@),
    {
        let mut current = Watch::new();
        std::mem::swap(&mut current, self);
        proof {
            use_type_invariant(&current);
        }
        let ghost before = current@;
        let Watch { mut notes, mut released, mut controls } = current;
        let mut carried = false;
        if let Some(message) = parse_control_change(data) {
            let address = (message.channel, message.controller);
            let channel = message.channel;
            let status = data[0];
            assert(channel < 16) by (bit_vector)
                requires
                    channel == status & 0x0Fu8,
            ;
            let found = Self::find_in(&controls, address);
            match found {
                Some(i) => {
                    proof {
                        let c = before.controls;
                        assert(c[i as int].0 == address);
                        assert((choose|j: int| 0 <= j < c.len() && (#[trigger] c[j]).0 == address) == i) by {
                            let j = choose|j: int| 0 <= j < c.len() && (#[trigger] c[j]).0 == address;
                            if j != i as int {
                                assert(c[j].0 != c[i as int].0);
                            }
                        }
                    }
                    if controls[i].1.len() < WATCH_CAPACITY {
                        let mut entry = controls.remove(i);
                        entry.1.push(message.value);
                        controls.insert(i, entry);
                    }
                },
                None => {
                    let mut values = Vec::new();
                    values.push(message.value);
                    controls.push((address, values));
                },
            }
            let ghost after = controls@.map_values(|entry: ((u8, u8), Vec<u8>)| (entry.0, entry.1@));
            assert(after =~= watched_control(before.controls, address, message.value));
            carried = true;
        } else if let Some(message) = parse_note_on(data) {
            let address = (message.channel, message.note);
            let channel = message.channel;
            let status = data[0];
            assert(channel < 16) by (bit_vector)
                requires
                    channel == status & 0x0Fu8,
            ;
            if message.velocity == 0 {
                if Self::contains_pair(&notes, address) && !Self::contains_pair(&released, address) {
                    released.push(address);
                }
            } else if !Self::contains_pair(&notes, address) {
                notes.push(address);
                assert forall|i: int| 0 <= i < notes@.len() implies (#[trigger] notes@[i]).0 < 16 by {
                    if i < before.notes.len() {
                        assert(notes@[i] == before.notes[i]);
                    }
                }
            }
            carried = true;
        }
        let next = Watch { notes, released, controls };
        assert(next@ == watched(before, data@).0);
        *self = next;
        carried
    }

    pub fn is_empty(&self) -> (empty: bool)
        ensures
            empty == (self@.notes.len() == 0 && self@.controls.len() == 0),
    {
        proof {
            use_type_invariant(self);
        }
        self.notes.len() == 0 && self.controls.len() == 0
    }

    /// The address that moved most, so a controller streaming an unrelated value
    /// on another cc does not win over the one being held.
    pub fn busiest_control(&self) -> (busiest: Option<usize>)
        ensures
            match busiest {
                Some(i) => self@.controls.len() > 0 && i == busiest_index(self@.controls),
                None => self@.controls.len() == 0,
            },
    {
        proof {
            use_type_invariant(self);
        }
        let ghost controls = self@.controls;
        if self.controls.len() == 0 {
            return None;
        }
        let mut best: usize = 0;
        let mut i: usize = 1;
        assert(controls.take(1).drop_last() =~= controls.take(0));
        while i < self.controls.len()
            invariant
                1 <= i <= self.controls.len(),
                controls == self@.controls,
                controls.len() == self.controls@.len(),
                best < i,
                best == busiest_index(controls.take(i as int)),
            decreases self.controls.len() - i,
        {
            let ghost next = controls.take(i + 1);
            assert(next.drop_last() =~= controls.take(i as int));
            assert(next.last() == controls[i as int]);
            assert(next[best as int] == controls[best as int]);
            let a = &self.controls[i];
            let b = &self.controls[best];
            assert(controls[i as int] == (a.0, a.1@));
            assert(controls[best as int] == (b.0, b.1@));
            if a.1.len() > b.1.len() || (a.1.len() == b.1.len() && (a.0.0 < b.0.0 || (a.0.0 == b.0.0
                && a.0.1 < b.0.1))) {
                best = i;
            }
            i += 1;
        }
        assert(controls.take(i as int) =~= controls);
        Some(best)
    }
}

/// Which half of a high-resolution pair the watch names, read from both halves
/// having arrived on the channel.
pub fn positional_resolution(watch: &Watch, channel: u8, controller: u8) -> (read: (u8, ResolutionSpec))
    ensures
        read == spec_positional_resolution(watch@.controls, channel, controller),
{
    if controller <= MAX_CONTROLLER - LSB_OFFSET && watch.has_address((channel, controller + LSB_OFFSET)) {
        return (controller, ResolutionSpec::FourteenBit);
    }
    // The busiest address is the low half when a controller sends more of it than
    // of the high one, and the file names the high half.
    if controller >= LSB_OFFSET && watch.has_address((channel, controller - LSB_OFFSET)) {
        return (controller - LSB_OFFSET, ResolutionSpec::FourteenBit);
    }
    (controller, ResolutionSpec::SevenBit)
}

/// `None` while nothing the action can read has arrived, so a button press on a
/// slot expecting a fader leaves the slot armed rather than binding the press.
pub fn infer(kind: ControlKind, watch: &Watch) -> (capture: Option<Capture>)
    ensures
        capture == spec_infer(kind, watch@),
{
    proof {
        use_type_invariant(watch);
    }
    if kind == ControlKind::Button {
        if watch.notes.len() == 0 {
            return None;
        }
        let (channel, note) = watch.notes[0];
        assert(watch@.notes[0] == (channel, note));
        let released = Watch::contains_pair(&watch.released, (channel, note));
        return Some(
            Capture {
                channel: channel + 1,
                note: Some(note),
                cc: None,
                resolution: None,
                button: Some(
                    if released {
                        ButtonSpec::Momentary
                    } else {
                        ButtonSpec::Trigger
                    },
                ),
            },
        );
    }
    match watch.busiest_control() {
        None => None,
        Some(i) => {
            proof {
                lemma_busiest_index_in_range(watch@.controls);
            }
            let entry = &watch.controls[i];
            assert(watch@.controls[i as int] == (entry.0, entry.1@));
            let (channel, controller) = entry.0;
            let (controller, resolution) = if kind == ControlKind::Relative {
                (controller, relative_resolution(&entry.1))
            } else {
                positional_resolution(watch, channel, controller)
            };
            Some(
                Capture {
                    channel: channel + 1,
                    note: None,
                    cc: Some(controller),
                    resolution: Some(resolution),
                    button: None,
                },
            )
        },
    }
}

/// One action, addressed the way a mapping file addresses it. Two slots that
/// differ only by deck are two bindings.
#[derive(Clone, Debug, PartialEq, Eq)]
pub struct Slot {
    pub action: String,
    pub deck: Option<String>,
    pub slot: Option<String>,
    pub param: Option<String>,
    /// Part of the address, not a setting: `browse` back and `browse` forward are
    /// one action reached two ways, and a binding names which.
    pub steps: Option<i32>,
}

pub struct SlotView {
    pub action: Seq<char>,
    pub deck: Option<Seq<char>>,
    pub slot: Option<Seq<char>>,
    pub param: Option<Seq<char>>,
    pub steps: Option<i32>,
}

impl View for Slot {
    type V = SlotView;

    open spec fn view(&self) -> SlotView {
        SlotView {
            action: self.action@,
            deck: opt_view(self.deck),
            slot: opt_view(self.slot),
            param: opt_view(self.param),
            steps: self.steps,
        }
    }
}

/// The slot a binding spec addresses.
pub open spec fn slot_of(spec: BindingSpec) -> SlotView {
    SlotView {
        action: spec.action@,
        deck: opt_view(spec.deck),
        slot: opt_view(spec.slot),
        param: opt_view(spec.param),
        steps: spec.steps,
    }
}

/// What a binding spec says the surface sends.
pub open spec fn capture_of(spec: BindingSpec) -> Capture {
    Capture {
        channel: spec.channel,
        note: spec.note,
        cc: spec.cc,
        resolution: spec.resolution,
        button: spec.button,
    }
}

impl Slot {
    pub fn of(spec: &BindingSpec) -> (slot: Slot)
        ensures
            slot@ == slot_of(*spec),
    {
        Slot {
            action: spec.action.clone(),
            deck: copy_opt_text(&spec.deck),
            slot: copy_opt_text(&spec.slot),
            param: copy_opt_text(&spec.param),
            steps: spec.steps,
        }
    }

    /// A second slot addressing the same action.
    pub fn copy(&self) -> (copy: Slot)
        ensures
            copy@ == self@,
    {
        Slot {
            action: self.action.clone(),
            deck: copy_opt_text(&self.deck),
            slot: copy_opt_text(&self.slot),
            param: copy_opt_text(&self.param),
            steps: self.steps,
        }
    }

    /// Whether two slots address the same action.
    pub fn same(&self, other: &Slot) -> (same: bool)
        ensures
            same == (self@ == other@),
    {
        same_text(self.action.as_str(), other.action.as_str()) && same_opt_text(&self.deck, &other.deck)
            && same_opt_text(&self.slot, &other.slot) && same_opt_text(&self.param, &other.param)
            && self.steps == other.steps
    }
}

impl Capture {
    pub fn of(spec: &BindingSpec) -> (capture: Capture)
        ensures
            capture == capture_of(*spec),
    {
        Capture {
            channel: spec.channel,
            note: spec.note,
            cc: spec.cc,
            resolution: spec.resolution,
            button: spec.button,
        }
    }

    /// The binding a capture makes for a slot.
    pub fn into_spec(self, slot: &Slot) -> (spec: BindingSpec)
        ensures
            slot_of(spec) == slot@,
            capture_of(spec) == self,
    {
        BindingSpec {
            channel: self.channel,
            action: slot.action.clone(),
            note: self.note,
            cc: self.cc,
            resolution: self.resolution,
            button: self.button,
            deck: copy_opt_text(&slot.deck),
            slot: copy_opt_text(&slot.slot),
            param: copy_opt_text(&slot.param),
            steps: slot.steps,
        }
    }
}

/// Where the slot's action sits in the vocabulary, counted from the first entry
/// offering this id at these steps; past every entry when none does.
pub open spec fn rank_from(table: Seq<ActionSpec>, action: Seq<char>, steps: Option<i32>, from: int) -> int
    decreases table.len() - from,
{
    if from < 0 || from >= table.len() {
        usize::MAX as int
    } else if table[from].id@ == action && table[from].steps == steps {
        from
    } else {
        rank_from(table, action, steps, from + 1)
    }
}

pub open spec fn slot_rank(slot: SlotView) -> int {
    rank_from(action_table(), slot.action, slot.steps, 0)
}

/// Vocabulary order, then deck and address, so two people mapping one device
/// produce files that diff by what differs rather than by capture order.
pub open spec fn slot_before_or_with(a: SlotView, b: SlotView) -> bool {
    let (ra, rb) = (slot_rank(a), slot_rank(b));
    ||| ra < rb
    ||| ra == rb && {
        let deck = opt_text_order(a.deck, b.deck);
        ||| deck < 0
        ||| deck == 0 && {
            let at = opt_text_order(a.slot, b.slot);
            ||| at < 0
            ||| at == 0 && opt_text_order(a.param, b.param) <= 0
        }
    }
}

/// `slot_before_or_with` as a relation to order by.
pub open spec fn slot_first() -> spec_fn(SlotView, SlotView) -> bool {
    |a: SlotView, b: SlotView| slot_before_or_with(a, b)
}

/// The first `n` slots' indices, stably sorted by `slot_before_or_with`.
pub open spec fn sorted_order(slots: Seq<SlotView>, n: nat) -> Seq<int> {
    stable_order(slots, slot_first(), n)
}

pub proof fn lemma_sorted_order_in_range(slots: Seq<SlotView>, n: nat, k: int)
    requires
        0 <= k < n,
    ensures
        sorted_order(slots, n).len() == n,
        0 <= sorted_order(slots, n)[k] < n,
{
    lemma_stable_order_in_range(slots, slot_first(), n, k);
}

pub open spec fn slots_view(slots: Seq<Slot>) -> Seq<SlotView> {
    slots.map_values(|slot: Slot| slot@)
}

/// Where the slot's action sits in the vocabulary.
pub fn slot_rank_of(slot: &Slot) -> (rank: usize)
    ensures
        rank == slot_rank(slot@),
{
    let table = actions();
    let mut i: usize = 0;
    while i < table.len()
        invariant
            i <= table.len(),
            table@ == action_table(),
            slot_rank(slot@) == rank_from(table@, slot@.action, slot@.steps, i as int),
        decreases table.len() - i,
    {
        if same_text(table[i].id, slot.action.as_str()) && table[i].steps == slot.steps {
            return i;
        }
        i += 1;
    }
    usize::MAX
}

fn slot_comes_first(a: &Slot, rank_a: usize, b: &Slot, rank_b: usize) -> (first: bool)
    requires
        rank_a == slot_rank(a@),
        rank_b == slot_rank(b@),
    ensures
        first == slot_before_or_with(a@, b@),
{
    if rank_a != rank_b {
        return rank_a < rank_b;
    }
    let deck = compare_opt_text(&a.deck, &b.deck);
    if deck != 0 {
        return deck < 0;
    }
    let at = compare_opt_text(&a.slot, &b.slot);
    if at != 0 {
        return at < 0;
    }
    compare_opt_text(&a.param, &b.param) <= 0
}

/// The indices of `slots`, stably sorted into vocabulary order.
pub fn order_slots(slots: &Vec<Slot>) -> (order: Vec<usize>)
    ensures
        order@.len() == slots@.len(),
        forall|k: int|
            0 <= k < order@.len() ==> order@[k] as int == #[trigger] sorted_order(
                slots_view(slots@),
                slots@.len(),
            )[k],
{
    let ghost view = slots_view(slots@);
    let mut ranks: Vec<usize> = Vec::new();
    let mut i: usize = 0;
    while i < slots.len()
        invariant
            i <= slots.len(),
            ranks@.len() == i,
            view == slots_view(slots@),
            forall|j: int| 0 <= j < i ==> #[trigger] ranks@[j] == slot_rank(view[j]),
        decreases slots.len() - i,
    {
        ranks.push(slot_rank_of(&slots[i]));
        i += 1;
    }
    let mut order: Vec<usize> = Vec::new();
    let mut n: usize = 0;
    while n < slots.len()
        invariant
            n <= slots.len(),
            ranks@.len() == slots@.len(),
            view == slots_view(slots@),
            forall|j: int| 0 <= j < slots@.len() ==> #[trigger] ranks@[j] == slot_rank(view[j]),
            order@.len() == n,
            order@.map_values(|k: usize| k as int) == sorted_order(view, n as nat),
            forall|k: int| 0 <= k < n ==> #[trigger] order@[k] < n,
        decreases slots.len() - n,
    {
        let ghost before = order@.map_values(|k: usize| k as int);
        let mut j: usize = order.len();
        while j > 0 && !slot_comes_first(&slots[order[j - 1]], ranks[order[j - 1]], &slots[n], ranks[n])
            invariant
                j <= order@.len(),
                n < slots.len(),
                ranks@.len() == slots@.len(),
                view == slots_view(slots@),
                forall|q: int| 0 <= q < slots@.len() ==> #[trigger] ranks@[q] == slot_rank(view[q]),
                before == order@.map_values(|k: usize| k as int),
                forall|k: int| 0 <= k < order@.len() ==> #[trigger] order@[k] < n,
                forall|p: int| j <= p < before.len() ==> !slot_before_or_with(view[#[trigger] before[p]], view[n as int]),
            decreases j,
        {
            assert(before[j - 1] == order@[j - 1] as int);
            j -= 1;
        }
        proof {
            if j > 0 {
                assert(before[j - 1] == order@[j - 1] as int);
            }
            lemma_insert_at(before, view, slot_first(), n as int, j as int);
        }
        order.insert(j, n);
        assert(order@.map_values(|k: usize| k as int) =~= before.take(j as int).push(n as int) + before.skip(j as int));
        n += 1;
    }
    order
}

/// The deck a mapping that plays one deck is read onto, so the panel has a tab to
/// show its bindings under.
pub open spec fn first_deck() -> Seq<char> {
    seq!['A']
}

/// Whether the vocabulary says the slot's action acts on a deck.
pub open spec fn needs_a_deck(slot: SlotView) -> bool {
    match spec_lookup(slot.action, slot.steps) {
        Some(action) => action.needs_deck,
        None => false,
    }
}

/// A binding that names no deck for an action that acts on one is read onto the
/// first deck.
pub open spec fn seeded(slot: SlotView) -> SlotView {
    if slot.deck is None && needs_a_deck(slot) {
        SlotView { deck: Some(first_deck()), ..slot }
    } else {
        slot
    }
}

pub open spec fn texts_view(texts: Seq<String>) -> Seq<Seq<char>> {
    texts.map_values(|text: String| text@)
}

pub open spec fn bindings_view(bindings: Seq<(Slot, Capture)>) -> Seq<(SlotView, Capture)> {
    bindings.map_values(|binding: (Slot, Capture)| (binding.0@, binding.1))
}

pub fn copy_texts(texts: &Vec<String>) -> (copy: Vec<String>)
    ensures
        texts_view(copy@) == texts_view(texts@),
{
    let mut copy: Vec<String> = Vec::new();
    let mut i: usize = 0;
    while i < texts.len()
        invariant
            i <= texts.len(),
            copy@.len() == i,
            forall|j: int| 0 <= j < i ==> (#[trigger] copy@[j])@ == texts@[j]@,
        decreases texts.len() - i,
    {
        copy.push(texts[i].clone());
        i += 1;
    }
    assert(texts_view(copy@) =~= texts_view(texts@));
    copy
}

/// The mapping being written for one device. Seeded from whatever mapping already
/// claims the port, so editing a shipped file and starting from nothing are one flow.
pub struct Draft {
    pub name: String,
    pub matches: Vec<String>,
    bindings: Vec<(Slot, Capture)>,
}

#[verifier::ext_equal]
pub struct DraftView {
    pub name: Seq<char>,
    pub matches: Seq<Seq<char>>,
    pub bindings: Seq<(SlotView, Capture)>,
}

impl View for Draft {
    type V = DraftView;

    closed spec fn view(&self) -> DraftView {
        DraftView {
            name: self.name@,
            matches: texts_view(self.matches@),
            bindings: bindings_view(self.bindings@),
        }
    }
}

/// Whether the vocabulary says the slot's action acts on a deck.
pub fn slot_needs_deck(slot: &Slot) -> (needs: bool)
    ensures
        needs == needs_a_deck(slot@),
{
    match spec(slot.action.as_str(), slot.steps) {
        Some(action) => action.needs_deck,
        None => false,
    }
}

/// A draft for a port no mapping claims: named after the port, claiming it, and
/// holding no bindings.
pub open spec fn empty_draft(port: Seq<char>) -> DraftView {
    DraftView { name: port, matches: seq![port], bindings: Seq::empty() }
}

/// A draft seeded from a mapping: its name, its claims, and each of its bindings,
/// read onto the first deck where the action needs one and the file names none.
pub open spec fn draft_of(mapping: Mapping) -> DraftView {
    DraftView {
        name: mapping.name@,
        matches: texts_view(mapping.matches@),
        bindings: mapping.bindings@.map_values(
            |spec: BindingSpec| (seeded(slot_of(spec)), capture_of(spec)),
        ),
    }
}

/// The bindings of every slot but this one.
pub open spec fn unbound(bindings: Seq<(SlotView, Capture)>, slot: SlotView) -> Seq<(SlotView, Capture)> {
    bindings.filter(|held: (SlotView, Capture)| held.0 != slot)
}

impl Draft {
    /// A port name carries the manufacturer's suffixes, so it claims itself
    /// verbatim until someone shortens it.
    pub fn empty(port: &str) -> (draft: Draft)
        ensures
            draft@ == empty_draft(port@),
    {
        let draft = Draft { name: text_of(port), matches: vec![text_of(port)], bindings: Vec::new() };
        assert(draft@.matches =~= seq![port@]);
        assert(draft@.bindings =~= Seq::<(SlotView, Capture)>::empty());
        draft
    }

    /// A mapping that plays whichever deck it is given names no deck on its bindings,
    /// but the panel maps one deck at a time, so they are read onto the first one and
    /// `scope` puts them back where they were.
    pub fn of(mapping: &Mapping) -> (draft: Draft)
        ensures
            draft@ == draft_of(*mapping),
    {
        let mut bindings: Vec<(Slot, Capture)> = Vec::new();
        let mut i: usize = 0;
        while i < mapping.bindings.len()
            invariant
                i <= mapping.bindings.len(),
                bindings@.len() == i,
                forall|j: int|
                    0 <= j < i ==> (#[trigger] bindings@[j]).0@ == seeded(slot_of(mapping.bindings@[j]))
                        && bindings@[j].1 == capture_of(mapping.bindings@[j]),
            decreases mapping.bindings.len() - i,
        {
            let spec = &mapping.bindings[i];
            let mut slot = Slot::of(spec);
            if slot.deck.is_none() && slot_needs_deck(&slot) {
                let deck = text_of("A");
                proof {
                    reveal_strlit("A");
                }
                assert(deck@ =~= first_deck());
                slot.deck = Some(deck);
            }
            bindings.push((slot, Capture::of(spec)));
            i += 1;
        }
        let draft = Draft { name: mapping.name.clone(), matches: copy_texts(&mapping.matches), bindings };
        assert(draft@.bindings =~= mapping.bindings@.map_values(
            |spec: BindingSpec| (seeded(slot_of(spec)), capture_of(spec)),
        ));
        draft
    }

    /// Replaces every address the slot had, so a slot the file reached twice cannot
    /// keep half of its old binding after an edit.
    pub fn bind(&mut self, slot: Slot, capture: Capture)
        ensures
            final(self)@.name == old(self)@.name,
            final(self)@.matches == old(self)@.matches,
            final(self)@.bindings == unbound(old(self)@.bindings, slot@).push((slot@, capture)),
    {
        self.clear(&slot);
        self.bindings.push((slot, capture));
        assert(self@.bindings =~= unbound(old(self)@.bindings, slot@).push((slot@, capture)));
    }

    pub fn clear(&mut self, slot: &Slot)
        ensures
            final(self)@.name == old(self)@.name,
            final(self)@.matches == old(self)@.matches,
            final(self)@.bindings == unbound(old(self)@.bindings, slot@),
    {
        let ghost pred = |held: (SlotView, Capture)| held.0 != slot@;
        let ghost before = self@.bindings;
        let mut kept: Vec<(Slot, Capture)> = Vec::new();
        let mut i: usize = 0;
        assert(before.take(0) =~= Seq::<(SlotView, Capture)>::empty());
        reveal(Seq::filter);
        while i < self.bindings.len()
            invariant
                i <= self.bindings.len(),
                before == bindings_view(self.bindings@),
                pred == (|held: (SlotView, Capture)| held.0 != slot@),
                bindings_view(kept@) == before.take(i as int).filter(pred),
            decreases self.bindings.len() - i,
        {
            let held = &self.bindings[i];
            let ghost prev = bindings_view(kept@);
            assert(before.take(i + 1).drop_last() =~= before.take(i as int));
            assert(before.take(i + 1).last() == before[i as int]);
            assert(before[i as int] == (held.0@, held.1));
            if !held.0.same(slot) {
                kept.push((held.0.copy(), held.1));
                assert(bindings_view(kept@) =~= prev.push(before[i as int]));
                assert(pred(before[i as int]));
            } else {
                assert(!pred(before[i as int]));
            }
            reveal(Seq::filter);
            assert(before.take(i + 1).filter(pred) == (if pred(before[i as int]) {
                before.take(i as int).filter(pred).push(before[i as int])
            } else {
                before.take(i as int).filter(pred)
            }));
            i += 1;
        }
        assert(before.take(i as int) =~= before);
        self.bindings = kept;
    }

    /// Every address the slot has, because a modifier's copy of a control is the same
    /// physical button and reports the same edges.
    pub fn set_button(&mut self, slot: &Slot, button: ButtonSpec)
        ensures
            final(self)@.name == old(self)@.name,
            final(self)@.matches == old(self)@.matches,
            final(self)@.bindings == old(self)@.bindings.map_values(
                |held: (SlotView, Capture)|
                    if held.0 == slot@ && held.1.note is Some {
                        (held.0, Capture { button: Some(button), ..held.1 })
                    } else {
                        held
                    },
            ),
    {
        let ghost before = self@.bindings;
        let mut next: Vec<(Slot, Capture)> = Vec::new();
        let mut i: usize = 0;
        while i < self.bindings.len()
            invariant
                i <= self.bindings.len(),
                before == bindings_view(self.bindings@),
                next@.len() == i,
                forall|j: int|
                    0 <= j < i ==> (#[trigger] next@[j]).0@ == before[j].0 && next@[j].1 == (
                    if before[j].0 == slot@ && before[j].1.note is Some {
                        Capture { button: Some(button), ..before[j].1 }
                    } else {
                        before[j].1
                    }),
            decreases self.bindings.len() - i,
        {
            let held = &self.bindings[i];
            assert(before[i as int] == (held.0@, held.1));
            let mut capture = held.1;
            if held.0.same(slot) && capture.note.is_some() {
                capture.button = Some(button);
            }
            next.push((held.0.copy(), capture));
            i += 1;
        }
        self.bindings = next;
        assert(self@.bindings =~= before.map_values(
            |held: (SlotView, Capture)|
                if held.0 == slot@ && held.1.note is Some {
                    (held.0, Capture { button: Some(button), ..held.1 })
                } else {
                    held
                },
        ));
    }

    /// The bindings as a file writes them, in the order they were made.
    pub fn specs(&self) -> (specs: Vec<BindingSpec>)
        ensures
            specs@.len() == self@.bindings.len(),
            forall|i: int|
                0 <= i < specs@.len() ==> slot_of(#[trigger] specs@[i]) == self@.bindings[i].0
                    && capture_of(specs@[i]) == self@.bindings[i].1,
    {
        let mut specs: Vec<BindingSpec> = Vec::new();
        let mut i: usize = 0;
        while i < self.bindings.len()
            invariant
                i <= self.bindings.len(),
                specs@.len() == i,
                forall|j: int|
                    0 <= j < i ==> slot_of(#[trigger] specs@[j]) == self@.bindings[j].0
                        && capture_of(specs@[j]) == self@.bindings[j].1,
            decreases self.bindings.len() - i,
        {
            let held = &self.bindings[i];
            assert(self@.bindings[i as int] == (held.0@, held.1));
            specs.push(held.1.into_spec(&held.0));
            i += 1;
        }
        specs
    }
}

/// One entry of the learn panel: a slot and every address it has, in the order
/// they were bound. More than one when a modifier re-addresses the control, the
/// way SHIFT moves the jog to a second cc. Editing the slot replaces all of them.
pub struct DraftBinding {
    pub slot: Slot,
    pub captures: Vec<Capture>,
}

impl View for DraftBinding {
    type V = (SlotView, Seq<Capture>);

    open spec fn view(&self) -> (SlotView, Seq<Capture>) {
        (self.slot@, self.captures@)
    }
}

pub open spec fn entries_view(entries: Seq<DraftBinding>) -> Seq<(SlotView, Seq<Capture>)> {
    entries.map_values(|entry: DraftBinding| entry@)
}

/// The first group from `from` on that holds this slot.
pub open spec fn find_group(groups: Seq<(SlotView, Seq<Capture>)>, slot: SlotView, from: int) -> Option<int>
    decreases groups.len() - from,
{
    if from < 0 || from >= groups.len() {
        None
    } else if groups[from].0 == slot {
        Some(from)
    } else {
        find_group(groups, slot, from + 1)
    }
}

proof fn lemma_find_group(groups: Seq<(SlotView, Seq<Capture>)>, slot: SlotView, from: int)
    requires
        0 <= from,
    ensures
        match find_group(groups, slot, from) {
            Some(i) => from <= i < groups.len() && groups[i].0 == slot,
            None => forall|i: int| from <= i < groups.len() ==> groups[i].0 != slot,
        },
    decreases groups.len() - from,
{
    if from < groups.len() && groups[from].0 != slot {
        lemma_find_group(groups, slot, from + 1);
    }
}

/// A binding joins its slot's group, or opens a new one at the end.
pub open spec fn group_into(groups: Seq<(SlotView, Seq<Capture>)>, binding: (SlotView, Capture)) -> Seq<
    (SlotView, Seq<Capture>),
> {
    match find_group(groups, binding.0, 0) {
        Some(i) => groups.update(i, (binding.0, groups[i].1.push(binding.1))),
        None => groups.push((binding.0, seq![binding.1])),
    }
}

/// The bindings gathered by slot, slots in the order they first appear.
pub open spec fn grouped(bindings: Seq<(SlotView, Capture)>) -> Seq<(SlotView, Seq<Capture>)>
    decreases bindings.len(),
{
    if bindings.len() == 0 {
        Seq::empty()
    } else {
        group_into(grouped(bindings.drop_last()), bindings.last())
    }
}

/// Read off the bindings rather than asked for: a surface with controls for one
/// deck only ever gets bindings for one. Anything bound across decks names them.
pub open spec fn spans_decks(bindings: Seq<(SlotView, Capture)>) -> bool {
    exists|i: int, j: int|
        0 <= i < bindings.len() && 0 <= j < bindings.len() && (#[trigger] bindings[i]).0.deck is Some
            && (#[trigger] bindings[j]).0.deck is Some && bindings[i].0.deck != bindings[j].0.deck
}

pub open spec fn spec_scope(bindings: Seq<(SlotView, Capture)>) -> DeckScope {
    if spans_decks(bindings) {
        DeckScope::Fixed
    } else {
        DeckScope::Assigned
    }
}

/// A deck left on a binding of an assigned file would read as the one it happened
/// to be learned on, when the user picks it per device.
pub open spec fn written_slot(slot: SlotView, scope: DeckScope) -> SlotView {
    if scope == DeckScope::Assigned {
        SlotView { deck: None, ..slot }
    } else {
        slot
    }
}

pub open spec fn same_address(a: Capture, b: Capture) -> bool {
    a.channel == b.channel && a.note == b.note && a.cc == b.cc
}

/// Another slot is bound to the same address.
pub open spec fn collides(bindings: Seq<(SlotView, Capture)>, binding: (SlotView, Capture)) -> bool {
    exists|j: int|
        0 <= j < bindings.len() && (#[trigger] bindings[j]).0 != binding.0 && same_address(
            bindings[j].1,
            binding.1,
        )
}

/// The file as it would be contributed. Written flat: the deck template saves
/// typing a file nobody types.
pub struct MappingFile {
    pub version: u32,
    pub name: String,
    pub matches: Vec<String>,
    pub decks: DeckScope,
    pub bindings: Vec<BindingSpec>,
}

fn copy_captures(captures: &Vec<Capture>) -> (copy: Vec<Capture>)
    ensures
        copy@ == captures@,
{
    let mut copy: Vec<Capture> = Vec::new();
    let mut i: usize = 0;
    while i < captures.len()
        invariant
            i <= captures.len(),
            copy@ == captures@.take(i as int),
        decreases captures.len() - i,
    {
        copy.push(captures[i]);
        assert(captures@.take(i + 1) =~= captures@.take(i as int).push(captures@[i as int]));
        i += 1;
    }
    assert(captures@.take(i as int) =~= captures@);
    copy
}

impl Draft {
    fn group_of(groups: &Vec<DraftBinding>, slot: &Slot) -> (found: Option<usize>)
        ensures
            match found {
                Some(i) => find_group(entries_view(groups@), slot@, 0) == Some(i as int) && i < groups@.len(),
                None => find_group(entries_view(groups@), slot@, 0) is None,
            },
    {
        let ghost view = entries_view(groups@);
        let mut i: usize = 0;
        while i < groups.len()
            invariant
                i <= groups.len(),
                view == entries_view(groups@),
                find_group(view, slot@, 0) == find_group(view, slot@, i as int),
            decreases groups.len() - i,
        {
            if groups[i].slot.same(slot) {
                return Some(i);
            }
            i += 1;
        }
        None
    }

    /// The bindings gathered by slot, slots in the order they first appear.
    fn grouped(&self) -> (groups: Vec<DraftBinding>)
        ensures
            entries_view(groups@) == grouped(self@.bindings),
    {
        let ghost bindings = self@.bindings;
        let mut groups: Vec<DraftBinding> = Vec::new();
        let mut i: usize = 0;
        assert(bindings.take(0) =~= Seq::<(SlotView, Capture)>::empty());
        while i < self.bindings.len()
            invariant
                i <= self.bindings.len(),
                bindings == bindings_view(self.bindings@),
                entries_view(groups@) == grouped(bindings.take(i as int)),
            decreases self.bindings.len() - i,
        {
            let held = &self.bindings[i];
            assert(bindings[i as int] == (held.0@, held.1));
            assert(bindings.take(i + 1).drop_last() =~= bindings.take(i as int));
            assert(bindings.take(i + 1).last() == bindings[i as int]);
            let ghost before = entries_view(groups@);
            match Self::group_of(&groups, &held.0) {
                Some(g) => {
                    proof {
                        lemma_find_group(before, held.0@, 0);
                    }
                    let mut group = groups.remove(g);
                    group.captures.push(held.1);
                    groups.insert(g, group);
                    assert(entries_view(groups@) =~= before.update(
                        g as int,
                        (held.0@, before[g as int].1.push(held.1)),
                    ));
                },
                None => {
                    let mut captures: Vec<Capture> = Vec::new();
                    captures.push(held.1);
                    groups.push(DraftBinding { slot: held.0.copy(), captures });
                    assert(entries_view(groups@) =~= before.push((held.0@, seq![held.1])));
                },
            }
            i += 1;
        }
        assert(bindings.take(i as int) =~= bindings);
        groups
    }

    /// One entry per slot, in vocabulary order, so a row reads the same on every open
    /// and a slot the file reached twice shows both of its addresses.
    pub fn entries(&self) -> (entries: Vec<DraftBinding>)
        ensures
            ({
                let groups = grouped(self@.bindings);
                let order = sorted_order(groups.map_values(|group: (SlotView, Seq<Capture>)| group.0), groups.len());
                &&& entries@.len() == groups.len()
                &&& forall|k: int| 0 <= k < entries@.len() ==> (#[trigger] entries@[k])@ == groups[order[k]]
            }),
    {
        let groups = self.grouped();
        let ghost view = entries_view(groups@);
        let mut slots: Vec<Slot> = Vec::new();
        let mut i: usize = 0;
        while i < groups.len()
            invariant
                i <= groups.len(),
                view == entries_view(groups@),
                slots@.len() == i,
                forall|j: int| 0 <= j < i ==> (#[trigger] slots@[j])@ == view[j].0,
            decreases groups.len() - i,
        {
            slots.push(groups[i].slot.copy());
            i += 1;
        }
        let ghost keys = view.map_values(|group: (SlotView, Seq<Capture>)| group.0);
        assert(slots_view(slots@) =~= keys);
        let order = order_slots(&slots);
        let mut entries: Vec<DraftBinding> = Vec::new();
        let mut k: usize = 0;
        while k < order.len()
            invariant
                k <= order.len(),
                order@.len() == groups@.len(),
                view == entries_view(groups@),
                keys == view.map_values(|group: (SlotView, Seq<Capture>)| group.0),
                forall|q: int|
                    0 <= q < order@.len() ==> order@[q] as int == #[trigger] sorted_order(keys, view.len())[q],
                entries@.len() == k,
                forall|q: int| 0 <= q < k ==> (#[trigger] entries@[q])@ == view[sorted_order(keys, view.len())[q]],
            decreases order.len() - k,
        {
            let at = order[k];
            assert(at as int == sorted_order(keys, view.len())[k as int]);
            proof {
                lemma_sorted_order_in_range(keys, view.len(), k as int);
            }
            let group = &groups[at];
            assert(view[at as int] == group@);
            entries.push(DraftBinding { slot: group.slot.copy(), captures: copy_captures(&group.captures) });
            k += 1;
        }
        entries
    }
}

pub open spec fn binding_slots(bindings: Seq<(SlotView, Capture)>) -> Seq<SlotView> {
    bindings.map_values(|binding: (SlotView, Capture)| binding.0)
}

/// The bindings' indices in vocabulary order.
pub open spec fn binding_order(bindings: Seq<(SlotView, Capture)>) -> Seq<int> {
    sorted_order(binding_slots(bindings), bindings.len())
}

impl Draft {
    fn ordered_specs(&self) -> (specs: Vec<BindingSpec>)
        ensures
            specs@.len() == self@.bindings.len(),
            forall|k: int|
                0 <= k < specs@.len() ==> slot_of(#[trigger] specs@[k]) == self@.bindings[binding_order(
                    self@.bindings,
                )[k]].0 && capture_of(specs@[k]) == self@.bindings[binding_order(self@.bindings)[k]].1,
    {
        let ghost bindings = self@.bindings;
        let mut slots: Vec<Slot> = Vec::new();
        let mut i: usize = 0;
        while i < self.bindings.len()
            invariant
                i <= self.bindings.len(),
                bindings == bindings_view(self.bindings@),
                slots@.len() == i,
                forall|j: int| 0 <= j < i ==> (#[trigger] slots@[j])@ == bindings[j].0,
            decreases self.bindings.len() - i,
        {
            assert(bindings[i as int].0 == self.bindings@[i as int].0@);
            slots.push(self.bindings[i].0.copy());
            i += 1;
        }
        assert(slots_view(slots@) =~= binding_slots(bindings));
        let order = order_slots(&slots);
        let mut specs: Vec<BindingSpec> = Vec::new();
        let mut k: usize = 0;
        while k < order.len()
            invariant
                k <= order.len(),
                order@.len() == bindings.len(),
                bindings == bindings_view(self.bindings@),
                forall|q: int| 0 <= q < order@.len() ==> order@[q] as int == #[trigger] binding_order(bindings)[q],
                specs@.len() == k,
                forall|q: int|
                    0 <= q < k ==> slot_of(#[trigger] specs@[q]) == bindings[binding_order(bindings)[q]].0
                        && capture_of(specs@[q]) == bindings[binding_order(bindings)[q]].1,
            decreases order.len() - k,
        {
            let at = order[k];
            assert(at as int == binding_order(bindings)[k as int]);
            proof {
                lemma_sorted_order_in_range(binding_slots(bindings), bindings.len(), k as int);
            }
            let held = &self.bindings[at];
            assert(bindings[at as int] == (held.0@, held.1));
            specs.push(held.1.into_spec(&held.0));
            k += 1;
        }
        specs
    }

    /// Read off the bindings rather than asked for: a surface with controls for one
    /// deck only ever gets bindings for one, and the user picks which deck it drives
    /// per device. Anything bound across decks names them itself.
    pub fn scope(&self) -> (scope: DeckScope)
        ensures
            scope == spec_scope(self@.bindings),
    {
        let ghost bindings = self@.bindings;
        let mut first: Option<usize> = None;
        let mut i: usize = 0;
        while i < self.bindings.len()
            invariant
                i <= self.bindings.len(),
                bindings == bindings_view(self.bindings@),
                match first {
                    None => forall|j: int| 0 <= j < i ==> (#[trigger] bindings[j]).0.deck is None,
                    Some(f) => f < i && bindings[f as int].0.deck is Some && forall|j: int|
                        0 <= j < i && (#[trigger] bindings[j]).0.deck is Some ==> bindings[j].0.deck
                            == bindings[f as int].0.deck,
                },
            decreases self.bindings.len() - i,
        {
            assert(bindings[i as int].0 == self.bindings@[i as int].0@);
            if self.bindings[i].0.deck.is_some() {
                match first {
                    None => {
                        first = Some(i);
                    },
                    Some(f) => {
                        assert(bindings[f as int].0 == self.bindings@[f as int].0@);
                        if !same_opt_text(&self.bindings[f].0.deck, &self.bindings[i].0.deck) {
                            assert(bindings[f as int].0.deck != bindings[i as int].0.deck);
                            assert(spans_decks(bindings));
                            return DeckScope::Fixed;
                        }
                    },
                }
            }
            i += 1;
        }
        assert(!spans_decks(bindings));
        DeckScope::Assigned
    }

    /// The file as it would be contributed. Written flat: the deck template saves
    /// typing a file nobody types.
    pub fn file(&self) -> (file: MappingFile)
        ensures
            file.version == MAPPING_VERSION,
            file.name@ == self@.name,
            texts_view(file.matches@) == self@.matches,
            file.decks == spec_scope(self@.bindings),
            file.bindings@.len() == self@.bindings.len(),
            forall|k: int|
                0 <= k < file.bindings@.len() ==> slot_of(#[trigger] file.bindings@[k]) == written_slot(
                    self@.bindings[binding_order(self@.bindings)[k]].0,
                    file.decks,
                ) && capture_of(file.bindings@[k]) == self@.bindings[binding_order(self@.bindings)[k]].1,
    {
        let decks = self.scope();
        let mut ordered = self.ordered_specs();
        let ghost all = ordered@;
        let mut bindings: Vec<BindingSpec> = Vec::new();
        while ordered.len() > 0
            invariant
                bindings@.len() + ordered@.len() == all.len(),
                ordered@ == all.skip(bindings@.len() as int),
                forall|q: int|
                    0 <= q < bindings@.len() ==> slot_of(#[trigger] bindings@[q]) == written_slot(
                        slot_of(all[q]),
                        decks,
                    ) && capture_of(bindings@[q]) == capture_of(all[q]),
            decreases ordered@.len(),
        {
            let mut spec = ordered.remove(0);
            assert(spec == all[bindings@.len() as int]);
            if decks == DeckScope::Assigned {
                // A deck left on the binding would read as the one it happened to be
                // learned on, when the user picks it per device.
                spec.deck = None;
            }
            bindings.push(spec);
            assert(ordered@ =~= all.skip(bindings@.len() as int));
        }
        MappingFile {
            version: MAPPING_VERSION,
            name: self.name.clone(),
            matches: copy_texts(&self.matches),
            decks,
            bindings,
        }
    }

    /// Slots sharing one address. A profile built from them is refused, so the UI
    /// has to show the collision rather than let it read as broken hardware.
    pub fn colliding(&self) -> (slots: Vec<Slot>)
        ensures
            slots_view(slots@) == binding_slots(
                self@.bindings.filter(|binding: (SlotView, Capture)| collides(self@.bindings, binding)),
            ),
    {
        let ghost bindings = self@.bindings;
        let ghost pred = |binding: (SlotView, Capture)| collides(bindings, binding);
        let mut slots: Vec<Slot> = Vec::new();
        let mut i: usize = 0;
        reveal(Seq::filter);
        assert(bindings.take(0) =~= Seq::<(SlotView, Capture)>::empty());
        while i < self.bindings.len()
            invariant
                i <= self.bindings.len(),
                bindings == bindings_view(self.bindings@),
                pred == (|binding: (SlotView, Capture)| collides(bindings, binding)),
                slots_view(slots@) == binding_slots(bindings.take(i as int).filter(pred)),
            decreases self.bindings.len() - i,
        {
            let held = &self.bindings[i];
            assert(bindings[i as int] == (held.0@, held.1));
            let mut found = false;
            let mut j: usize = 0;
            while j < self.bindings.len()
                invariant
                    j <= self.bindings.len(),
                    i < self.bindings.len(),
                    bindings == bindings_view(self.bindings@),
                    bindings[i as int] == (held.0@, held.1),
                    found == exists|q: int|
                        0 <= q < j && (#[trigger] bindings[q]).0 != held.0@ && same_address(
                            bindings[q].1,
                            held.1,
                        ),
                decreases self.bindings.len() - j,
            {
                let other = &self.bindings[j];
                assert(bindings[j as int] == (other.0@, other.1));
                if !other.0.same(&held.0) && other.1.channel == held.1.channel && other.1.note
                    == held.1.note && other.1.cc == held.1.cc {
                    found = true;
                }
                j += 1;
            }
            let ghost prev = slots_view(slots@);
            assert(bindings.take(i + 1).drop_last() =~= bindings.take(i as int));
            assert(bindings.take(i + 1).last() == bindings[i as int]);
            assert(found == pred(bindings[i as int]));
            if found {
                slots.push(held.0.copy());
                assert(slots_view(slots@) =~= prev.push(held.0@));
            }
            assert(binding_slots(bindings.take(i as int).filter(pred).push(bindings[i as int])) =~= binding_slots(
                bindings.take(i as int).filter(pred),
            ).push(held.0@));
            reveal(Seq::filter);
            assert(bindings.take(i + 1).filter(pred) == (if pred(bindings[i as int]) {
                bindings.take(i as int).filter(pred).push(bindings[i as int])
            } else {
                bindings.take(i as int).filter(pred)
            }));
            i += 1;
        }
        assert(bindings.take(i as int) =~= bindings);
        slots
    }
}

/// A file name keeps ASCII letters, lowercased, and digits; anything else reads
/// as a separator.
pub open spec fn stem_char(c: char) -> char {
    if 'A' <= c <= 'Z' {
        ((c as u32) + 32) as char
    } else if ('a' <= c <= 'z') || ('0' <= c <= '9') {
        c
    } else {
        '-'
    }
}

/// The text cut at every separator, empty pieces kept.
pub open spec fn pieces(text: Seq<char>) -> Seq<Seq<char>>
    decreases text.len(),
{
    if text.len() == 0 {
        seq![Seq::empty()]
    } else {
        let before = pieces(text.drop_last());
        if text.last() == '-' {
            before.push(Seq::empty())
        } else {
            before.update(before.len() - 1, before.last().push(text.last()))
        }
    }
}

/// Words put back together with one separator between each two.
pub open spec fn joined(words: Seq<Seq<char>>) -> Seq<char>
    decreases words.len(),
{
    if words.len() == 0 {
        Seq::empty()
    } else if words.len() == 1 {
        words[0]
    } else {
        joined(words.drop_last()) + seq!['-'] + words.last()
    }
}

pub open spec fn nonempty_words(words: Seq<Seq<char>>) -> Seq<Seq<char>> {
    words.filter(|word: Seq<char>| word.len() > 0)
}

/// Lowercase and hyphenated, the way the shipped files are named: separators
/// collapse to one, and none leads or trails.
pub open spec fn file_stem(name: Seq<char>) -> Seq<char> {
    joined(nonempty_words(pieces(name.map_values(|c: char| stem_char(c)))))
}

pub open spec fn spec_file_name(name: Seq<char>) -> Seq<char> {
    file_stem(name) + seq!['.', 'j', 's', 'o', 'n']
}

proof fn lemma_pieces_len(text: Seq<char>)
    ensures
        pieces(text).len() >= 1,
    decreases text.len(),
{
    if text.len() > 0 {
        lemma_pieces_len(text.drop_last());
    }
}

proof fn lemma_nonempty_words(words: Seq<Seq<char>>)
    ensures
        forall|i: int| 0 <= i < nonempty_words(words).len() ==> (#[trigger] nonempty_words(words)[i]).len() > 0,
    decreases words.len(),
{
    reveal(Seq::filter);
    if words.len() > 0 {
        lemma_nonempty_words(words.drop_last());
    }
}

proof fn lemma_joined_empty(words: Seq<Seq<char>>)
    requires
        forall|i: int| 0 <= i < words.len() ==> (#[trigger] words[i]).len() > 0,
    ensures
        (joined(words).len() == 0) == (words.len() == 0),
    decreases words.len(),
{
    if words.len() > 1 {
        lemma_joined_empty(words.drop_last());
    }
}

proof fn lemma_joined_extend(words: Seq<Seq<char>>, c: char)
    requires
        words.len() > 0,
    ensures
        joined(words.update(words.len() - 1, words.last().push(c))) == joined(words).push(c),
{
    let longer = words.update(words.len() - 1, words.last().push(c));
    if words.len() > 1 {
        assert(longer.drop_last() =~= words.drop_last());
        assert(joined(longer) =~= joined(words).push(c));
    }
}

fn stem_of(c: char) -> (stem: char)
    ensures
        stem == stem_char(c),
{
    if 'A' <= c && c <= 'Z' {
        let code: u32 = c as u32;
        let small: u8 = code as u8;
        assert(small == code) by (bit_vector)
            requires
                code <= 90u32,
                small == code as u8,
        ;
        ((small + 32) as char)
    } else if ('a' <= c && c <= 'z') || ('0' <= c && c <= '9') {
        c
    } else {
        '-'
    }
}

impl Draft {
    /// Lowercase and hyphenated, the way the shipped files are named, so a folder
    /// of contributed mappings sorts and reads as one set.
    pub fn file_name(&self) -> (name: String)
        ensures
            name@ == spec_file_name(self@.name),
    {
        let ghost mapped = self@.name.map_values(|c: char| stem_char(c));
        let n = self.name.as_str().unicode_len();
        let mut out = String::new();
        let mut pending = false;
        let mut i: usize = 0;
        proof {
            assert(mapped.take(0) =~= Seq::<char>::empty());
            reveal(Seq::filter);
            let start = pieces(mapped.take(0));
            assert(start.drop_last() =~= Seq::<Seq<char>>::empty());
            assert(start.drop_last().filter(|word: Seq<char>| word.len() > 0) =~= Seq::<Seq<char>>::empty());
            assert(nonempty_words(start) =~= Seq::<Seq<char>>::empty());
        }
        while i < n
            invariant
                i <= n,
                n == self@.name.len(),
                mapped == self@.name.map_values(|c: char| stem_char(c)),
                out@ == joined(nonempty_words(pieces(mapped.take(i as int)))),
                pending == (out@.len() > 0 && pieces(mapped.take(i as int)).last().len() == 0),
            decreases n - i,
        {
            let c = stem_of(self.name.as_str().get_char(i));
            let ghost t = mapped.take(i as int);
            let ghost p = pieces(t);
            let ghost words = nonempty_words(p);
            proof {
                assert(mapped.take(i + 1).drop_last() =~= t);
                assert(mapped.take(i + 1).last() == c);
                lemma_pieces_len(t);
                lemma_nonempty_words(p);
                lemma_joined_empty(words);
                reveal(Seq::filter);
                assert(p =~= p.drop_last().push(p.last()));
            }
            if c == '-' {
                if out.as_str().unicode_len() > 0 {
                    pending = true;
                }
                proof {
                    reveal(Seq::filter);
                    assert(p.push(Seq::empty()).drop_last() =~= p);
                    assert(nonempty_words(p.push(Seq::empty())) == nonempty_words(p));
                }
            } else {
                let ghost longer = p.update(p.len() - 1, p.last().push(c));
                proof {
                    reveal(Seq::filter);
                    assert(longer.drop_last() =~= p.drop_last());
                    assert(nonempty_words(longer) == nonempty_words(p.drop_last()).push(p.last().push(c)));
                }
                if pending {
                    push_char(&mut out, '-');
                    pending = false;
                }
                push_char(&mut out, c);
                proof {
                    if p.last().len() > 0 {
                        assert(words == nonempty_words(p.drop_last()).push(p.last()));
                        lemma_joined_extend(words, c);
                        assert(words.update(words.len() - 1, words.last().push(c)) =~= nonempty_words(longer));
                    } else {
                        assert(words == nonempty_words(p.drop_last()));
                        assert(p.last().push(c) =~= seq![c]);
                        assert(nonempty_words(longer) == words.push(seq![c]));
                        if words.len() == 0 {
                            assert(out@ =~= joined(words.push(seq![c])));
                        } else {
                            assert(words.push(seq![c]).drop_last() =~= words);
                            assert(out@ =~= joined(words.push(seq![c])));
                        }
                    }
                    assert(nonempty_words(longer).last().len() > 0);
                }
            }
            i += 1;
        }
        assert(mapped.take(n as int) =~= mapped);
        push_char(&mut out, '.');
        push_char(&mut out, 'j');
        push_char(&mut out, 's');
        push_char(&mut out, 'o');
        push_char(&mut out, 'n');
        assert(out@ =~= spec_file_name(self@.name));
        out
    }
}

/// The slot a capture is being read for, and everything the surface has sent
/// since it was armed. `last` is when the surface last sent something, in the
/// caller's milliseconds.
struct Armed {
    port: String,
    slot: Slot,
    kind: ControlKind,
    watch: Watch,
    last: u64,
}

pub struct ArmedView {
    pub port: Seq<char>,
    pub slot: SlotView,
    pub kind: ControlKind,
    pub watch: WatchView,
    pub last: u64,
}

impl View for Armed {
    type V = ArmedView;

    closed spec fn view(&self) -> ArmedView {
        ArmedView { port: self.port@, slot: self.slot@, kind: self.kind, watch: self.watch@, last: self.last }
    }
}

/// Learn mode: at most one port learning, at most one slot armed, and a draft per
/// port that has been learned on.
pub struct Learn {
    /// The port in learn mode. Its messages never reach the engine, so a capture
    /// cannot move a deck.
    port: Option<String>,
    armed: Option<Armed>,
    drafts: Vec<(String, Draft)>,
}

pub struct LearnView {
    pub port: Option<Seq<char>>,
    pub armed: Option<ArmedView>,
    pub drafts: Seq<(Seq<char>, DraftView)>,
}

pub open spec fn drafts_view(drafts: Seq<(String, Draft)>) -> Seq<(Seq<char>, DraftView)> {
    drafts.map_values(|entry: (String, Draft)| (entry.0@, entry.1@))
}

impl View for Learn {
    type V = LearnView;

    closed spec fn view(&self) -> LearnView {
        LearnView {
            port: opt_view(self.port),
            armed: match self.armed {
                Some(armed) => Some(armed@),
                None => None,
            },
            drafts: drafts_view(self.drafts@),
        }
    }
}

/// What a settled capture reports back, so the UI names the slot it landed on
/// rather than assuming it is still the armed one.
pub struct Landed {
    pub port: String,
    pub slot: Slot,
    pub capture: Capture,
}

proof fn lemma_drafts_view_update(drafts: Seq<(String, Draft)>, i: int, entry: (String, Draft))
    requires
        0 <= i < drafts.len(),
    ensures
        drafts_view(drafts.update(i, entry)) == drafts_view(drafts).update(i, (entry.0@, entry.1@)),
{
    assert(drafts_view(drafts.update(i, entry)) =~= drafts_view(drafts).update(i, (entry.0@, entry.1@)));
}

/// The first draft from `from` on that belongs to this port.
pub open spec fn find_draft(drafts: Seq<(Seq<char>, DraftView)>, port: Seq<char>, from: int) -> Option<int>
    decreases drafts.len() - from,
{
    if from < 0 || from >= drafts.len() {
        None
    } else if drafts[from].0 == port {
        Some(from)
    } else {
        find_draft(drafts, port, from + 1)
    }
}

pub proof fn lemma_find_draft(drafts: Seq<(Seq<char>, DraftView)>, port: Seq<char>, from: int)
    requires
        0 <= from,
    ensures
        match find_draft(drafts, port, from) {
            Some(i) => from <= i < drafts.len() && drafts[i].0 == port,
            None => forall|i: int| from <= i < drafts.len() ==> drafts[i].0 != port,
        },
    decreases drafts.len() - from,
{
    if from < drafts.len() && drafts[from].0 != port {
        lemma_find_draft(drafts, port, from + 1);
    }
}

/// A capture lands once the surface has sent something and then nothing for
/// `SETTLE_MS`.
pub open spec fn has_settled(armed: ArmedView, now: u64) -> bool {
    !(armed.watch.notes.len() == 0 && armed.watch.controls.len() == 0) && now - armed.last >= SETTLE_MS
}

pub open spec fn unknown_action_message(action: Seq<char>) -> Seq<char> {
    "unknown action '"@ + action + seq!['\'']
}

fn unknown_action(action: &str) -> (message: String)
    ensures
        message@ == unknown_action_message(action@),
{
    let mut message = String::new();
    push_text(&mut message, "unknown action '");
    push_text(&mut message, action);
    push_char(&mut message, '\'');
    assert(message@ =~= unknown_action_message(action@));
    message
}

impl Default for Learn {
    fn default() -> (learn: Learn)
        ensures
            learn@.port is None,
            learn@.armed is None,
            learn@.drafts.len() == 0,
    {
        Learn::new()
    }
}

impl Learn {
    pub fn new() -> (learn: Learn)
        ensures
            learn@.port is None,
            learn@.armed is None,
            learn@.drafts.len() == 0,
    {
        Learn { port: None, armed: None, drafts: Vec::new() }
    }

    pub fn learning(&self, port: &str) -> (learning: bool)
        ensures
            learning == (self@.port == Some(port@)),
    {
        match &self.port {
            Some(learning) => same_text(learning.as_str(), port),
            None => false,
        }
    }

    fn draft_index(&self, port: &str) -> (found: Option<usize>)
        ensures
            match found {
                Some(i) => find_draft(self@.drafts, port@, 0) == Some(i as int),
                None => find_draft(self@.drafts, port@, 0) is None,
            },
    {
        let ghost drafts = self@.drafts;
        let mut i: usize = 0;
        while i < self.drafts.len()
            invariant
                i <= self.drafts.len(),
                drafts == drafts_view(self.drafts@),
                find_draft(drafts, port@, 0) == find_draft(drafts, port@, i as int),
            decreases self.drafts.len() - i,
        {
            assert(drafts[i as int].0 == self.drafts@[i as int].0@);
            if same_text(self.drafts[i].0.as_str(), port) {
                return Some(i);
            }
            i += 1;
        }
        None
    }

    /// Puts the port in learn mode with nothing armed, keeping the draft it already
    /// has or seeding one from the mapping that claims it.
    pub fn start(&mut self, port: &str, seed: Option<&Mapping>)
        ensures
            final(self)@.port == Some(port@),
            final(self)@.armed is None,
            final(self)@.drafts == (if find_draft(old(self)@.drafts, port@, 0) is Some {
                old(self)@.drafts
            } else {
                old(self)@.drafts.push(
                    (
                        port@,
                        match seed {
                            Some(mapping) => draft_of(*mapping),
                            None => empty_draft(port@),
                        },
                    ),
                )
            }),
    {
        self.port = Some(text_of(port));
        self.armed = None;
        if self.draft_index(port).is_none() {
            let draft = match seed {
                Some(mapping) => Draft::of(mapping),
                None => Draft::empty(port),
            };
            let ghost before = self@.drafts;
            self.drafts.push((text_of(port), draft));
            assert(self@.drafts =~= before.push((port@, draft@)));
        }
    }

    pub fn stop(&mut self)
        ensures
            final(self)@.port is None,
            final(self)@.armed is None,
            final(self)@.drafts == old(self)@.drafts,
    {
        self.port = None;
        self.armed = None;
    }

    pub fn draft(&self, port: &str) -> (draft: Option<&Draft>)
        ensures
            match draft {
                Some(d) => exists|i: int|
                    find_draft(self@.drafts, port@, 0) == Some(i) && d@ == #[trigger] self@.drafts[i].1,
                None => find_draft(self@.drafts, port@, 0) is None,
            },
    {
        match self.draft_index(port) {
            Some(i) => {
                proof {
                    lemma_find_draft(self@.drafts, port@, 0);
                }
                assert(self@.drafts[i as int].1 == self.drafts@[i as int].1@);
                Some(&self.drafts[i].1)
            },
            None => None,
        }
    }

    /// The port's draft, to edit in place.
    pub fn draft_mut(&mut self, port: &str) -> (draft: Option<&mut Draft>)
        ensures
            final(self)@.port == old(self)@.port,
            final(self)@.armed == old(self)@.armed,
            match draft {
                Some(d) => exists|i: int|
                    find_draft(old(self)@.drafts, port@, 0) == Some(i) && (*d)@ == #[trigger] old(self)@.drafts[i].1
                        && final(self)@.drafts == old(self)@.drafts.update(i, (port@, (*final(d))@)),
                None => find_draft(old(self)@.drafts, port@, 0) is None && final(self)@.drafts == old(
                    self,
                )@.drafts,
            },
    {
        match self.draft_index(port) {
            Some(i) => {
                proof {
                    lemma_find_draft(self@.drafts, port@, 0);
                }
                assert(self@.drafts[i as int].1 == self.drafts@[i as int].1@);
                assert(self@.drafts[i as int].0 == self.drafts@[i as int].0@);
                let ghost before = self.drafts@;
                let entry = &mut self.drafts[i];
                proof {
                    lemma_drafts_view_update(before, i as int, *final(entry));
                }
                Some(&mut entry.1)
            },
            None => None,
        }
    }

    /// Forgets the port's draft, and disarms the slot if the port is the one learning.
    pub fn discard(&mut self, port: &str)
        ensures
            final(self)@.port == old(self)@.port,
            final(self)@.drafts == (match find_draft(old(self)@.drafts, port@, 0) {
                Some(i) => old(self)@.drafts.remove(i),
                None => old(self)@.drafts,
            }),
            final(self)@.armed == (if old(self)@.port == Some(port@) {
                None
            } else {
                old(self)@.armed
            }),
    {
        if let Some(i) = self.draft_index(port) {
            proof {
                lemma_find_draft(self@.drafts, port@, 0);
            }
            let ghost before = self@.drafts;
            self.drafts.remove(i);
            assert(self@.drafts =~= before.remove(i as int));
        }
        if self.learning(port) {
            self.armed = None;
        }
    }

    /// Arms a slot to read what the surface sends next. An action the vocabulary
    /// does not offer is refused, since nothing could tell what control it reads.
    pub fn arm(&mut self, port: &str, slot: Slot, now: u64) -> (armed: Result<(), String>)
        ensures
            final(self)@.port == old(self)@.port,
            final(self)@.drafts == old(self)@.drafts,
            match spec_lookup(slot@.action, slot@.steps) {
                Some(action) => armed is Ok && final(self)@.armed == Some(
                    ArmedView {
                        port: port@,
                        slot: slot@,
                        kind: action.kind,
                        watch: WatchView {
                            notes: Seq::empty(),
                            released: Seq::empty(),
                            controls: Seq::empty(),
                        },
                        last: now,
                    },
                ),
                None => armed matches Err(message) && message@ == unknown_action_message(slot@.action)
                    && final(self)@.armed == old(self)@.armed,
            },
    {
        let kind = match spec(slot.action.as_str(), slot.steps) {
            Some(action) => action.kind,
            None => {
                return Err(unknown_action(slot.action.as_str()));
            },
        };
        let watch = Watch::new();
        assert(watch@.notes =~= Seq::<(u8, u8)>::empty());
        assert(watch@.released =~= Seq::<(u8, u8)>::empty());
        assert(watch@.controls =~= Seq::<((u8, u8), Seq<u8>)>::empty());
        self.armed = Some(Armed { port: text_of(port), slot, kind, watch, last: now });
        Ok(())
    }

    pub fn disarm(&mut self)
        ensures
            final(self)@.port == old(self)@.port,
            final(self)@.drafts == old(self)@.drafts,
            final(self)@.armed is None,
    {
        self.armed = None;
    }

    pub fn armed_slot(&self) -> (slot: Option<&Slot>)
        ensures
            match (slot, self@.armed) {
                (Some(s), Some(armed)) => s@ == armed.slot,
                (None, None) => true,
                _ => false,
            },
    {
        match &self.armed {
            Some(armed) => Some(&armed.slot),
            None => None,
        }
    }

    /// Returns the capture as it currently reads, so the UI shows a fader
    /// resolving while it is still being swept. Messages from any other port, and
    /// those that carry no address, leave the armed slot as it was.
    pub fn observe(&mut self, port: &str, data: &[u8], now: u64) -> (read: Option<(Slot, Capture)>)
        ensures
            final(self)@.port == old(self)@.port,
            final(self)@.drafts == old(self)@.drafts,
            match old(self)@.armed {
                Some(armed) if armed.port == port@ => {
                    let (watch, carried) = watched(armed.watch, data@);
                    if carried {
                        let next = ArmedView { watch, last: now, ..armed };
                        &&& final(self)@.armed == Some(next)
                        &&& match (read, spec_infer(armed.kind, watch)) {
                            (Some((slot, capture)), Some(inferred)) => slot@ == armed.slot && capture == inferred,
                            (None, None) => true,
                            _ => false,
                        }
                    } else {
                        final(self)@.armed == old(self)@.armed && read is None
                    }
                },
                _ => final(self)@.armed == old(self)@.armed && read is None,
            },
    {
        let taken = self.armed.take();
        match taken {
            Some(mut armed) => {
                if !same_text(armed.port.as_str(), port) {
                    self.armed = Some(armed);
                    return None;
                }
                if !armed.watch.observe(data) {
                    self.armed = Some(armed);
                    return None;
                }
                armed.last = now;
                let read = match infer(armed.kind, &armed.watch) {
                    Some(capture) => Some((armed.slot.copy(), capture)),
                    None => None,
                };
                self.armed = Some(armed);
                read
            },
            None => None,
        }
    }

    /// Called on a tick rather than per message, because the last message of a
    /// sweep looks like every other one until nothing follows it. A settled capture
    /// is bound into the port's draft and disarms the slot.
    pub fn settled(&mut self, now: u64) -> (landed: Option<Landed>)
        ensures
            final(self)@.port == old(self)@.port,
            match old(self)@.armed {
                Some(armed) if has_settled(armed, now) && spec_infer(armed.kind, armed.watch) is Some => {
                    let capture = spec_infer(armed.kind, armed.watch)->0;
                    &&& final(self)@.armed is None
                    &&& match find_draft(old(self)@.drafts, armed.port, 0) {
                        Some(i) => {
                            let draft = old(self)@.drafts[i].1;
                            &&& final(self)@.drafts == old(self)@.drafts.update(
                                i,
                                (
                                    armed.port,
                                    DraftView {
                                        bindings: unbound(draft.bindings, armed.slot).push(
                                            (armed.slot, capture),
                                        ),
                                        ..draft
                                    },
                                ),
                            )
                            &&& landed matches Some(l) && l.port@ == armed.port && l.slot@ == armed.slot
                                && l.capture == capture
                        },
                        None => final(self)@.drafts == old(self)@.drafts && landed is None,
                    }
                },
                _ => final(self)@ == old(self)@ && landed is None,
            },
    {
        let ready = match &self.armed {
            Some(armed) => !armed.watch.is_empty() && now >= armed.last && now - armed.last >= SETTLE_MS,
            None => false,
        };
        proof {
            if let Some(armed) = old(self)@.armed {
                assert(ready == has_settled(armed, now)) by {
                    if now < armed.last {
                        assert(now - armed.last < 0);
                    }
                }
            }
        }
        if !ready {
            return None;
        }
        let capture = match &self.armed {
            Some(armed) => match infer(armed.kind, &armed.watch) {
                Some(capture) => capture,
                None => {
                    return None;
                },
            },
            None => {
                return None;
            },
        };
        let armed = match self.armed.take() {
            Some(armed) => armed,
            None => {
                return None;
            },
        };
        let i = match self.draft_index(armed.port.as_str()) {
            Some(i) => i,
            None => {
                return None;
            },
        };
        proof {
            lemma_find_draft(self@.drafts, armed.port@, 0);
        }
        let ghost before = self@.drafts;
        let (held_port, mut draft) = self.drafts.remove(i);
        let ghost seeded_draft = draft@;
        assert(seeded_draft == before[i as int].1);
        draft.bind(armed.slot.copy(), capture);
        assert(draft@ =~= DraftView {
            bindings: unbound(seeded_draft.bindings, armed.slot@).push((armed.slot@, capture)),
            ..seeded_draft
        });
        self.drafts.insert(i, (held_port, draft));
        assert(self@.drafts =~= before.update(i as int, (armed.port@, draft@)));
        Some(Landed { port: armed.port, slot: armed.slot, capture })
    }
}

proof fn lemma_slot_first_total_preorder()
    ensures
        total_preorder(slot_first()),
{
    assert forall|a: SlotView, b: SlotView| #[trigger] (slot_first())(a, b) || (slot_first())(b, a) by {
        lemma_opt_text_order(a.deck, b.deck, b.deck);
        lemma_opt_text_order(a.slot, b.slot, b.slot);
        lemma_opt_text_order(a.param, b.param, b.param);
    }
    assert forall|a: SlotView, b: SlotView, c: SlotView|
        #[trigger] (slot_first())(a, b) && #[trigger] (slot_first())(b, c) implies (slot_first())(a, c) by {
        lemma_opt_text_order(a.deck, b.deck, c.deck);
        lemma_opt_text_order(a.slot, b.slot, c.slot);
        lemma_opt_text_order(a.param, b.param, c.param);
    }
}

/// A draft's entries and the file it writes list their slots in vocabulary order,
/// then by deck and address, so two people mapping one device produce files that
/// diff by what differs rather than by capture order; each slot's index appears
/// once.
pub proof fn law_slots_sort_into_vocabulary_order(slots: Seq<SlotView>)
    ensures
        ordered_by(sorted_order(slots, slots.len()), slots, slot_first()),
        sorted_order(slots, slots.len()).len() == slots.len(),
        forall|i: int| #[trigger] sorted_order(slots, slots.len()).contains(i) <==> 0 <= i < slots.len(),
{
    lemma_slot_first_total_preorder();
    law_a_stable_order_is_sorted(slots, slot_first(), slots.len());
    lemma_stable_order_contents(slots, slot_first(), slots.len());
}

/// The bindings a slot has.
pub open spec fn bound_to(bindings: Seq<(SlotView, Capture)>, slot: SlotView) -> Seq<(SlotView, Capture)> {
    bindings.filter(|held: (SlotView, Capture)| held.0 == slot)
}

proof fn lemma_unbound(bindings: Seq<(SlotView, Capture)>, slot: SlotView, other: SlotView)
    ensures
        bound_to(unbound(bindings, slot), slot).len() == 0,
        other != slot ==> bound_to(unbound(bindings, slot), other) == bound_to(bindings, other),
    decreases bindings.len(),
{
    reveal(Seq::filter);
    if bindings.len() > 0 {
        lemma_unbound(bindings.drop_last(), slot, other);
        let rest = unbound(bindings.drop_last(), slot);
        if bindings.last().0 != slot {
            assert(unbound(bindings, slot) == rest.push(bindings.last()));
            assert(rest.push(bindings.last()).drop_last() =~= rest);
        } else {
            assert(unbound(bindings, slot) == rest);
        }
    }
}

/// Binding a slot replaces every address it had, so a slot the file reached twice
/// cannot keep half of its old binding after an edit; every other slot keeps what
/// it had.
pub proof fn law_rebinding_a_slot_replaces_every_address_it_had(
    bindings: Seq<(SlotView, Capture)>,
    slot: SlotView,
    capture: Capture,
    other: SlotView,
)
    ensures
        bound_to(unbound(bindings, slot).push((slot, capture)), slot) == seq![(slot, capture)],
        other != slot ==> bound_to(unbound(bindings, slot).push((slot, capture)), other) == bound_to(
            bindings,
            other,
        ),
{
    lemma_unbound(bindings, slot, other);
    reveal(Seq::filter);
    let rebound = unbound(bindings, slot).push((slot, capture));
    assert(rebound.drop_last() =~= unbound(bindings, slot));
    assert(bound_to(rebound, slot) =~= bound_to(unbound(bindings, slot), slot).push((slot, capture)));
}

/// A capture is of the kind the armed slot reads: a note for a button, a
/// control change for a fader or an encoder, on a channel counted from one.
pub proof fn law_a_capture_reads_what_its_slot_expects(kind: ControlKind, watch: WatchView)
    requires
        watch_wf(watch),
    ensures
        spec_infer(kind, watch) matches Some(capture) ==> {
            &&& 1 <= capture.channel <= 16
            &&& kind == ControlKind::Button ==> capture.note is Some && capture.cc is None && capture.button is Some
            &&& kind != ControlKind::Button ==> capture.cc is Some && capture.note is None && capture.resolution is Some
        },
        kind == ControlKind::Button ==> (spec_infer(kind, watch) is Some <==> watch.notes.len() > 0),
        kind != ControlKind::Button ==> (spec_infer(kind, watch) is Some <==> watch.controls.len() > 0),
{
    if kind == ControlKind::Button && watch.notes.len() > 0 {
        assert(watch.notes[0].0 < 16);
    }
    if kind != ControlKind::Button && watch.controls.len() > 0 {
        lemma_busiest_index_in_range(watch.controls);
        assert(watch.controls[busiest_index(watch.controls)].0.0 < 16);
    }
}

/// Only a note pressed while the slot was armed can be released in it, so a
/// release left over from an earlier gesture cannot make a trigger look momentary.
pub proof fn law_a_release_counts_only_for_a_note_pressed_while_armed(watch: WatchView, data: Seq<u8>)
    requires
        forall|i: int| 0 <= i < watch.released.len() ==> watch.notes.contains(#[trigger] watch.released[i]),
    ensures
        forall|i: int|
            0 <= i < watched(watch, data).0.released.len() ==> watched(watch, data).0.notes.contains(
                #[trigger] watched(watch, data).0.released[i],
            ),
{
    let next = watched(watch, data).0;
    assert forall|i: int| 0 <= i < next.released.len() implies next.notes.contains(#[trigger] next.released[i]) by {
        if i < watch.released.len() {
            assert(next.released[i] == watch.released[i]);
            let k = choose|k: int| 0 <= k < watch.notes.len() && watch.notes[k] == watch.released[i];
            if next.notes != watch.notes {
                assert(next.notes[k] == watch.notes[k]);
            }
        }
    }
}

} // verus!
