//! The MIDI side of the app that is not wire decoding: the monitor buffer the
//! console panel drains, which ports to open, and the registry of connected
//! devices with the mapping, deck and half-memory each one has.

use vstd::prelude::*;
use crate::decode::{decode, resolve_move, spec_parse_note_on, ControlMemory, Move, NoteOn};
use crate::mapping::{
    built_from, claims_port, first_build_error, key_table, Binding, DeckScope, Feedback, KeyTable, Mapping,
    MappingError, Profile, ProfileError,
};
use crate::order::{
    law_a_stable_order_is_sorted, lemma_insert_at, lemma_stable_order_contents, lemma_stable_order_in_range, ordered_by,
    stable_order, total_preorder,
};
use crate::text::{
    compare_text, lemma_text_order_chain, lemma_text_order_equal, lemma_text_order_swap, opt_view, same_text, text_order,
};
use crate::wire::{Key, NOTE_ON};
use std::collections::VecDeque;

verus! {

/// How many messages the monitor holds between flushes.
pub const MONITOR_CAPACITY: usize = 512;

/// How often the console panel is sent what the monitor holds.
pub const MONITOR_FLUSH_MS: u64 = 50;

/// One message as the console panel shows it.
#[derive(Clone, Debug, PartialEq, Eq)]
pub struct MidiMessage {
    pub port: String,
    pub timestamp_us: u64,
    pub data: Vec<u8>,
}

/// What arrived since the console panel last looked, while it is open.
pub struct Monitor {
    buffer: VecDeque<MidiMessage>,
    enabled: bool,
}

pub struct MonitorView {
    pub messages: Seq<MidiMessage>,
    pub enabled: bool,
}

impl View for Monitor {
    type V = MonitorView;

    closed spec fn view(&self) -> MonitorView {
        MonitorView { messages: self.buffer@, enabled: self.enabled }
    }
}

/// A message joins the end; a full buffer first drops its oldest, so a controller
/// outrunning the flush costs the console its history rather than memory. A
/// closed console keeps nothing.
pub open spec fn pushed(monitor: MonitorView, message: MidiMessage) -> Seq<MidiMessage> {
    if !monitor.enabled {
        monitor.messages
    } else if monitor.messages.len() == MONITOR_CAPACITY {
        monitor.messages.drop_first().push(message)
    } else {
        monitor.messages.push(message)
    }
}

impl Monitor {
    pub fn new() -> (monitor: Monitor)
        ensures
            monitor@.messages.len() == 0,
            !monitor@.enabled,
    {
        Monitor { buffer: VecDeque::new(), enabled: false }
    }

    pub fn is_enabled(&self) -> (enabled: bool)
        ensures
            enabled == self@.enabled,
    {
        self.enabled
    }

    pub fn push(&mut self, message: MidiMessage)
        ensures
            final(self)@.enabled == old(self)@.enabled,
            final(self)@.messages == pushed(old(self)@, message),
    {
        if !self.enabled {
            return;
        }
        if self.buffer.len() == MONITOR_CAPACITY {
            self.buffer.pop_front();
        }
        self.buffer.push_back(message);
    }

    /// Everything held, oldest first, leaving the buffer empty.
    pub fn drain(&mut self) -> (drained: Vec<MidiMessage>)
        ensures
            drained@ == old(self)@.messages,
            final(self)@.messages.len() == 0,
            final(self)@.enabled == old(self)@.enabled,
    {
        let ghost all = self@.messages;
        let ghost enabled = self.enabled;
        let mut drained: Vec<MidiMessage> = Vec::new();
        while self.buffer.len() > 0
            invariant
                drained@ + self.buffer@ == all,
                self.enabled == enabled,
            decreases self.buffer@.len(),
        {
            let ghost rest = self.buffer@;
            match self.buffer.pop_front() {
                Some(message) => {
                    drained.push(message);
                    assert(drained@ + self.buffer@ =~= all);
                },
                None => {},
            }
        }
        assert(drained@ =~= all);
        drained
    }

    /// Opening the console starts collecting; closing it discards what it held.
    pub fn set_enabled(&mut self, enabled: bool)
        ensures
            final(self)@.enabled == enabled,
            final(self)@.messages == (if enabled {
                old(self)@.messages
            } else {
                Seq::empty()
            }),
    {
        self.enabled = enabled;
        if !enabled {
            let _ = self.drain();
            assert(self@.messages =~= Seq::<MidiMessage>::empty());
        }
    }
}

/// A monitor that starts within its capacity stays within it, however fast
/// messages arrive.
pub proof fn law_the_monitor_never_outgrows_its_capacity(monitor: MonitorView, message: MidiMessage)
    requires
        monitor.messages.len() <= MONITOR_CAPACITY,
    ensures
        pushed(monitor, message).len() <= MONITOR_CAPACITY,
        monitor.enabled ==> pushed(monitor, message).last() == message,
{
}

/// The monitor after a run of pushes.
pub open spec fn after_pushes(monitor: MonitorView, messages: Seq<MidiMessage>) -> MonitorView
    decreases messages.len(),
{
    if messages.len() == 0 {
        monitor
    } else {
        let before = after_pushes(monitor, messages.drop_last());
        MonitorView { messages: pushed(before, messages.last()), enabled: before.enabled }
    }
}

/// The newest `n` of a run, in the order they came.
pub open spec fn newest(messages: Seq<MidiMessage>, n: nat) -> Seq<MidiMessage> {
    if messages.len() <= n {
        messages
    } else {
        messages.skip(messages.len() - n)
    }
}

/// What a drain hands over after any run of pushes: an open monitor holds the
/// newest of what it held and what arrived, at most its capacity of them and
/// oldest first; a closed one holds what it had.
pub proof fn law_a_drain_gives_the_newest_of_a_run(monitor: MonitorView, messages: Seq<MidiMessage>)
    requires
        monitor.messages.len() <= MONITOR_CAPACITY,
    ensures
        after_pushes(monitor, messages).enabled == monitor.enabled,
        after_pushes(monitor, messages).messages == (if monitor.enabled {
            newest(monitor.messages + messages, MONITOR_CAPACITY as nat)
        } else {
            monitor.messages
        }),
    decreases messages.len(),
{
    if messages.len() > 0 {
        let shorter = messages.drop_last();
        law_a_drain_gives_the_newest_of_a_run(monitor, shorter);
        if monitor.enabled {
            let all = monitor.messages + messages;
            let prev = monitor.messages + shorter;
            assert(all =~= prev.push(messages.last()));
            let held = newest(prev, MONITOR_CAPACITY as nat);
            if prev.len() < MONITOR_CAPACITY {
                assert(held.len() < MONITOR_CAPACITY);
            } else {
                assert(held.len() == MONITOR_CAPACITY);
                assert(held.drop_first().push(messages.last()) =~= all.skip(all.len() - MONITOR_CAPACITY));
            }
        }
    }
}

pub open spec fn texts(list: Seq<String>) -> Seq<Seq<char>> {
    list.map_values(|text: String| text@)
}

pub fn contains_port(list: &Vec<String>, port: &str) -> (found: bool)
    ensures
        found == texts(list@).contains(port@),
{
    let mut i: usize = 0;
    while i < list.len()
        invariant
            i <= list.len(),
            forall|j: int| 0 <= j < i ==> (#[trigger] list@[j])@ != port@,
        decreases list.len() - i,
    {
        if same_text(list[i].as_str(), port) {
            assert(texts(list@)[i as int] == port@);
            return true;
        }
        i += 1;
    }
    assert forall|j: int| 0 <= j < texts(list@).len() implies texts(list@)[j] != port@ by {
        assert(texts(list@)[j] == list@[j]@);
    }
    false
}

/// The wanted ports not already open, in the order they were named. Inputs and
/// outputs are asked separately, so an output that failed to open is retried
/// while its input is left alone.
pub fn ports_to_open(wanted: &Vec<String>, open: &Vec<String>) -> (to_open: Vec<String>)
    ensures
        texts(to_open@) == texts(wanted@).filter(|port: Seq<char>| !texts(open@).contains(port)),
{
    let ghost pred = |port: Seq<char>| !texts(open@).contains(port);
    let ghost want = texts(wanted@);
    let mut to_open: Vec<String> = Vec::new();
    let mut i: usize = 0;
    reveal(Seq::filter);
    assert(want.take(0) =~= Seq::<Seq<char>>::empty());
    while i < wanted.len()
        invariant
            i <= wanted.len(),
            want == texts(wanted@),
            pred == (|port: Seq<char>| !texts(open@).contains(port)),
            texts(to_open@) == want.take(i as int).filter(pred),
        decreases wanted.len() - i,
    {
        let ghost prev = texts(to_open@);
        assert(want[i as int] == wanted@[i as int]@);
        assert(want.take(i + 1).drop_last() =~= want.take(i as int));
        assert(want.take(i + 1).last() == want[i as int]);
        if !contains_port(open, wanted[i].as_str()) {
            to_open.push(wanted[i].clone());
            assert(texts(to_open@) =~= prev.push(want[i as int]));
        }
        reveal(Seq::filter);
        assert(want.take(i + 1).filter(pred) == (if pred(want[i as int]) {
            want.take(i as int).filter(pred).push(want[i as int])
        } else {
            want.take(i as int).filter(pred)
        }));
        i += 1;
    }
    assert(want.take(i as int) =~= want);
    to_open
}

/// One connected port, with its own 14-bit memory. The memory is per device because
/// halves from two controllers must never join.
struct Device {
    mapping: Option<usize>,
    profile: Option<Profile>,
    memory: ControlMemory,
    deck: Option<String>,
}

#[verifier::ext_equal]
pub struct DeviceView {
    /// Which of the registry's mappings claims the port.
    pub mapping: Option<int>,
    /// What the port's messages resolve through: absent until the mapping builds,
    /// and for a mapping that plays one deck, until the user gives it one.
    pub profile: Option<Profile>,
    pub memory: Map<usize, (u8, u8)>,
    pub deck: Option<Seq<char>>,
}

impl View for Device {
    type V = DeviceView;

    closed spec fn view(&self) -> DeviceView {
        DeviceView {
            mapping: match self.mapping {
                Some(index) => Some(index as int),
                None => None,
            },
            profile: self.profile,
            memory: self.memory@,
            deck: opt_view(self.deck),
        }
    }
}

/// The shipped mappings and every connected port's device.
pub struct MidiState {
    mappings: Vec<Mapping>,
    devices: Vec<(String, Device)>,
}

pub struct MidiStateView {
    pub mappings: Seq<Mapping>,
    pub devices: Seq<(Seq<char>, DeviceView)>,
}

pub open spec fn devices_view(devices: Seq<(String, Device)>) -> Seq<(Seq<char>, DeviceView)> {
    devices.map_values(|entry: (String, Device)| (entry.0@, entry.1@))
}

impl View for MidiState {
    type V = MidiStateView;

    closed spec fn view(&self) -> MidiStateView {
        MidiStateView { mappings: self.mappings@, devices: devices_view(self.devices@) }
    }
}

/// The first mapping from `from` on that claims the port.
pub open spec fn claiming(mappings: Seq<Mapping>, port: Seq<char>, from: int) -> Option<int>
    decreases mappings.len() - from,
{
    if from < 0 || from >= mappings.len() {
        None
    } else if claims_port(mappings[from].matches@, port) {
        Some(from)
    } else {
        claiming(mappings, port, from + 1)
    }
}

pub proof fn lemma_claiming(mappings: Seq<Mapping>, port: Seq<char>, from: int)
    requires
        0 <= from,
    ensures
        match claiming(mappings, port, from) {
            Some(i) => from <= i < mappings.len() && claims_port(mappings[i].matches@, port),
            None => true,
        },
    decreases mappings.len() - from,
{
    if from < mappings.len() && !claims_port(mappings[from].matches@, port) {
        lemma_claiming(mappings, port, from + 1);
    }
}

/// A profile `mapping.profile(given)` could have returned.
pub open spec fn built_profile(mapping: Mapping, given: Option<Seq<char>>, profile: Profile) -> bool {
    &&& first_build_error(mapping.bindings@, mapping.decks, given) is None
    &&& built_from(profile.bindings(), mapping.bindings@, mapping.decks, given)
}

/// The mapping refuses to build against `given`: a binding does not build, or the
/// built bindings collide.
pub open spec fn profile_refused(mapping: Mapping, given: Option<Seq<char>>) -> bool {
    ||| first_build_error(mapping.bindings@, mapping.decks, given) is Some
    ||| exists|bindings: Seq<Binding>|
        built_from(bindings, mapping.bindings@, mapping.decks, given) && #[trigger] key_table(bindings) is Err
}

/// What a newly seen port starts with: the first mapping claiming it, no deck, no
/// halves, and a profile only where the mapping names its own decks and builds.
pub open spec fn fresh_device(mappings: Seq<Mapping>, port: Seq<char>, device: DeviceView) -> bool {
    &&& device.mapping == claiming(mappings, port, 0)
    &&& device.memory == Map::<usize, (u8, u8)>::empty()
    &&& device.deck is None
    &&& match device.mapping {
        None => device.profile is None,
        Some(i) => if mappings[i].decks == DeckScope::Assigned {
            device.profile is None
        } else {
            match device.profile {
                Some(p) => built_profile(mappings[i], None, p),
                None => profile_refused(mappings[i], None),
            }
        },
    }
}

pub open spec fn device_ports(devices: Seq<(Seq<char>, DeviceView)>) -> Seq<Seq<char>> {
    devices.map_values(|entry: (Seq<char>, DeviceView)| entry.0)
}

/// The ports among `ports` neither present nor named earlier, in the order named.
pub open spec fn added_ports(ports: Seq<Seq<char>>, present: Seq<Seq<char>>) -> Seq<Seq<char>>
    decreases ports.len(),
{
    if ports.len() == 0 {
        Seq::empty()
    } else {
        let added = added_ports(ports.drop_last(), present);
        if present.contains(ports.last()) || added.contains(ports.last()) {
            added
        } else {
            added.push(ports.last())
        }
    }
}

/// The devices still named by a scan, untouched and in their order.
pub open spec fn kept_devices(devices: Seq<(Seq<char>, DeviceView)>, ports: Seq<Seq<char>>) -> Seq<
    (Seq<char>, DeviceView),
> {
    devices.filter(|entry: (Seq<char>, DeviceView)| ports.contains(entry.0))
}

/// The first device from `from` on on this port.
pub open spec fn find_device(devices: Seq<(Seq<char>, DeviceView)>, port: Seq<char>, from: int) -> Option<int>
    decreases devices.len() - from,
{
    if from < 0 || from >= devices.len() {
        None
    } else if devices[from].0 == port {
        Some(from)
    } else {
        find_device(devices, port, from + 1)
    }
}

pub proof fn lemma_find_device(devices: Seq<(Seq<char>, DeviceView)>, port: Seq<char>, from: int)
    requires
        0 <= from,
    ensures
        match find_device(devices, port, from) {
            Some(i) => from <= i < devices.len() && devices[i].0 == port,
            None => forall|i: int| from <= i < devices.len() ==> devices[i].0 != port,
        },
    decreases devices.len() - from,
{
    if from < devices.len() && devices[from].0 != port {
        lemma_find_device(devices, port, from + 1);
    }
}

proof fn lemma_devices_view_update(devices: Seq<(String, Device)>, i: int, entry: (String, Device))
    requires
        0 <= i < devices.len(),
    ensures
        devices_view(devices.update(i, entry)) == devices_view(devices).update(i, (entry.0@, entry.1@)),
{
    assert(devices_view(devices.update(i, entry)) =~= devices_view(devices).update(i, (entry.0@, entry.1@)));
}

/// Every device's mapping is one of the registry's.
pub open spec fn mappings_in_range(state: MidiStateView) -> bool {
    forall|i: int|
        0 <= i < state.devices.len() ==> ((#[trigger] state.devices[i]).1.mapping matches Some(m) ==> 0 <= m
            < state.mappings.len())
}

impl MidiState {
    #[verifier::type_invariant]
    closed spec fn wf(&self) -> bool {
        mappings_in_range(self@)
    }

    pub fn new(mappings: Vec<Mapping>) -> (state: MidiState)
        ensures
            state@.mappings == mappings@,
            state@.devices.len() == 0,
            mappings_in_range(state@),
    {
        let state = MidiState { mappings, devices: Vec::new() };
        assert(state@.devices =~= Seq::<(Seq<char>, DeviceView)>::empty());
        state
    }

    pub fn mappings(&self) -> (mappings: &Vec<Mapping>)
        ensures
            mappings@ == self@.mappings,
    {
        &self.mappings
    }

    /// The first mapping that claims the port.
    pub fn mapping_for(&self, port: &str) -> (found: Option<usize>)
        ensures
            match found {
                Some(i) => claiming(self@.mappings, port@, 0) == Some(i as int),
                None => claiming(self@.mappings, port@, 0) is None,
            },
    {
        let mut i: usize = 0;
        while i < self.mappings.len()
            invariant
                i <= self.mappings.len(),
                claiming(self@.mappings, port@, 0) == claiming(self@.mappings, port@, i as int),
            decreases self.mappings.len() - i,
        {
            if self.mappings[i].claims(port) {
                return Some(i);
            }
            i += 1;
        }
        None
    }

    fn fresh(&self, port: &str) -> (device: Device)
        ensures
            fresh_device(self@.mappings, port@, device@),
    {
        let mapping = self.mapping_for(port);
        let profile = match mapping {
            None => None,
            Some(index) => {
                proof {
                    lemma_claiming(self@.mappings, port@, 0);
                }
                let claimed = &self.mappings[index];
                if claimed.needs_deck() {
                    None
                } else {
                    match claimed.profile(None) {
                        Ok(profile) => Some(profile),
                        Err(_) => None,
                    }
                }
            },
        };
        Device { mapping, profile, memory: ControlMemory::new(), deck: None }
    }

    fn device_index(&self, port: &str) -> (found: Option<usize>)
        ensures
            match found {
                Some(i) => find_device(self@.devices, port@, 0) == Some(i as int),
                None => find_device(self@.devices, port@, 0) is None,
            },
    {
        port_index(&self.devices, port)
    }
}

fn port_index(list: &Vec<(String, Device)>, port: &str) -> (found: Option<usize>)
    ensures
        match found {
            Some(i) => find_device(devices_view(list@), port@, 0) == Some(i as int),
            None => find_device(devices_view(list@), port@, 0) is None,
        },
{
    let ghost devices = devices_view(list@);
    let mut i: usize = 0;
    while i < list.len()
        invariant
            i <= list.len(),
            devices == devices_view(list@),
            find_device(devices, port@, 0) == find_device(devices, port@, i as int),
        decreases list.len() - i,
    {
        assert(devices[i as int].0 == list@[i as int].0@);
        if same_text(list[i].0.as_str(), port) {
            return Some(i);
        }
        i += 1;
    }
    None
}

proof fn lemma_contains_add(a: Seq<Seq<char>>, b: Seq<Seq<char>>, x: Seq<char>)
    ensures
        (a + b).contains(x) == (a.contains(x) || b.contains(x)),
{
    if (a + b).contains(x) {
        let i = choose|i: int| 0 <= i < (a + b).len() && (a + b)[i] == x;
        if i < a.len() {
            assert(a[i] == x);
        } else {
            assert(b[i - a.len()] == x);
        }
    }
    if a.contains(x) {
        let i = choose|i: int| 0 <= i < a.len() && a[i] == x;
        assert((a + b)[i] == x);
    }
    if b.contains(x) {
        let i = choose|i: int| 0 <= i < b.len() && b[i] == x;
        assert((a + b)[a.len() + i] == x);
    }
}

proof fn lemma_find_device_contains(devices: Seq<(Seq<char>, DeviceView)>, port: Seq<char>)
    ensures
        (find_device(devices, port, 0) is None) == !device_ports(devices).contains(port),
{
    lemma_find_device(devices, port, 0);
    match find_device(devices, port, 0) {
        Some(i) => {
            assert(device_ports(devices)[i] == port);
        },
        None => {
            assert forall|i: int| 0 <= i < device_ports(devices).len() implies device_ports(devices)[i] != port by {
                assert(device_ports(devices)[i] == devices[i].0);
            }
        },
    }
}

impl MidiState {
    /// A port that is still present is left untouched, so a rescan never disturbs
    /// the deck assignment of a device someone is playing. Ports no longer named
    /// are forgotten; ports named for the first time start fresh, in the order named.
    pub fn sync_devices(&mut self, ports: &Vec<String>)
        ensures
            mappings_in_range(final(self)@),
            final(self)@.mappings == old(self)@.mappings,
            ({
                let kept = kept_devices(old(self)@.devices, texts(ports@));
                let added = added_ports(texts(ports@), device_ports(kept));
                &&& final(self)@.devices.len() == kept.len() + added.len()
                &&& final(self)@.devices.take(kept.len() as int) == kept
                &&& forall|q: int|
                    0 <= q < added.len() ==> (#[trigger] final(self)@.devices[kept.len() + q]).0 == added[q]
                        && fresh_device(final(self)@.mappings, added[q], final(self)@.devices[kept.len() + q].1)
            }),
    {
        proof {
            use_type_invariant(&*self);
        }
        let ghost before = self@.devices;
        let ghost wanted = texts(ports@);
        let ghost pred = |entry: (Seq<char>, DeviceView)| wanted.contains(entry.0);
        let mut remaining: Vec<(String, Device)> = Vec::new();
        std::mem::swap(&mut remaining, &mut self.devices);
        let mut kept: Vec<(String, Device)> = Vec::new();
        let ghost mut consumed: int = 0;
        reveal(Seq::filter);
        assert(before.take(0) =~= Seq::<(Seq<char>, DeviceView)>::empty());
        assert(devices_view(remaining@) =~= before.skip(0));
        while remaining.len() > 0
            invariant
                0 <= consumed <= before.len(),
                wanted == texts(ports@),
                pred == (|entry: (Seq<char>, DeviceView)| wanted.contains(entry.0)),
                devices_view(remaining@) == before.skip(consumed),
                devices_view(kept@) == before.take(consumed).filter(pred),
            decreases remaining@.len(),
        {
            let ghost prev = devices_view(kept@);
            let ghost rest = devices_view(remaining@);
            assert(rest.len() == remaining@.len());
            assert(rest[0] == before[consumed]);
            let entry = remaining.remove(0);
            assert(rest[0] == (entry.0@, entry.1@));
            assert(devices_view(remaining@) =~= rest.drop_first());
            assert(rest.drop_first() =~= before.skip(consumed + 1));
            assert(before.take(consumed + 1).drop_last() =~= before.take(consumed));
            assert(before.take(consumed + 1).last() == before[consumed]);
            let keep = contains_port(ports, entry.0.as_str());
            if keep {
                kept.push(entry);
                assert(devices_view(kept@) =~= prev.push(before[consumed]));
            }
            reveal(Seq::filter);
            assert(before.take(consumed + 1).filter(pred) == (if pred(before[consumed]) {
                before.take(consumed).filter(pred).push(before[consumed])
            } else {
                before.take(consumed).filter(pred)
            }));
            proof {
                consumed = consumed + 1;
            }
            assert(devices_view(remaining@) =~= before.skip(consumed));
        }
        assert(before.skip(consumed).len() == 0);
        assert(before.take(consumed) =~= before);
        let ghost kept_view = devices_view(kept@);
        let ghost kept_ports = device_ports(kept_view);
        assert(kept_view == kept_devices(before, wanted));
        let mut j: usize = 0;
        assert(wanted.take(0) =~= Seq::<Seq<char>>::empty());
        assert(kept_ports + added_ports(wanted.take(0), kept_ports) =~= kept_ports);
        while j < ports.len()
            invariant
                j <= ports.len(),
                wanted == texts(ports@),
                self@.mappings == old(self)@.mappings,
                kept_ports == device_ports(kept_view),
                devices_view(kept@).len() == kept_view.len() + added_ports(wanted.take(j as int), kept_ports).len(),
                devices_view(kept@).take(kept_view.len() as int) == kept_view,
                device_ports(devices_view(kept@)) == kept_ports + added_ports(wanted.take(j as int), kept_ports),
                forall|q: int|
                    0 <= q < added_ports(wanted.take(j as int), kept_ports).len() ==> (#[trigger] devices_view(kept@)[kept_view.len() + q]).0
                        == added_ports(wanted.take(j as int), kept_ports)[q] && fresh_device(
                        self@.mappings,
                        added_ports(wanted.take(j as int), kept_ports)[q],
                        devices_view(kept@)[kept_view.len() + q].1,
                    ),
            decreases ports.len() - j,
        {
            let ghost added = added_ports(wanted.take(j as int), kept_ports);
            let ghost port = wanted[j as int];
            assert(port == ports@[j as int]@);
            assert(wanted.take(j + 1).drop_last() =~= wanted.take(j as int));
            assert(wanted.take(j + 1).last() == port);
            proof {
                lemma_find_device_contains(devices_view(kept@), port);
                lemma_contains_add(kept_ports, added, port);
            }
            if port_index(&kept, ports[j].as_str()).is_none() {
                let device = self.fresh(ports[j].as_str());
                let ghost devices_before = devices_view(kept@);
                kept.push((ports[j].clone(), device));
                assert(devices_view(kept@) =~= devices_before.push((port, device@)));
                assert(device_ports(devices_before.push((port, device@))) =~= device_ports(devices_before).push(port));
                assert(devices_view(kept@).take(kept_view.len() as int) =~= kept_view);
                assert(device_ports(devices_view(kept@)) =~= kept_ports + added.push(port));
                assert forall|q: int|
                    0 <= q < added.push(port).len() implies (#[trigger] devices_view(kept@)[kept_view.len() + q]).0
                        == added.push(port)[q] && fresh_device(
                        self@.mappings,
                        added.push(port)[q],
                        devices_view(kept@)[kept_view.len() + q].1,
                    ) by {
                    if q < added.len() {
                        assert(devices_view(kept@)[kept_view.len() + q] == devices_before[kept_view.len() + q]);
                    }
                }
            }
            j += 1;
        }
        assert(wanted.take(j as int) =~= wanted);
        let ghost result = devices_view(kept@);
        assert forall|i: int| 0 <= i < result.len() implies ((#[trigger] result[i]).1.mapping matches Some(
            m,
        ) ==> 0 <= m < self@.mappings.len()) by {
            if i < kept_view.len() {
                assert(result.take(kept_view.len() as int)[i] == result[i]);
                assert(kept_view.contains(kept_view[i]));
                before.lemma_filter_contains_rev(pred, kept_view[i]);
                let j = choose|j: int| 0 <= j < before.len() && before[j] == kept_view[i];
                assert(old(self)@.devices[j] == before[j]);
            } else {
                let q = i - kept_view.len();
                let added = added_ports(wanted, kept_ports);
                assert(result[kept_view.len() + q] == result[i]);
                lemma_claiming(self@.mappings, added[q], 0);
            }
        }
        self.devices = kept;
    }

    /// A half left over from before a reconnect would join with the first message
    /// after it, so every device forgets its halves; nothing else changes.
    pub fn clear_control_memory(&mut self)
        ensures
            mappings_in_range(final(self)@),
            final(self)@.mappings == old(self)@.mappings,
            final(self)@.devices.len() == old(self)@.devices.len(),
            forall|i: int|
                0 <= i < final(self)@.devices.len() ==> (#[trigger] final(self)@.devices[i]) == (
                old(self)@.devices[i].0,
                DeviceView { memory: Map::empty(), ..old(self)@.devices[i].1 },
            ),
    {
        proof {
            use_type_invariant(&*self);
        }
        let ghost before = self@.devices;
        let mut devices: Vec<(String, Device)> = Vec::new();
        std::mem::swap(&mut devices, &mut self.devices);
        let mut i: usize = 0;
        while i < devices.len()
            invariant
                i <= devices.len(),
                devices_view(devices@).len() == before.len(),
                forall|q: int|
                    0 <= q < i ==> (#[trigger] devices_view(devices@)[q]) == (
                    before[q].0,
                    DeviceView { memory: Map::empty(), ..before[q].1 },
                ),
                forall|q: int| i <= q < before.len() ==> (#[trigger] devices_view(devices@)[q]) == before[q],
            decreases devices.len() - i,
        {
            let ghost devices_before = devices@;
            let ghost entry_before = devices_view(devices_before)[i as int];
            let (port, mut device) = devices.remove(i);
            assert(entry_before == (port@, device@));
            device.memory.clear();
            assert(device@ =~= DeviceView { memory: Map::empty(), ..entry_before.1 });
            devices.insert(i, (port, device));
            proof {
                lemma_devices_view_update(devices_before, i as int, devices@[i as int]);
                assert(devices@ =~= devices_before.update(i as int, devices@[i as int]));
            }
            i += 1;
        }
        assert forall|q: int| 0 <= q < devices_view(devices@).len() implies ((#[trigger] devices_view(devices@)[q]).1.mapping
            matches Some(m) ==> 0 <= m < self@.mappings.len()) by {
            assert(before[q] == old(self)@.devices[q]);
        }
        self.devices = devices;
    }
}

/// A light on the device, if its profile lights `kind` on `deck` with a note: the
/// note on, full velocity for on and zero for off. A light on a control change
/// is not written.
pub open spec fn led_write(entry: (Seq<char>, DeviceView), kind: Feedback, deck: Seq<char>, active: bool) -> Option<
    (Seq<char>, Seq<u8>),
> {
    match entry.1.profile {
        Some(profile) => if profile.leds().contains_key((kind, deck)) {
            match profile.leds()[(kind, deck)] {
                Key::Note { channel, note } => Some(
                    (
                        entry.0,
                        seq![NOTE_ON | channel, note, if active {
                            127u8
                        } else {
                            0u8
                        }],
                    ),
                ),
                Key::ControlChange { .. } => None,
            }
        } else {
            None
        },
        None => None,
    }
}

/// Every device's light for `kind` on `deck`, in device order.
pub open spec fn led_writes(devices: Seq<(Seq<char>, DeviceView)>, kind: Feedback, deck: Seq<char>, active: bool) -> Seq<
    (Seq<char>, Seq<u8>),
>
    decreases devices.len(),
{
    if devices.len() == 0 {
        Seq::empty()
    } else {
        let rest = led_writes(devices.drop_last(), kind, deck, active);
        match led_write(devices.last(), kind, deck, active) {
            Some(write) => rest.push(write),
            None => rest,
        }
    }
}

/// A light bound to a note is written as a note on to that same note on that same
/// channel, to the device's own port, at full velocity when lit and zero when
/// dark, so the write reads back as the key the profile bound the light to. A
/// device with no such light is sent nothing.
pub proof fn law_a_light_is_written_as_the_note_it_is_bound_to(
    entry: (Seq<char>, DeviceView),
    kind: Feedback,
    deck: Seq<char>,
    active: bool,
)
    ensures
        led_write(entry, kind, deck, active) is Some <==> (entry.1.profile matches Some(profile)
            && profile.leds().contains_key((kind, deck)) && profile.leds()[(kind, deck)] is Note),
        led_write(entry, kind, deck, active) matches Some(write) ==> {
            let key = entry.1.profile->Some_0.leds()[(kind, deck)];
            &&& write.0 == entry.0
            &&& key matches Key::Note { channel, note } && (channel < 16 ==> spec_parse_note_on(write.1) == Some(
                NoteOn {
                    channel,
                    note,
                    velocity: if active {
                        127u8
                    } else {
                        0u8
                    },
                },
            ))
        },
{
    if let Some(write) = led_write(entry, kind, deck, active) {
        let key = entry.1.profile->Some_0.leds()[(kind, deck)];
        if let Key::Note { channel, note } = key {
            if channel < 16 {
                let status = (NOTE_ON | channel) as u8;
                assert(status & 0xF0u8 == NOTE_ON && status & 0x0Fu8 == channel) by (bit_vector)
                    requires
                        channel < 16,
                        status == 0x90u8 | channel,
                ;
                assert(127u8 & 0x7Fu8 == 127u8 && 0u8 & 0x7Fu8 == 0u8) by (bit_vector);
            }
        }
    }
}

/// Every light written is one device's own light: the writes come from the
/// devices in order, one for each device that has the light on a note.
pub proof fn law_every_light_written_is_a_devices_own(
    devices: Seq<(Seq<char>, DeviceView)>,
    kind: Feedback,
    deck: Seq<char>,
    active: bool,
)
    ensures
        led_writes(devices, kind, deck, active).len() <= devices.len(),
        forall|i: int|
            0 <= i < led_writes(devices, kind, deck, active).len() ==> exists|j: int|
                0 <= j < devices.len() && led_write(devices[j], kind, deck, active) == Some(
                    #[trigger] led_writes(devices, kind, deck, active)[i],
                ),
    decreases devices.len(),
{
    if devices.len() > 0 {
        let shorter = devices.drop_last();
        law_every_light_written_is_a_devices_own(shorter, kind, deck, active);
        let rest = led_writes(shorter, kind, deck, active);
        let all = led_writes(devices, kind, deck, active);
        assert forall|i: int| 0 <= i < all.len() implies exists|j: int|
            0 <= j < devices.len() && led_write(devices[j], kind, deck, active) == Some(#[trigger] all[i]) by {
            if i < rest.len() {
                assert(all[i] == rest[i]);
                let j = choose|j: int| 0 <= j < shorter.len() && led_write(shorter[j], kind, deck, active) == Some(rest[i]);
                assert(devices[j] == shorter[j]);
            } else {
                assert(devices[devices.len() - 1] == devices.last());
            }
        }
    }
}

pub open spec fn writes_view(writes: Seq<(String, Vec<u8>)>) -> Seq<(Seq<char>, Seq<u8>)> {
    writes.map_values(|write: (String, Vec<u8>)| (write.0@, write.1@))
}

/// What one device reports for the panel: its port, the name of the mapping that
/// claims it, whether the user picks its deck, and the deck picked.
pub struct MidiDevice {
    pub port: String,
    pub mapping: Option<String>,
    pub assignable: bool,
    pub deck: Option<String>,
}

pub struct MidiDeviceView {
    pub port: Seq<char>,
    pub mapping: Option<Seq<char>>,
    pub assignable: bool,
    pub deck: Option<Seq<char>>,
}

impl View for MidiDevice {
    type V = MidiDeviceView;

    open spec fn view(&self) -> MidiDeviceView {
        MidiDeviceView {
            port: self.port@,
            mapping: opt_view(self.mapping),
            assignable: self.assignable,
            deck: opt_view(self.deck),
        }
    }
}

pub open spec fn listed(mappings: Seq<Mapping>, entry: (Seq<char>, DeviceView)) -> MidiDeviceView {
    MidiDeviceView {
        port: entry.0,
        mapping: match entry.1.mapping {
            Some(i) => Some(mappings[i].name@),
            None => None,
        },
        assignable: match entry.1.mapping {
            Some(i) => mappings[i].decks == DeckScope::Assigned,
            None => false,
        },
        deck: entry.1.deck,
    }
}

/// Ports in text order.
pub open spec fn port_first() -> spec_fn(Seq<char>, Seq<char>) -> bool {
    |a: Seq<char>, b: Seq<char>| text_order(a, b) <= 0
}

/// Why a device cannot be given a deck.
#[derive(Debug, PartialEq, Eq)]
pub enum DeckError {
    /// No device is connected on the port.
    NoDevice,
    /// No mapping claims the port, so nothing can be built for a deck.
    NoMapping,
    /// The mapping does not build a profile for the deck.
    Mapping(MappingError),
}

impl MidiState {
    /// The move a message from `port` makes. A port with no device, or whose device
    /// has no profile yet, moves nothing and changes nothing.
    pub fn resolve(&mut self, port: &str, data: &[u8]) -> (moved: Option<Move>)
        ensures
            mappings_in_range(final(self)@),
            final(self)@.mappings == old(self)@.mappings,
            match find_device(old(self)@.devices, port@, 0) {
                Some(i) => match old(self)@.devices[i].1.profile {
                    Some(profile) => {
                        let (expected, memory) = decode(
                            profile.bindings(),
                            profile.table(),
                            old(self)@.devices[i].1.memory,
                            data@,
                        );
                        &&& moved == expected
                        &&& final(self)@.devices == old(self)@.devices.update(
                            i,
                            (old(self)@.devices[i].0, DeviceView { memory, ..old(self)@.devices[i].1 }),
                        )
                    },
                    None => moved is None && final(self)@.devices == old(self)@.devices,
                },
                None => moved is None && final(self)@.devices == old(self)@.devices,
            },
    {
        proof {
            use_type_invariant(&*self);
        }
        let i = match self.device_index(port) {
            Some(i) => i,
            None => {
                return None;
            },
        };
        proof {
            lemma_find_device(self@.devices, port@, 0);
        }
        if self.devices[i].1.profile.is_none() {
            assert(self@.devices[i as int].1 == self.devices@[i as int].1@);
            return None;
        }
        let mut devices: Vec<(String, Device)> = Vec::new();
        std::mem::swap(&mut devices, &mut self.devices);
        let ghost devices_before = devices@;
        let ghost entry_before = devices_view(devices_before)[i as int];
        let (held, mut device) = devices.remove(i);
        assert(entry_before == (held@, device@));
        let moved = match &device.profile {
            Some(profile) => resolve_move(profile, &mut device.memory, data),
            None => None,
        };
        assert(device@ =~= DeviceView { memory: device.memory@, ..entry_before.1 });
        devices.insert(i, (held, device));
        proof {
            lemma_devices_view_update(devices_before, i as int, devices@[i as int]);
            assert(devices@ =~= devices_before.update(i as int, devices@[i as int]));
            assert forall|q: int| 0 <= q < devices_view(devices@).len() implies ((#[trigger] devices_view(
                devices@,
            )[q]).1.mapping matches Some(m) ==> 0 <= m < self@.mappings.len()) by {
                assert(devices_view(devices_before)[q] == old(self)@.devices[q]);
            }
        }
        self.devices = devices;
        moved
    }

    /// Every device as the panel lists it, by port.
    pub fn device_list(&self) -> (list: Vec<MidiDevice>)
        ensures
            list@.len() == self@.devices.len(),
            forall|k: int|
                0 <= k < list@.len() ==> (#[trigger] list@[k])@ == listed(
                    self@.mappings,
                    self@.devices[stable_order(device_ports(self@.devices), port_first(), self@.devices.len())[k]],
                ),
    {
        proof {
            use_type_invariant(self);
        }
        let ghost devices = self@.devices;
        let ghost ports = device_ports(devices);
        let n = self.devices.len();
        let mut order: Vec<usize> = Vec::new();
        let mut m: usize = 0;
        while m < n
            invariant
                m <= n,
                n == self.devices.len(),
                devices == devices_view(self.devices@),
                ports == device_ports(devices),
                order@.len() == m,
                order@.map_values(|k: usize| k as int) == stable_order(ports, port_first(), m as nat),
                forall|k: int| 0 <= k < m ==> #[trigger] order@[k] < m,
            decreases n - m,
        {
            let ghost before = order@.map_values(|k: usize| k as int);
            let mut j: usize = order.len();
            while j > 0 && compare_text(self.devices[order[j - 1]].0.as_str(), self.devices[m].0.as_str()) > 0
                invariant
                    j <= order@.len(),
                    m < n,
                    n == self.devices.len(),
                    devices == devices_view(self.devices@),
                    ports == device_ports(devices),
                    before == order@.map_values(|k: usize| k as int),
                    forall|k: int| 0 <= k < order@.len() ==> #[trigger] order@[k] < m,
                    forall|p: int| j <= p < before.len() ==> !(port_first())(ports[#[trigger] before[p]], ports[m as int]),
                decreases j,
            {
                assert(before[j - 1] == order@[j - 1] as int);
                assert(ports[order@[j - 1] as int] == self.devices@[order@[j - 1] as int].0@);
                assert(ports[m as int] == self.devices@[m as int].0@);
                j -= 1;
            }
            proof {
                if j > 0 {
                    assert(before[j - 1] == order@[j - 1] as int);
                    assert(ports[order@[j - 1] as int] == self.devices@[order@[j - 1] as int].0@);
                    assert(ports[m as int] == self.devices@[m as int].0@);
                }
                lemma_insert_at(before, ports, port_first(), m as int, j as int);
            }
            order.insert(j, m);
            assert(order@.map_values(|k: usize| k as int) =~= before.take(j as int).push(m as int) + before.skip(j as int));
            m += 1;
        }
        let mut list: Vec<MidiDevice> = Vec::new();
        let mut k: usize = 0;
        while k < n
            invariant
                k <= n,
                n == self.devices.len(),
                order@.len() == n,
                devices == devices_view(self.devices@),
                ports == device_ports(devices),
                mappings_in_range(self@),
                forall|q: int|
                    0 <= q < n ==> order@[q] as int == #[trigger] stable_order(ports, port_first(), n as nat)[q],
                list@.len() == k,
                forall|q: int|
                    0 <= q < k ==> (#[trigger] list@[q])@ == listed(
                        self@.mappings,
                        devices[stable_order(ports, port_first(), n as nat)[q]],
                    ),
            decreases n - k,
        {
            let at = order[k];
            proof {
                lemma_stable_order_in_range(ports, port_first(), n as nat, k as int);
            }
            let entry = &self.devices[at];
            assert(devices[at as int] == (entry.0@, entry.1@));
            let (mapping, assignable) = match entry.1.mapping {
                Some(index) => {
                    assert(devices[at as int].1.mapping == Some(index as int));
                    (Some(self.mappings[index].name.clone()), self.mappings[index].needs_deck())
                },
                None => (None, false),
            };
            let deck = match &entry.1.deck {
                Some(deck) => Some(deck.clone()),
                None => None,
            };
            let listing = MidiDevice { port: entry.0.clone(), mapping, assignable, deck };
            assert(listing@ =~= listed(self@.mappings, devices[at as int]));
            list.push(listing);
            k += 1;
        }
        list
    }

    /// A device whose mapping names no decks of its own plays one deck, and this is
    /// the only thing that says which. Giving it one (or none) forgets its halves
    /// and rebuilds its profile for that deck; a mapping that does not build for the
    /// deck leaves the profile it had.
    pub fn set_device_deck(&mut self, port: &str, deck: Option<String>) -> (result: Result<(), DeckError>)
        ensures
            mappings_in_range(final(self)@),
            final(self)@.mappings == old(self)@.mappings,
            match find_device(old(self)@.devices, port@, 0) {
                None => result == Err::<(), DeckError>(DeckError::NoDevice) && final(self)@.devices == old(self)@.devices,
                Some(i) => {
                    let device = old(self)@.devices[i].1;
                    match device.mapping {
                        None => result == Err::<(), DeckError>(DeckError::NoMapping) && final(self)@.devices
                            == old(self)@.devices,
                        Some(m) => {
                            let mapping = old(self)@.mappings[m];
                            &&& final(self)@.devices.len() == old(self)@.devices.len()
                            &&& forall|j: int|
                                0 <= j < old(self)@.devices.len() && j != i ==> #[trigger] final(self)@.devices[j]
                                    == old(self)@.devices[j]
                            &&& final(self)@.devices[i].0 == old(self)@.devices[i].0
                            &&& final(self)@.devices[i].1.mapping == device.mapping
                            &&& final(self)@.devices[i].1.deck == opt_view(deck)
                            &&& final(self)@.devices[i].1.memory == Map::<usize, (u8, u8)>::empty()
                            &&& match (deck, result) {
                                (None, Ok(())) => final(self)@.devices[i].1.profile is None,
                                (Some(d), Ok(())) => final(self)@.devices[i].1.profile matches Some(p)
                                    && built_profile(mapping, Some(d@), p),
                                (Some(d), Err(DeckError::Mapping(_))) => final(self)@.devices[i].1.profile
                                    == device.profile && profile_refused(mapping, Some(d@)),
                                _ => false,
                            }
                        },
                    }
                },
            },
    {
        proof {
            use_type_invariant(&*self);
        }
        let i = match self.device_index(port) {
            Some(i) => i,
            None => {
                return Err(DeckError::NoDevice);
            },
        };
        proof {
            lemma_find_device(self@.devices, port@, 0);
        }
        assert(self@.devices[i as int].1 == self.devices@[i as int].1@);
        let index = match self.devices[i].1.mapping {
            Some(index) => index,
            None => {
                return Err(DeckError::NoMapping);
            },
        };
        assert(self@.devices[i as int].1.mapping == Some(index as int));
        let built = match &deck {
            Some(deck) => match self.mappings[index].profile(Some(deck.as_str())) {
                Ok(profile) => Ok(Some(profile)),
                Err(error) => Err(error),
            },
            None => Ok(None),
        };
        let mut devices: Vec<(String, Device)> = Vec::new();
        std::mem::swap(&mut devices, &mut self.devices);
        let ghost devices_before = devices@;
        let ghost entry_before = devices_view(devices_before)[i as int];
        let (held, mut device) = devices.remove(i);
        assert(entry_before == (held@, device@));
        device.deck = deck;
        device.memory.clear();
        let result = match built {
            Ok(profile) => {
                device.profile = profile;
                Ok(())
            },
            Err(error) => Err(DeckError::Mapping(error)),
        };
        devices.insert(i, (held, device));
        proof {
            lemma_devices_view_update(devices_before, i as int, devices@[i as int]);
            assert(devices@ =~= devices_before.update(i as int, devices@[i as int]));
            assert forall|j: int|
                0 <= j < devices_view(devices@).len() implies ((#[trigger] devices_view(devices@)[j]).1.mapping
                matches Some(m) ==> 0 <= m < self@.mappings.len()) by {
                if j != i {
                    assert(devices_view(devices@)[j] == devices_view(devices_before)[j]);
                    assert(devices_view(devices_before)[j] == old(self)@.devices[j]);
                }
            }
        }
        self.devices = devices;
        result
    }
}

/// The messages that set `kind` on `deck` lit or dark on every device that has
/// the light, each with the port to send it to. Driven by every change whatever
/// caused it, so a mouse toggle lights the button too.
pub fn send_led(state: &MidiState, kind: Feedback, deck: &str, active: bool) -> (writes: Vec<(String, Vec<u8>)>)
    ensures
        writes_view(writes@) == led_writes(state@.devices, kind, deck@, active),
{
    let ghost devices = state@.devices;
    let mut writes: Vec<(String, Vec<u8>)> = Vec::new();
    let mut i: usize = 0;
    assert(devices.take(0) =~= Seq::<(Seq<char>, DeviceView)>::empty());
    while i < state.devices.len()
        invariant
            i <= state.devices.len(),
            devices == devices_view(state.devices@),
            writes_view(writes@) == led_writes(devices.take(i as int), kind, deck@, active),
        decreases state.devices.len() - i,
    {
        let entry = &state.devices[i];
        assert(devices[i as int] == (entry.0@, entry.1@));
        assert(devices.take(i + 1).drop_last() =~= devices.take(i as int));
        assert(devices.take(i + 1).last() == devices[i as int]);
        let ghost prev = writes_view(writes@);
        if let Some(profile) = &entry.1.profile {
            if let Some(Key::Note { channel, note }) = profile.led_key(kind, deck) {
                let velocity: u8 = if active {
                    127
                } else {
                    0
                };
                let message = vec![NOTE_ON | channel, note, velocity];
                writes.push((entry.0.clone(), message));
                assert(writes_view(writes@) =~= prev.push((entry.0@, message@)));
            }
        }
        i += 1;
    }
    assert(devices.take(i as int) =~= devices);
    writes
}


proof fn lemma_port_first_total_preorder()
    ensures
        total_preorder(port_first()),
{
    assert forall|a: Seq<char>, b: Seq<char>| #[trigger] (port_first())(a, b) || (port_first())(b, a) by {
        lemma_text_order_swap(a, b);
    }
    assert forall|a: Seq<char>, b: Seq<char>, c: Seq<char>|
        #[trigger] (port_first())(a, b) && #[trigger] (port_first())(b, c) implies (port_first())(a, c) by {
        lemma_text_order_chain(a, b, c);
    }
}

/// The panel lists devices by port name, each device once.
pub proof fn law_devices_are_listed_by_port(devices: Seq<(Seq<char>, DeviceView)>)
    ensures
        ordered_by(stable_order(device_ports(devices), port_first(), devices.len()), device_ports(devices), port_first()),
        stable_order(device_ports(devices), port_first(), devices.len()).len() == devices.len(),
        forall|i: int|
            #[trigger] stable_order(device_ports(devices), port_first(), devices.len()).contains(i) <==> 0 <= i
                < devices.len(),
{
    lemma_port_first_total_preorder();
    law_a_stable_order_is_sorted(device_ports(devices), port_first(), devices.len());
    lemma_stable_order_contents(device_ports(devices), port_first(), devices.len());
}

/// The order lights are resynced in: cue before quantize, then by deck.
pub open spec fn light_order(a: (Feedback, Seq<char>), b: (Feedback, Seq<char>)) -> int {
    let (ra, rb) = (
        if a.0 == Feedback::Cue {
            0int
        } else {
            1int
        },
        if b.0 == Feedback::Cue {
            0int
        } else {
            1int
        },
    );
    if ra != rb {
        ra - rb
    } else {
        text_order(a.1, b.1) as int
    }
}

proof fn lemma_light_order(a: (Feedback, Seq<char>), b: (Feedback, Seq<char>), c: (Feedback, Seq<char>))
    ensures
        (light_order(a, b) == 0) == (a == b),
        light_order(a, b) == -light_order(b, a),
        light_order(a, b) < 0 && light_order(b, c) < 0 ==> light_order(a, c) < 0,
{
    lemma_text_order_equal(a.1, b.1);
    lemma_text_order_swap(a.1, b.1);
    if light_order(a, b) < 0 && light_order(b, c) < 0 && a.0 == b.0 && b.0 == c.0 {
        lemma_text_order_chain(a.1, b.1, c.1);
    }
}

/// Each light once, in resync order.
pub open spec fn in_light_order(lights: Seq<(Feedback, Seq<char>)>) -> bool {
    forall|i: int, j: int| 0 <= i < j < lights.len() ==> light_order(#[trigger] lights[i], #[trigger] lights[j]) < 0
}

pub open spec fn lights_view(lights: Seq<(Feedback, String)>) -> Seq<(Feedback, Seq<char>)> {
    lights.map_values(|light: (Feedback, String)| (light.0, light.1@))
}

fn compare_light(a: &(Feedback, String), b: &(Feedback, String)) -> (order: i8)
    ensures
        order as int == light_order((a.0, a.1@), (b.0, b.1@)),
{
    match (a.0, b.0) {
        (Feedback::Cue, Feedback::Quantize) => -1,
        (Feedback::Quantize, Feedback::Cue) => 1,
        _ => compare_text(a.1.as_str(), b.1.as_str()),
    }
}

/// Adds a light to a resync-ordered list unless it is there already.
fn insert_light(lights: &mut Vec<(Feedback, String)>, light: (Feedback, String))
    ensures
        forall|x: (Feedback, Seq<char>)|
            #[trigger] lights_view(final(lights)@).contains(x) <==> (lights_view(old(lights)@).contains(x) || x == (
            light.0,
            light.1@,
        )),
        in_light_order(lights_view(old(lights)@)) ==> in_light_order(lights_view(final(lights)@)),
{
    let ghost before = lights_view(lights@);
    let ghost a = (light.0, light.1@);
    let mut j: usize = 0;
    while j < lights.len() && compare_light(&lights[j], &light) < 0
        invariant
            j <= lights.len(),
            before == lights_view(lights@),
            a == (light.0, light.1@),
            forall|p: int| 0 <= p < j ==> light_order(#[trigger] before[p], a) < 0,
        decreases lights.len() - j,
    {
        assert(before[j as int] == (lights@[j as int].0, lights@[j as int].1@));
        j += 1;
    }
    if j < lights.len() {
        assert(before[j as int] == (lights@[j as int].0, lights@[j as int].1@));
        if compare_light(&lights[j], &light) == 0 {
            proof {
                lemma_light_order(before[j as int], a, a);
            }
            assert(before.contains(a));
            return;
        }
    }
    lights.insert(j, light);
    let ghost after = lights_view(lights@);
    assert(after =~= before.insert(j as int, a));
    assert forall|x: (Feedback, Seq<char>)| #[trigger] after.contains(x) <==> (before.contains(x) || x == a) by {
        if after.contains(x) {
            let k = choose|k: int| 0 <= k < after.len() && after[k] == x;
            if k < j {
                assert(before[k] == x);
            } else if k > j {
                assert(before[k - 1] == x);
            }
        }
        if before.contains(x) {
            let k = choose|k: int| 0 <= k < before.len() && before[k] == x;
            if k < j {
                assert(after[k] == x);
            } else {
                assert(after[k + 1] == x);
            }
        }
        if x == a {
            assert(after[j as int] == x);
        }
    }
    proof {
        if in_light_order(before) {
            assert forall|p: int, q: int| 0 <= p < q < after.len() implies light_order(
                #[trigger] after[p],
                #[trigger] after[q],
            ) < 0 by {
                if j < before.len() {
                    lemma_light_order(before[j as int], a, a);
                }
                if q == j {
                    assert(after[p] == before[p]);
                } else if p == j {
                    assert(after[q] == before[q - 1]);
                    if q - 1 > j {
                        assert(light_order(before[j as int], before[q - 1]) < 0);
                        lemma_light_order(a, before[j as int], before[q - 1]);
                    }
                } else if p < j && q > j {
                    assert(after[q] == before[q - 1]);
                    assert(after[p] == before[p]);
                } else if p < j {
                    assert(after[p] == before[p]);
                    assert(after[q] == before[q]);
                } else {
                    assert(after[p] == before[p - 1]);
                    assert(after[q] == before[q - 1]);
                }
            }
        }
    }
}

/// The device's profile writes this light.
pub open spec fn shows(device: DeviceView, light: (Feedback, Seq<char>)) -> bool {
    device.profile matches Some(p) && p.leds().contains_key(light)
}

/// Some device's profile writes this light.
pub open spec fn lit_somewhere(devices: Seq<(Seq<char>, DeviceView)>, light: (Feedback, Seq<char>)) -> bool {
    exists|i: int| 0 <= i < devices.len() && shows((#[trigger] devices[i]).1, light)
}

impl MidiState {
    /// Every light some device can show, each once, cue before quantize and then
    /// by deck. Nothing else pushes state when a port opens, so the app writes each
    /// of these as it stands, or a button the app already has on stays dark until
    /// the next toggle.
    pub fn lights(&self) -> (lights: Vec<(Feedback, String)>)
        ensures
            in_light_order(lights_view(lights@)),
            forall|light: (Feedback, Seq<char>)|
                #[trigger] lights_view(lights@).contains(light) <==> lit_somewhere(self@.devices, light),
    {
        let ghost devices = self@.devices;
        let mut lights: Vec<(Feedback, String)> = Vec::new();
        let mut i: usize = 0;
        while i < self.devices.len()
            invariant
                i <= self.devices.len(),
                devices == devices_view(self.devices@),
                in_light_order(lights_view(lights@)),
                forall|light: (Feedback, Seq<char>)|
                    #[trigger] lights_view(lights@).contains(light) <==> lit_somewhere(devices.take(i as int), light),
            decreases self.devices.len() - i,
        {
            assert(devices[i as int].1 == self.devices@[i as int].1@);
            let ghost before = lights_view(lights@);
            match &self.devices[i].1.profile {
                Some(profile) => {
                    let shown = profile.lights();
                    let mut k: usize = 0;
                    while k < shown.len()
                        invariant
                            k <= shown.len(),
                            in_light_order(lights_view(lights@)),
                            forall|light: (Feedback, Seq<char>)|
                                #[trigger] lights_view(lights@).contains(light) <==> (before.contains(light) || exists|m: int|
                                    0 <= m < k && (shown@[m].0, shown@[m].1@) == light),
                        decreases shown.len() - k,
                    {
                        insert_light(&mut lights, (shown[k].0, shown[k].1.clone()));
                        assert forall|light: (Feedback, Seq<char>)|
                            #[trigger] lights_view(lights@).contains(light) <==> (before.contains(light) || exists|m: int|
                                0 <= m < k + 1 && (shown@[m].0, shown@[m].1@) == light) by {
                            if light == (shown@[k as int].0, shown@[k as int].1@) {
                                assert((shown@[k as int].0, shown@[k as int].1@) == light);
                            }
                        }
                        k += 1;
                    }
                    assert forall|light: (Feedback, Seq<char>)|
                        #[trigger] lights_view(lights@).contains(light) <==> lit_somewhere(devices.take(i + 1), light) by {
                        let next = devices.take(i + 1);
                        if lit_somewhere(devices.take(i as int), light) {
                            let m = choose|m: int| 0 <= m < i && shows((#[trigger] devices.take(i as int)[m]).1, light);
                            assert(next[m] == devices.take(i as int)[m]);
                        }
                        if lit_somewhere(next, light) {
                            let m = choose|m: int| 0 <= m < next.len() && shows((#[trigger] next[m]).1, light);
                            if m < i {
                                assert(devices.take(i as int)[m] == next[m]);
                            }
                        }
                        if profile.leds().contains_key(light) {
                            assert(next[i as int] == devices[i as int]);
                        }
                    }
                },
                None => {
                    assert forall|light: (Feedback, Seq<char>)|
                        #[trigger] lights_view(lights@).contains(light) <==> lit_somewhere(devices.take(i + 1), light) by {
                        let next = devices.take(i + 1);
                        if lit_somewhere(devices.take(i as int), light) {
                            let m = choose|m: int| 0 <= m < i && shows((#[trigger] devices.take(i as int)[m]).1, light);
                            assert(next[m] == devices.take(i as int)[m]);
                        }
                        if lit_somewhere(next, light) {
                            let m = choose|m: int| 0 <= m < next.len() && shows((#[trigger] next[m]).1, light);
                            if m < i {
                                assert(devices.take(i as int)[m] == next[m]);
                            } else {
                                assert(next[m] == devices[i as int]);
                            }
                        }
                    }
                },
            }
            i += 1;
        }
        assert(devices.take(i as int) =~= devices);
        lights
    }
}

} // verus!
