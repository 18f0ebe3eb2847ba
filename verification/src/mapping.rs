//! Controller mappings: what a control is bound to, how a mapping file's
//! bindings are built, and the profile that dispatch resolves addresses through.

use vstd::prelude::*;
use crate::text::{contains_text, opt_view, same_text, text_contains};
use crate::wire::{source_keys, source_resolution, spec_relative_delta, Half, Key, KeysError, Resolution, Source};

verus! {

/// What a lit button reports. A binding is an input address; this says which of
/// them the app also writes back to, so a control with no entry stays dark.
#[derive(Clone, Copy, Debug, PartialEq, Eq, PartialOrd, Ord, Hash, Structural)]
pub enum Feedback {
    Cue,
    Quantize,
}

#[derive(Debug, PartialEq, Eq)]
pub enum Action {
    DeckParam { deck: String, slot: String, param: String },
    CueToggle { deck: String },
    PlayToggle { deck: String },
    TransportCue { deck: String },
    LoopIn { deck: String },
    LoopOut { deck: String },
    LoopExitOrReloop { deck: String },
    TempoFader { deck: String },
    Jog { deck: String },
    /// Held, not latched: the surface sends both edges and the deck it names is
    /// the one whose wheel it modifies.
    Shift { deck: String },
    QuantizeToggle { deck: String },
    Eject { deck: String },
    /// `steps` is how far one press moves the cursor, for a surface that browses
    /// with buttons. An encoder carries its own delta and leaves this unset.
    Browse { steps: Option<i32> },
    Load { deck: String },
    Enter,
    Back,
    ToggleView,
    /// Master scope, so it names no deck and takes its range from the master
    /// descriptor rather than a strip's.
    XfaderPosition,
}

#[derive(Debug, PartialEq, Eq)]
pub struct Binding {
    pub source: Source,
    pub action: Action,
}

/// Why a set of bindings cannot become a profile.
#[derive(Clone, Copy, Debug, PartialEq, Eq, Structural)]
pub enum ProfileError {
    /// A source has no set of addresses.
    Keys(KeysError),
    /// Two bindings arrive on one address.
    Collision(Key),
}

/// The address table a profile dispatches through: each address, the index of
/// the binding it reaches and which half of that binding it carries.
pub type KeyTable = Seq<(Key, usize, Half)>;

pub open spec fn table_has(table: KeyTable, key: Key) -> bool {
    exists|i: int| 0 <= i < table.len() && #[trigger] table[i].0 == key
}

/// Adds one binding's addresses in order, refusing the first one already taken.
pub open spec fn add_keys(table: KeyTable, keys: Seq<(Key, Half)>, index: usize) -> Result<
    KeyTable,
    ProfileError,
>
    decreases keys.len(),
{
    if keys.len() == 0 {
        Ok(table)
    } else {
        match add_keys(table, keys.drop_last(), index) {
            Err(e) => Err(e),
            Ok(t) => if table_has(t, keys.last().0) {
                Err(ProfileError::Collision(keys.last().0))
            } else {
                Ok(t.push((keys.last().0, index, keys.last().1)))
            },
        }
    }
}

/// The table of a whole binding list, built binding by binding: the first
/// binding with no addresses, or the first address taken twice, is the error.
pub open spec fn key_table(bindings: Seq<Binding>) -> Result<KeyTable, ProfileError>
    decreases bindings.len(),
{
    if bindings.len() == 0 {
        Ok(Seq::empty())
    } else {
        match key_table(bindings.drop_last()) {
            Err(e) => Err(e),
            Ok(table) => match source_keys(bindings.last().source) {
                Err(e) => Err(ProfileError::Keys(e)),
                Ok(keys) => add_keys(table, keys, (bindings.len() - 1) as usize),
            },
        }
    }
}

/// The light an action drives, if any, and on which deck.
pub open spec fn lit_by(action: Action) -> Option<(Feedback, Seq<char>)> {
    match action {
        Action::CueToggle { deck } => Some((Feedback::Cue, deck@)),
        Action::QuantizeToggle { deck } => Some((Feedback::Quantize, deck@)),
        _ => None,
    }
}

/// Which address each light is written to: the first address of the last
/// binding that drives it.
pub open spec fn led_map(bindings: Seq<Binding>) -> Map<(Feedback, Seq<char>), Key>
    decreases bindings.len(),
{
    if bindings.len() == 0 {
        Map::empty()
    } else {
        let before = led_map(bindings.drop_last());
        match (lit_by(bindings.last().action), source_keys(bindings.last().source)) {
            (Some(light), Ok(keys)) => if keys.len() > 0 {
                before.insert(light, keys[0].0)
            } else {
                before
            },
            _ => before,
        }
    }
}

pub struct Profile {
    bindings: Vec<Binding>,
    by_key: Vec<(Key, usize, Half)>,
    led_keys: Vec<(Feedback, String, Key)>,
}

pub open spec fn led_view(leds: Seq<(Feedback, String, Key)>) -> Map<(Feedback, Seq<char>), Key>
    decreases leds.len(),
{
    if leds.len() == 0 {
        Map::empty()
    } else {
        led_view(leds.drop_last()).insert((leds.last().0, leds.last().1@), leds.last().2)
    }
}

impl Profile {
    pub closed spec fn bindings(&self) -> Seq<Binding> {
        self.bindings@
    }

    pub closed spec fn table(&self) -> KeyTable {
        self.by_key@
    }

    pub closed spec fn leds(&self) -> Map<(Feedback, Seq<char>), Key> {
        led_view(self.led_keys@)
    }

    #[verifier::type_invariant]
    pub closed spec fn wf(&self) -> bool {
        &&& key_table(self.bindings@) == Ok::<KeyTable, ProfileError>(self.by_key@)
        &&& led_view(self.led_keys@) == led_map(self.bindings@)
    }
}

/// Whether a source arrives on `key`, as `half`.
pub open spec fn arrives_on(source: Source, key: Key, half: Half) -> bool {
    source_keys(source) matches Ok(keys) && keys.contains((key, half))
}

pub open spec fn arrives_on_any(source: Source, key: Key) -> bool {
    arrives_on(source, key, Half::Msb) || arrives_on(source, key, Half::Lsb)
}

/// The binding and half an address reaches in a table, read from its last entry
/// for that address (a built table holds each address once).
pub open spec fn table_find(table: KeyTable, key: Key) -> Option<(usize, Half)>
    decreases table.len(),
{
    if table.len() == 0 {
        None
    } else if table.last().0 == key {
        Some((table.last().1, table.last().2))
    } else {
        table_find(table.drop_last(), key)
    }
}

proof fn lemma_table_find(table: KeyTable, key: Key, j: int)
    requires
        table_distinct(table),
        0 <= j < table.len(),
        table[j].0 == key,
    ensures
        table_find(table, key) == Some((table[j].1, table[j].2)),
    decreases table.len(),
{
    if j < table.len() - 1 {
        let prefix = table.drop_last();
        assert(table.last().0 != key) by {
            assert(table[table.len() - 1].0 != table[j].0);
        }
        assert(table_distinct(prefix)) by {
            assert forall|a: int, b: int|
                0 <= a < prefix.len() && 0 <= b < prefix.len() && a != b implies #[trigger] prefix[a].0
                != #[trigger] prefix[b].0 by {
                assert(prefix[a] == table[a] && prefix[b] == table[b]);
            }
        }
        assert(prefix[j] == table[j]);
        lemma_table_find(prefix, key, j);
    }
}

proof fn lemma_table_find_none(table: KeyTable, key: Key)
    requires
        !table_has(table, key),
    ensures
        table_find(table, key) is None,
    decreases table.len(),
{
    if table.len() > 0 {
        let prefix = table.drop_last();
        assert(table[table.len() - 1].0 != key);
        assert(!table_has(prefix, key)) by {
            if table_has(prefix, key) {
                let i = choose|i: int| 0 <= i < prefix.len() && #[trigger] prefix[i].0 == key;
                assert(table[i] == prefix[i]);
            }
        }
        lemma_table_find_none(prefix, key);
    }
}

fn find_key(table: &Vec<(Key, usize, Half)>, key: Key) -> (found: Option<usize>)
    ensures
        match found {
            Some(j) => j < table.len() && table@[j as int].0 == key,
            None => !table_has(table@, key),
        },
{
    let mut j: usize = 0;
    while j < table.len()
        invariant
            j <= table.len(),
            forall|i: int| 0 <= i < j ==> table@[i].0 != key,
        decreases table.len() - j,
    {
        if table[j].0 == key {
            return Some(j);
        }
        j += 1;
    }
    None
}

pub proof fn lemma_key_table_prefix_err(bindings: Seq<Binding>, k: int)
    requires
        0 <= k <= bindings.len(),
        key_table(bindings.take(k)) is Err,
    ensures
        key_table(bindings) == key_table(bindings.take(k)),
    decreases bindings.len(),
{
    if k == bindings.len() {
        assert(bindings.take(k) =~= bindings);
    } else {
        assert(bindings.drop_last().take(k) =~= bindings.take(k));
        lemma_key_table_prefix_err(bindings.drop_last(), k);
    }
}

pub proof fn lemma_add_keys_prefix_err(table: KeyTable, keys: Seq<(Key, Half)>, k: int, index: usize)
    requires
        0 <= k <= keys.len(),
        add_keys(table, keys.take(k), index) is Err,
    ensures
        add_keys(table, keys, index) == add_keys(table, keys.take(k), index),
    decreases keys.len(),
{
    if k == keys.len() {
        assert(keys.take(k) =~= keys);
    } else {
        assert(keys.drop_last().take(k) =~= keys.take(k));
        lemma_add_keys_prefix_err(table, keys.drop_last(), k, index);
    }
}

pub open spec fn led_entry_key(entry: (Feedback, String, Key)) -> (Feedback, Seq<char>) {
    (entry.0, entry.1@)
}

proof fn lemma_led_last(leds: Seq<(Feedback, String, Key)>, m: int, light: (Feedback, Seq<char>))
    requires
        0 <= m < leds.len(),
        led_entry_key(leds[m]) == light,
        forall|i: int| m < i < leds.len() ==> led_entry_key(#[trigger] leds[i]) != light,
    ensures
        led_view(leds).contains_key(light),
        led_view(leds)[light] == leds[m].2,
    decreases leds.len(),
{
    if m < leds.len() - 1 {
        let prefix = leds.drop_last();
        assert forall|i: int| m < i < prefix.len() implies led_entry_key(#[trigger] prefix[i]) != light by {
            assert(prefix[i] == leds[i]);
        }
        lemma_led_last(prefix, m, light);
        assert(led_entry_key(leds[leds.len() - 1]) != light);
    }
}

proof fn lemma_led_contains(leds: Seq<(Feedback, String, Key)>, light: (Feedback, Seq<char>))
    ensures
        led_view(leds).contains_key(light) <==> exists|i: int|
            0 <= i < leds.len() && led_entry_key(#[trigger] leds[i]) == light,
    decreases leds.len(),
{
    if leds.len() > 0 {
        let prefix = leds.drop_last();
        lemma_led_contains(prefix, light);
        if led_view(prefix).contains_key(light) {
            let i = choose|i: int| 0 <= i < prefix.len() && led_entry_key(#[trigger] prefix[i]) == light;
            assert(leds[i] == prefix[i]);
        }
        if exists|i: int| 0 <= i < leds.len() && led_entry_key(#[trigger] leds[i]) == light {
            let i = choose|i: int| 0 <= i < leds.len() && led_entry_key(#[trigger] leds[i]) == light;
            if i < prefix.len() {
                assert(prefix[i] == leds[i]);
            }
        }
    }
}

proof fn lemma_led_none(leds: Seq<(Feedback, String, Key)>, light: (Feedback, Seq<char>))
    requires
        forall|i: int| 0 <= i < leds.len() ==> led_entry_key(#[trigger] leds[i]) != light,
    ensures
        !led_view(leds).contains_key(light),
    decreases leds.len(),
{
    if leds.len() > 0 {
        let prefix = leds.drop_last();
        assert forall|i: int| 0 <= i < prefix.len() implies led_entry_key(#[trigger] prefix[i]) != light by {
            assert(prefix[i] == leds[i]);
        }
        lemma_led_none(prefix, light);
        assert(led_entry_key(leds[leds.len() - 1]) != light);
    }
}

impl Profile {
    /// Refuses a colliding profile rather than letting the last binding win, because the
    /// symptom is the wrong deck's control moving, which reads as broken hardware.
    pub fn new(bindings: Vec<Binding>) -> (profile: Result<Profile, ProfileError>)
        ensures
            match profile {
                Ok(p) => {
                    &&& key_table(bindings@) == Ok::<KeyTable, ProfileError>(p.table())
                    &&& p.bindings() == bindings@
                    &&& p.leds() == led_map(bindings@)
                },
                Err(e) => key_table(bindings@) == Err::<KeyTable, ProfileError>(e),
            },
    {
        let mut by_key: Vec<(Key, usize, Half)> = Vec::new();
        let mut led_keys: Vec<(Feedback, String, Key)> = Vec::new();
        let n = bindings.len();
        let mut i: usize = 0;
        assert(bindings@.take(0) =~= Seq::<Binding>::empty());
        while i < n
            invariant
                n == bindings.len(),
                i <= n,
                key_table(bindings@.take(i as int)) == Ok::<KeyTable, ProfileError>(by_key@),
                led_view(led_keys@) == led_map(bindings@.take(i as int)),
            decreases n - i,
        {
            let ghost next = bindings@.take(i + 1);
            assert(next.drop_last() =~= bindings@.take(i as int));
            assert(next.last() == bindings@[i as int]);
            let keys = match bindings[i].source.keys() {
                Ok(keys) => keys,
                Err(e) => {
                    proof {
                        lemma_key_table_prefix_err(bindings@, i + 1);
                    }
                    return Err(ProfileError::Keys(e));
                },
            };
            assert(keys@.len() > 0);
            let ghost old_leds = led_keys@;
            match &bindings[i].action {
                Action::CueToggle { deck } => {
                    assert(lit_by(next.last().action) == Some((Feedback::Cue, deck@)));
                    led_keys.push((Feedback::Cue, deck.clone(), keys[0].0));
                    assert(led_keys@.drop_last() =~= old_leds);
                },
                Action::QuantizeToggle { deck } => {
                    assert(lit_by(next.last().action) == Some((Feedback::Quantize, deck@)));
                    led_keys.push((Feedback::Quantize, deck.clone(), keys[0].0));
                    assert(led_keys@.drop_last() =~= old_leds);
                },
                _ => {
                    assert(lit_by(next.last().action) is None);
                },
            }
            assert(led_view(led_keys@) == led_map(next));
            let ghost start = by_key@;
            let mut k: usize = 0;
            assert(keys@.take(0) =~= Seq::<(Key, Half)>::empty());
            while k < keys.len()
                invariant
                    i < n,
                    n == bindings.len(),
                    k <= keys.len(),
                    key_table(bindings@.take(i as int)) == Ok::<KeyTable, ProfileError>(start),
                    source_keys(bindings@[i as int].source) == Ok::<Seq<(Key, Half)>, KeysError>(keys@),
                    add_keys(start, keys@.take(k as int), i) == Ok::<KeyTable, ProfileError>(by_key@),
                    next == bindings@.take(i + 1),
                    next.drop_last() == bindings@.take(i as int),
                    next.last() == bindings@[i as int],
                decreases keys.len() - k,
            {
                let key = keys[k];
                let ghost upto = keys@.take(k + 1);
                assert(upto.drop_last() =~= keys@.take(k as int));
                assert(upto.last() == key);
                if find_key(&by_key, key.0).is_some() {
                    proof {
                        lemma_add_keys_prefix_err(start, keys@, k + 1, i);
                        assert(key_table(next) == add_keys(start, keys@, i));
                        lemma_key_table_prefix_err(bindings@, i + 1);
                    }
                    return Err(ProfileError::Collision(key.0));
                }
                by_key.push((key.0, i, key.1));
                k += 1;
            }
            assert(keys@.take(keys@.len() as int) =~= keys@);
            assert(key_table(next) == Ok::<KeyTable, ProfileError>(by_key@));
            i += 1;
        }
        assert(bindings@.take(n as int) =~= bindings@);
        Ok(Profile { bindings, by_key, led_keys })
    }

    /// The binding an address reaches, its index and the half it carries.
    pub fn resolve(&self, key: Key) -> (found: Option<(usize, &Binding, Half)>)
        ensures
            match found {
                Some((index, binding, half)) => {
                    &&& index < self.bindings().len()
                    &&& *binding == self.bindings()[index as int]
                    &&& arrives_on(binding.source, key, half)
                    &&& forall|b: int|
                        0 <= b < self.bindings().len() && b != index ==> !arrives_on_any(
                            #[trigger] self.bindings()[b].source,
                            key,
                        )
                },
                None => forall|b: int|
                    0 <= b < self.bindings().len() ==> !arrives_on_any(
                        #[trigger] self.bindings()[b].source,
                        key,
                    ),
            },
            match found {
                Some((index, binding, half)) => table_find(self.table(), key) == Some((index, half)),
                None => table_find(self.table(), key) is None,
            },
            forall|i: int| 0 <= i < self.table().len() ==> (#[trigger] self.table()[i]).1 < self.bindings().len(),
    {
        let count = self.bindings.len();
        proof {
            use_type_invariant(self);
            assert(self.bindings@.len() == count);
            lemma_key_table(self.bindings@);
        }
        let ghost bindings = self.bindings@;
        let ghost table = self.by_key@;
        match find_key(&self.by_key, key) {
            Some(j) => {
                let (_, index, half) = self.by_key[j];
                assert(table[j as int] == (key, index, half));
                proof {
                    lemma_table_find(table, key, j as int);
                }
                proof {
                    assert forall|b: int|
                        0 <= b < bindings.len() && b != index implies !arrives_on_any(
                            #[trigger] bindings[b].source,
                            key,
                        ) by {
                        if arrives_on_any(bindings[b].source, key) {
                            let h = if arrives_on(bindings[b].source, key, Half::Msb) {
                                Half::Msb
                            } else {
                                Half::Lsb
                            };
                            let keys = source_keys(bindings[b].source)->Ok_0;
                            let k = choose|k: int| 0 <= k < keys.len() && keys[k] == (key, h);
                            assert(binding_key(bindings, b, k) == (key, h));
                            assert(table_holds(table, binding_key(bindings, b, k), b));
                            let m = choose|m: int|
                                0 <= m < table.len() && table[m] == (key, b as usize, h);
                            assert(table[m].0 == table[j as int].0);
                            assert(m == j);
                            assert(false);
                        }
                    }
                }
                Some((index, &self.bindings[index], half))
            },
            None => {
                proof {
                    lemma_table_find_none(table, key);
                    assert forall|b: int| 0 <= b < bindings.len() implies !arrives_on_any(
                        #[trigger] bindings[b].source,
                        key,
                    ) by {
                        if arrives_on_any(bindings[b].source, key) {
                            let h = if arrives_on(bindings[b].source, key, Half::Msb) {
                                Half::Msb
                            } else {
                                Half::Lsb
                            };
                            let keys = source_keys(bindings[b].source)->Ok_0;
                            let k = choose|k: int| 0 <= k < keys.len() && keys[k] == (key, h);
                            assert(binding_key(bindings, b, k) == (key, h));
                            assert(table_holds(table, binding_key(bindings, b, k), b));
                            let m = choose|m: int|
                                0 <= m < table.len() && table[m] == (key, b as usize, h);
                            assert(table[m].0 == key);
                        }
                    }
                }
                None
            },
        }
    }

    /// Every light the profile writes, as the kind and the deck it reports.
    pub fn lights(&self) -> (lights: Vec<(Feedback, String)>)
        ensures
            forall|light: (Feedback, Seq<char>)|
                #[trigger] self.leds().contains_key(light) <==> exists|i: int|
                    0 <= i < lights@.len() && (lights@[i].0, lights@[i].1@) == light,
    {
        let mut lights: Vec<(Feedback, String)> = Vec::new();
        let mut i: usize = 0;
        while i < self.led_keys.len()
            invariant
                i <= self.led_keys.len(),
                lights@.len() == i,
                forall|j: int|
                    0 <= j < i ==> ((#[trigger] lights@[j]).0, lights@[j].1@) == led_entry_key(self.led_keys@[j]),
            decreases self.led_keys.len() - i,
        {
            let entry = &self.led_keys[i];
            lights.push((entry.0, entry.1.clone()));
            i += 1;
        }
        assert forall|light: (Feedback, Seq<char>)|
            #[trigger] self.leds().contains_key(light) <==> exists|i: int|
                0 <= i < lights@.len() && (lights@[i].0, lights@[i].1@) == light by {
            lemma_led_contains(self.led_keys@, light);
            if self.leds().contains_key(light) {
                let i = choose|i: int|
                    0 <= i < self.led_keys@.len() && led_entry_key(#[trigger] self.led_keys@[i]) == light;
                assert((lights@[i].0, lights@[i].1@) == light);
            }
            if exists|i: int| 0 <= i < lights@.len() && (lights@[i].0, lights@[i].1@) == light {
                let i = choose|i: int| 0 <= i < lights@.len() && (lights@[i].0, lights@[i].1@) == light;
                assert(led_entry_key(self.led_keys@[i]) == light);
            }
        }
        lights
    }

    /// The address a light is written to, for `kind` on `deck`.
    pub fn led_key(&self, kind: Feedback, deck: &str) -> (key: Option<Key>)
        ensures
            key == (if self.leds().contains_key((kind, deck@)) {
                Some(self.leds()[(kind, deck@)])
            } else {
                None::<Key>
            }),
    {
        let ghost light = (kind, deck@);
        let mut j = self.led_keys.len();
        while j > 0
            invariant
                light == (kind, deck@),
                j <= self.led_keys.len(),
                forall|i: int|
                    j <= i < self.led_keys@.len() ==> led_entry_key(#[trigger] self.led_keys@[i])
                        != light,
            decreases j,
        {
            let entry = &self.led_keys[j - 1];
            assert(*entry == self.led_keys@[j - 1]);
            let same_kind = entry.0 == kind;
            let same_deck = same_text(entry.1.as_str(), deck);
            assert(same_kind == (entry.0 == kind));
            assert(same_deck == (entry.1@ == deck@));
            if same_kind && same_deck {
                assert(led_entry_key(*entry) == light);
                proof {
                    lemma_led_last(self.led_keys@, j - 1, light);
                }
                return Some(entry.2);
            }
            j -= 1;
        }
        proof {
            lemma_led_none(self.led_keys@, light);
        }
        None
    }
}


/// No address appears twice in the table.
pub open spec fn table_distinct(table: KeyTable) -> bool {
    forall|i: int, j: int|
        0 <= i < table.len() && 0 <= j < table.len() && i != j ==> #[trigger] table[i].0
            != #[trigger] table[j].0
}

/// Every entry names a binding that really arrives on that address, as that half.
pub open spec fn table_sound(bindings: Seq<Binding>, table: KeyTable) -> bool {
    forall|j: int|
        0 <= j < table.len() ==> {
            &&& (#[trigger] table[j]).1 < bindings.len()
            &&& source_keys(bindings[table[j].1 as int].source) matches Ok(keys) && keys.contains(
                (table[j].0, table[j].2),
            )
        }
}

/// The `k`th address of binding `b`.
pub open spec fn binding_key(bindings: Seq<Binding>, b: int, k: int) -> (Key, Half) {
    source_keys(bindings[b].source)->Ok_0[k]
}

/// How many addresses binding `b` arrives on; none when it has no set of them.
pub open spec fn binding_key_count(bindings: Seq<Binding>, b: int) -> int {
    match source_keys(bindings[b].source) {
        Ok(keys) => keys.len() as int,
        Err(_) => 0,
    }
}

/// The table holds `key` as the given half of binding `b`.
pub open spec fn table_holds(table: KeyTable, key: (Key, Half), b: int) -> bool {
    exists|j: int| 0 <= j < table.len() && table[j] == (key.0, b as usize, key.1)
}

/// Every address of every binding has its entry.
pub open spec fn table_complete(bindings: Seq<Binding>, table: KeyTable) -> bool {
    forall|b: int, k: int|
        #![trigger binding_key(bindings, b, k)]
        0 <= b < bindings.len() && 0 <= k < binding_key_count(bindings, b) ==> table_holds(
            table,
            binding_key(bindings, b, k),
            b,
        )
}

pub proof fn lemma_add_keys(table: KeyTable, keys: Seq<(Key, Half)>, index: usize)
    ensures
        add_keys(table, keys, index) matches Ok(t2) ==> {
            &&& t2.len() == table.len() + keys.len()
            &&& forall|j: int| 0 <= j < table.len() ==> #[trigger] t2[j] == table[j]
            &&& forall|j: int|
                0 <= j < keys.len() ==> #[trigger] t2[table.len() + j] == (
                    keys[j].0,
                    index,
                    keys[j].1,
                )
            &&& table_distinct(table) ==> table_distinct(t2)
        },
    decreases keys.len(),
{
    if keys.len() > 0 {
        lemma_add_keys(table, keys.drop_last(), index);
        if let Ok(t1) = add_keys(table, keys.drop_last(), index) {
            if !table_has(t1, keys.last().0) {
                let t2 = t1.push((keys.last().0, index, keys.last().1));
                assert forall|j: int| 0 <= j < keys.len() implies #[trigger] t2[table.len() + j] == (
                    keys[j].0,
                    index,
                    keys[j].1,
                ) by {
                    if j < keys.len() - 1 {
                        assert(t2[table.len() + j] == t1[table.len() + j]);
                        assert(keys.drop_last()[j] == keys[j]);
                    }
                }
                if table_distinct(table) {
                    assert forall|i: int, j: int|
                        0 <= i < t2.len() && 0 <= j < t2.len() && i != j implies #[trigger] t2[i].0
                        != #[trigger] t2[j].0 by {
                        if i == t2.len() - 1 {
                            assert(t1[j] == t2[j]);
                        } else if j == t2.len() - 1 {
                            assert(t1[i] == t2[i]);
                        } else {
                            assert(t1[i] == t2[i] && t1[j] == t2[j]);
                        }
                    }
                }
            }
        }
    }
}

proof fn lemma_add_keys_err(table: KeyTable, keys: Seq<(Key, Half)>, index: usize)
    ensures
        add_keys(table, keys, index) matches Err(e) ==> exists|j: int|
            0 <= j < keys.len() && e == ProfileError::Collision(#[trigger] keys[j].0) && (table_has(table, keys[j].0)
                || exists|m: int| 0 <= m < j && keys[m].0 == keys[j].0),
    decreases keys.len(),
{
    if keys.len() > 0 {
        let shorter = keys.drop_last();
        lemma_add_keys_err(table, shorter, index);
        lemma_add_keys(table, shorter, index);
        match add_keys(table, shorter, index) {
            Err(e) => {
                let j = choose|j: int|
                    0 <= j < shorter.len() && e == ProfileError::Collision(#[trigger] shorter[j].0) && (table_has(
                        table,
                        shorter[j].0,
                    ) || exists|m: int| 0 <= m < j && shorter[m].0 == shorter[j].0);
                assert(keys[j] == shorter[j]);
                if exists|m: int| 0 <= m < j && shorter[m].0 == shorter[j].0 {
                    let m = choose|m: int| 0 <= m < j && shorter[m].0 == shorter[j].0;
                    assert(keys[m] == shorter[m]);
                }
            },
            Ok(t) => {
                let last = keys.len() - 1;
                if table_has(t, keys[last].0) {
                    let i = choose|i: int| 0 <= i < t.len() && #[trigger] t[i].0 == keys[last].0;
                    if i < table.len() {
                        assert(t[i] == table[i]);
                        assert(table_has(table, keys[last].0));
                    } else {
                        let m = i - table.len();
                        assert(t[table.len() + m] == (shorter[m].0, index, shorter[m].1));
                        assert(keys[m] == shorter[m]);
                        assert(0 <= m < last && keys[m].0 == keys[last].0);
                    }
                }
            },
        }
    }
}

proof fn lemma_add_keys_ok(table: KeyTable, keys: Seq<(Key, Half)>, index: usize)
    requires
        forall|j: int| 0 <= j < keys.len() ==> !table_has(table, #[trigger] keys[j].0),
        forall|i: int, j: int| 0 <= i < keys.len() && 0 <= j < keys.len() && i != j ==> #[trigger] keys[i].0 != #[trigger] keys[j].0,
    ensures
        add_keys(table, keys, index) is Ok,
    decreases keys.len(),
{
    if keys.len() > 0 {
        let shorter = keys.drop_last();
        assert forall|j: int| 0 <= j < shorter.len() implies !table_has(table, #[trigger] shorter[j].0) by {
            assert(shorter[j] == keys[j]);
        }
        assert forall|i: int, j: int| 0 <= i < shorter.len() && 0 <= j < shorter.len() && i != j implies #[trigger] shorter[i].0
            != #[trigger] shorter[j].0 by {
            assert(shorter[i] == keys[i] && shorter[j] == keys[j]);
        }
        lemma_add_keys_ok(table, shorter, index);
        lemma_add_keys(table, shorter, index);
        let t = add_keys(table, shorter, index)->Ok_0;
        let last = keys.len() - 1;
        if table_has(t, keys[last].0) {
            let i = choose|i: int| 0 <= i < t.len() && #[trigger] t[i].0 == keys[last].0;
            if i < table.len() {
                assert(t[i] == table[i]);
                assert(table_has(table, keys[last].0));
            } else {
                let m = i - table.len();
                assert(t[table.len() + m] == (shorter[m].0, index, shorter[m].1));
                assert(keys[m] == shorter[m]);
                assert(keys[m].0 != keys[last].0);
            }
        }
    }
}

/// A source's addresses are different addresses.
proof fn lemma_source_keys_distinct(source: Source)
    ensures
        source_keys(source) matches Ok(keys) ==> forall|i: int, j: int|
            0 <= i < keys.len() && 0 <= j < keys.len() && i != j ==> #[trigger] keys[i].0 != #[trigger] keys[j].0,
{
}

/// Two different bindings arrive on one address.
pub open spec fn shared_address(bindings: Seq<Binding>, key: Key) -> bool {
    exists|a: int, b: int|
        0 <= a < b < bindings.len() && arrives_on_any(#[trigger] bindings[a].source, key) && arrives_on_any(
            #[trigger] bindings[b].source,
            key,
        )
}

/// Some binding's source has no set of addresses, for this reason.
pub open spec fn keyless(bindings: Seq<Binding>, error: KeysError) -> bool {
    exists|b: int| 0 <= b < bindings.len() && source_keys(#[trigger] bindings[b].source) == Err::<Seq<(Key, Half)>, KeysError>(error)
}

/// A built table leaves no cause for refusal: every source has its addresses and
/// no address is reached by two bindings.
proof fn lemma_built_table_has_no_cause(bindings: Seq<Binding>)
    requires
        bindings.len() <= usize::MAX,
    ensures
        key_table(bindings) is Ok ==> (forall|b: int|
            0 <= b < bindings.len() ==> source_keys(#[trigger] bindings[b].source) is Ok),
        key_table(bindings) is Ok ==> forall|key: Key| !shared_address(bindings, key),
    decreases bindings.len(),
{
    if bindings.len() > 0 {
        let prefix = bindings.drop_last();
        lemma_built_table_has_no_cause(prefix);
        if key_table(bindings) is Ok {
            assert forall|b: int| 0 <= b < bindings.len() implies source_keys(#[trigger] bindings[b].source) is Ok by {
                if b < prefix.len() {
                    assert(prefix[b] == bindings[b]);
                }
            }
        }
    }
    lemma_key_table(bindings);
    if let Ok(table) = key_table(bindings) {
        assert forall|key: Key| !shared_address(bindings, key) by {
            if shared_address(bindings, key) {
                let (a, b) = choose|a: int, b: int|
                    0 <= a < b < bindings.len() && arrives_on_any(#[trigger] bindings[a].source, key) && arrives_on_any(
                        #[trigger] bindings[b].source,
                        key,
                    );
                let ka = source_keys(bindings[a].source)->Ok_0;
                let kb = source_keys(bindings[b].source)->Ok_0;
                let ia = choose|i: int| 0 <= i < ka.len() && ka[i].0 == key;
                let ib = choose|i: int| 0 <= i < kb.len() && kb[i].0 == key;
                assert(binding_key(bindings, a, ia) == ka[ia]);
                assert(binding_key(bindings, b, ib) == kb[ib]);
                let ja = choose|j: int| 0 <= j < table.len() && table[j] == (ka[ia].0, a as usize, ka[ia].1);
                let jb = choose|j: int| 0 <= j < table.len() && table[j] == (kb[ib].0, b as usize, kb[ib].1);
                assert(ja != jb);
                assert(table[ja].0 == table[jb].0);
            }
        }
    }
}

proof fn lemma_table_find_some(table: KeyTable, key: Key)
    ensures
        table_find(table, key) matches Some(found) ==> exists|j: int|
            0 <= j < table.len() && #[trigger] table[j] == (key, found.0, found.1),
    decreases table.len(),
{
    if table.len() > 0 && table.last().0 != key {
        let prefix = table.drop_last();
        lemma_table_find_some(prefix, key);
        if let Some(found) = table_find(prefix, key) {
            let j = choose|j: int| 0 <= j < prefix.len() && #[trigger] prefix[j] == (key, found.0, found.1);
            assert(table[j] == prefix[j]);
        }
    } else if table.len() > 0 {
        assert(table[table.len() - 1] == table.last());
    }
}

/// In a built profile an address reaches binding `index` as `half` exactly when
/// that binding's source arrives on the address as that half.
pub proof fn law_an_address_reaches_exactly_the_binding_that_arrives_on_it(
    bindings: Seq<Binding>,
    key: Key,
    index: usize,
    half: Half,
)
    requires
        bindings.len() <= usize::MAX,
        key_table(bindings) is Ok,
    ensures
        table_find(key_table(bindings)->Ok_0, key) == Some((index, half)) <==> (index < bindings.len()
            && arrives_on(bindings[index as int].source, key, half)),
{
    lemma_key_table(bindings);
    let table = key_table(bindings)->Ok_0;
    lemma_table_find_some(table, key);
    if table_find(table, key) == Some((index, half)) {
        let j = choose|j: int| 0 <= j < table.len() && #[trigger] table[j] == (key, index, half);
        assert(table[j].1 < bindings.len());
    }
    if index < bindings.len() && arrives_on(bindings[index as int].source, key, half) {
        let keys = source_keys(bindings[index as int].source)->Ok_0;
        let k = choose|k: int| 0 <= k < keys.len() && keys[k] == (key, half);
        assert(binding_key(bindings, index as int, k) == (key, half));
        assert(table_holds(table, binding_key(bindings, index as int, k), index as int));
        let j = choose|j: int| 0 <= j < table.len() && table[j] == (key, index, half);
        lemma_table_find(table, key, j);
    }
}

/// A profile is refused rather than letting the last binding win exactly when two
/// bindings arrive on one address or a binding's source has no addresses: the
/// symptom would be the wrong deck's control moving, which reads as broken
/// hardware. A refusal names an address two bindings share, or the reason a
/// source has none.
pub proof fn law_a_profile_is_refused_exactly_when_two_bindings_share_an_address(bindings: Seq<Binding>)
    requires
        bindings.len() <= usize::MAX,
    ensures
        key_table(bindings) matches Err(ProfileError::Collision(key)) ==> shared_address(bindings, key),
        key_table(bindings) matches Err(ProfileError::Keys(error)) ==> keyless(bindings, error),
        (forall|b: int| 0 <= b < bindings.len() ==> source_keys(#[trigger] bindings[b].source) is Ok) && (forall|
            key: Key,
        | !shared_address(bindings, key)) ==> key_table(bindings) is Ok,
        forall|key: Key| shared_address(bindings, key) ==> key_table(bindings) is Err,
        forall|error: KeysError| keyless(bindings, error) ==> key_table(bindings) is Err,
    decreases bindings.len(),
{
    lemma_built_table_has_no_cause(bindings);
    if bindings.len() > 0 {
        let prefix = bindings.drop_last();
        let n = prefix.len() as int;
        law_a_profile_is_refused_exactly_when_two_bindings_share_an_address(prefix);
        lemma_key_table(prefix);
        assert forall|key: Key| shared_address(prefix, key) implies shared_address(bindings, key) by {
            let (a, b) = choose|a: int, b: int|
                0 <= a < b < prefix.len() && arrives_on_any(#[trigger] prefix[a].source, key) && arrives_on_any(
                    #[trigger] prefix[b].source,
                    key,
                );
            assert(prefix[a] == bindings[a] && prefix[b] == bindings[b]);
        }
        assert forall|error: KeysError| keyless(prefix, error) implies keyless(bindings, error) by {
            let b = choose|b: int| 0 <= b < prefix.len() && source_keys(#[trigger] prefix[b].source) == Err::<
                Seq<(Key, Half)>,
                KeysError,
            >(error);
            assert(prefix[b] == bindings[b]);
        }
        if (forall|b: int| 0 <= b < bindings.len() ==> source_keys(#[trigger] bindings[b].source) is Ok) {
            assert forall|b: int| 0 <= b < prefix.len() implies source_keys(#[trigger] prefix[b].source) is Ok by {
                assert(prefix[b] == bindings[b]);
            }
        }
        match key_table(prefix) {
            Err(_) => {},
            Ok(table) => {
                let last = bindings.last();
                assert(bindings[n] == last);
                match source_keys(last.source) {
                    Err(_) => {},
                    Ok(keys) => {
                        lemma_source_keys_distinct(last.source);
                        lemma_add_keys_err(table, keys, n as usize);
                        // An address the table already holds belongs to an earlier binding.
                        assert forall|j: int| 0 <= j < keys.len() && table_has(table, #[trigger] keys[j].0) implies shared_address(
                            bindings,
                            keys[j].0,
                        ) by {
                            let i = choose|i: int| 0 <= i < table.len() && #[trigger] table[i].0 == keys[j].0;
                            let b = table[i].1 as int;
                            assert(b < n);
                            assert(source_keys(prefix[b].source) matches Ok(ks) && ks.contains((table[i].0, table[i].2)));
                            assert(prefix[b] == bindings[b]);
                            assert(arrives_on(bindings[b].source, keys[j].0, table[i].2));
                            assert(keys.contains(keys[j]));
                            assert(arrives_on(bindings[n].source, keys[j].0, keys[j].1));
                        }
                        if let Err(e) = add_keys(table, keys, n as usize) {
                            let j = choose|j: int|
                                0 <= j < keys.len() && e == ProfileError::Collision(#[trigger] keys[j].0) && (table_has(
                                    table,
                                    keys[j].0,
                                ) || exists|m: int| 0 <= m < j && keys[m].0 == keys[j].0);
                            if exists|m: int| 0 <= m < j && keys[m].0 == keys[j].0 {
                                let m = choose|m: int| 0 <= m < j && keys[m].0 == keys[j].0;
                                assert(keys[m].0 != keys[j].0);
                            }
                        }
                        if forall|key: Key| !shared_address(bindings, key) {
                            lemma_add_keys_ok(table, keys, n as usize);
                        }
                    },
                }
            },
        }
    }
}

/// A built table is distinct, sound and complete: exactly the addresses of the
/// bindings, each reaching the binding it belongs to.
pub proof fn lemma_key_table(bindings: Seq<Binding>)
    requires
        bindings.len() <= usize::MAX,
    ensures
        key_table(bindings) matches Ok(table) ==> {
            &&& table_distinct(table)
            &&& table_sound(bindings, table)
            &&& table_complete(bindings, table)
        },
    decreases bindings.len(),
{
    if bindings.len() > 0 {
        let prefix = bindings.drop_last();
        lemma_key_table(prefix);
        if let Ok(table) = key_table(prefix) {
            if let Ok(keys) = source_keys(bindings.last().source) {
                let index = (bindings.len() - 1) as usize;
                lemma_add_keys(table, keys, index);
                if let Ok(t2) = add_keys(table, keys, index) {
                    assert forall|j: int| 0 <= j < t2.len() implies {
                        &&& (#[trigger] t2[j]).1 < bindings.len()
                        &&& source_keys(bindings[t2[j].1 as int].source) matches Ok(ks)
                            && ks.contains((t2[j].0, t2[j].2))
                    } by {
                        if j < table.len() {
                            assert(t2[j] == table[j]);
                            assert(prefix[table[j].1 as int] == bindings[table[j].1 as int]);
                        } else {
                            let k = j - table.len();
                            assert(t2[table.len() + k] == (keys[k].0, index, keys[k].1));
                            assert(keys[k] == (t2[j].0, t2[j].2));
                            assert(index as int == bindings.len() - 1);
                            assert(bindings[index as int] == bindings.last());
                            assert(keys.contains((t2[j].0, t2[j].2)));
                        }
                    }
                    assert forall|b: int, k: int|
                        #![trigger binding_key(bindings, b, k)]
                        0 <= b < bindings.len() && 0 <= k < binding_key_count(
                            bindings,
                            b,
                        ) implies table_holds(t2, binding_key(bindings, b, k), b) by {
                        if b < bindings.len() - 1 {
                            assert(prefix[b] == bindings[b]);
                            assert(binding_key(prefix, b, k) == binding_key(bindings, b, k));
                            assert(binding_key_count(prefix, b) == binding_key_count(bindings, b));
                            assert(table_holds(table, binding_key(prefix, b, k), b));
                            let j = choose|j: int|
                                0 <= j < table.len() && table[j] == (
                                    binding_key(prefix, b, k).0,
                                    b as usize,
                                    binding_key(prefix, b, k).1,
                                );
                            assert(t2[j] == table[j]);
                        } else {
                            assert(t2[table.len() + k] == (keys[k].0, index, keys[k].1));
                        }
                    }
                    assert(key_table(bindings) == Ok::<KeyTable, ProfileError>(t2));
                    assert(table_distinct(t2));
                    assert(table_sound(bindings, t2));
                    assert(table_complete(bindings, t2));
                }
            }
        }
    }
}


/// Every kind of action a binding can name, in the order the vocabulary offers them.
#[derive(Clone, Copy, Debug, PartialEq, Eq, Hash, Structural)]
pub enum ActionKind {
    DeckParam,
    PlayToggle,
    CueToggle,
    TransportCue,
    LoopIn,
    LoopOut,
    LoopExitOrReloop,
    QuantizeToggle,
    Shift,
    Eject,
    Load,
    TempoFader,
    Jog,
    XfaderPosition,
    Browse,
    Enter,
    Back,
    ToggleView,
}

/// An action as plain values: its kind and whichever addresses it carries.
pub struct ActionView {
    pub kind: ActionKind,
    pub deck: Option<Seq<char>>,
    pub slot: Option<Seq<char>>,
    pub param: Option<Seq<char>>,
    pub steps: Option<i32>,
}

pub open spec fn decked(kind: ActionKind, deck: String) -> ActionView {
    ActionView { kind, deck: Some(deck@), slot: None, param: None, steps: None }
}

pub open spec fn plain(kind: ActionKind) -> ActionView {
    ActionView { kind, deck: None, slot: None, param: None, steps: None }
}

impl View for Action {
    type V = ActionView;

    open spec fn view(&self) -> ActionView {
        match *self {
            Action::DeckParam { deck, slot, param } => ActionView {
                kind: ActionKind::DeckParam,
                deck: Some(deck@),
                slot: Some(slot@),
                param: Some(param@),
                steps: None,
            },
            Action::CueToggle { deck } => decked(ActionKind::CueToggle, deck),
            Action::PlayToggle { deck } => decked(ActionKind::PlayToggle, deck),
            Action::TransportCue { deck } => decked(ActionKind::TransportCue, deck),
            Action::LoopIn { deck } => decked(ActionKind::LoopIn, deck),
            Action::LoopOut { deck } => decked(ActionKind::LoopOut, deck),
            Action::LoopExitOrReloop { deck } => decked(ActionKind::LoopExitOrReloop, deck),
            Action::TempoFader { deck } => decked(ActionKind::TempoFader, deck),
            Action::Jog { deck } => decked(ActionKind::Jog, deck),
            Action::Shift { deck } => decked(ActionKind::Shift, deck),
            Action::QuantizeToggle { deck } => decked(ActionKind::QuantizeToggle, deck),
            Action::Eject { deck } => decked(ActionKind::Eject, deck),
            Action::Browse { steps } => ActionView {
                kind: ActionKind::Browse,
                deck: None,
                slot: None,
                param: None,
                steps,
            },
            Action::Load { deck } => decked(ActionKind::Load, deck),
            Action::Enter => plain(ActionKind::Enter),
            Action::Back => plain(ActionKind::Back),
            Action::ToggleView => plain(ActionKind::ToggleView),
            Action::XfaderPosition => plain(ActionKind::XfaderPosition),
        }
    }
}

/// Whether an action of this kind plays one deck and so needs one named.
pub open spec fn kind_needs_deck(kind: ActionKind) -> bool {
    match kind {
        ActionKind::XfaderPosition | ActionKind::Browse | ActionKind::Enter | ActionKind::Back
        | ActionKind::ToggleView => false,
        _ => true,
    }
}

/// The name an action of this kind carries in a mapping file.
pub open spec fn spec_kind_id(kind: ActionKind) -> &'static str {
    match kind {
        ActionKind::DeckParam => "deck_param",
        ActionKind::PlayToggle => "play_toggle",
        ActionKind::CueToggle => "cue_toggle",
        ActionKind::TransportCue => "transport_cue",
        ActionKind::LoopIn => "loop_in",
        ActionKind::LoopOut => "loop_out",
        ActionKind::LoopExitOrReloop => "loop_exit_or_reloop",
        ActionKind::QuantizeToggle => "quantize_toggle",
        ActionKind::Shift => "shift",
        ActionKind::Eject => "eject",
        ActionKind::Load => "load",
        ActionKind::TempoFader => "tempo_fader",
        ActionKind::Jog => "jog",
        ActionKind::XfaderPosition => "xfader_position",
        ActionKind::Browse => "browse",
        ActionKind::Enter => "enter",
        ActionKind::Back => "back",
        ActionKind::ToggleView => "toggle_view",
    }
}

/// The name an action of this kind carries in a mapping file.
#[verifier::when_used_as_spec(spec_kind_id)]
pub fn kind_id(kind: ActionKind) -> (id: &'static str)
    ensures
        id == spec_kind_id(kind),
{
    match kind {
        ActionKind::DeckParam => "deck_param",
        ActionKind::PlayToggle => "play_toggle",
        ActionKind::CueToggle => "cue_toggle",
        ActionKind::TransportCue => "transport_cue",
        ActionKind::LoopIn => "loop_in",
        ActionKind::LoopOut => "loop_out",
        ActionKind::LoopExitOrReloop => "loop_exit_or_reloop",
        ActionKind::QuantizeToggle => "quantize_toggle",
        ActionKind::Shift => "shift",
        ActionKind::Eject => "eject",
        ActionKind::Load => "load",
        ActionKind::TempoFader => "tempo_fader",
        ActionKind::Jog => "jog",
        ActionKind::XfaderPosition => "xfader_position",
        ActionKind::Browse => "browse",
        ActionKind::Enter => "enter",
        ActionKind::Back => "back",
        ActionKind::ToggleView => "toggle_view",
    }
}

/// Every kind, in the order the vocabulary offers them.
pub open spec fn all_kinds() -> Seq<ActionKind> {
    seq![
        ActionKind::DeckParam,
        ActionKind::PlayToggle,
        ActionKind::CueToggle,
        ActionKind::TransportCue,
        ActionKind::LoopIn,
        ActionKind::LoopOut,
        ActionKind::LoopExitOrReloop,
        ActionKind::QuantizeToggle,
        ActionKind::Shift,
        ActionKind::Eject,
        ActionKind::Load,
        ActionKind::TempoFader,
        ActionKind::Jog,
        ActionKind::XfaderPosition,
        ActionKind::Browse,
        ActionKind::Enter,
        ActionKind::Back,
        ActionKind::ToggleView,
    ]
}

/// The first kind, in vocabulary order, whose name is `name`.
pub open spec fn kind_named_from(name: Seq<char>, from: int) -> Option<ActionKind>
    decreases all_kinds().len() - from,
{
    if from < 0 || from >= all_kinds().len() {
        None
    } else if name == spec_kind_id(all_kinds()[from])@ {
        Some(all_kinds()[from])
    } else {
        kind_named_from(name, from + 1)
    }
}

pub open spec fn kind_named(name: Seq<char>) -> Option<ActionKind> {
    kind_named_from(name, 0)
}

/// No two kinds share a name.
pub proof fn lemma_kind_ids_distinct(a: ActionKind, b: ActionKind)
    requires
        a != b,
    ensures
        spec_kind_id(a)@ != spec_kind_id(b)@,
{
    reveal_strlit("deck_param");
    reveal_strlit("play_toggle");
    reveal_strlit("cue_toggle");
    reveal_strlit("transport_cue");
    reveal_strlit("loop_in");
    reveal_strlit("loop_out");
    reveal_strlit("loop_exit_or_reloop");
    reveal_strlit("quantize_toggle");
    reveal_strlit("shift");
    reveal_strlit("eject");
    reveal_strlit("load");
    reveal_strlit("tempo_fader");
    reveal_strlit("jog");
    reveal_strlit("xfader_position");
    reveal_strlit("browse");
    reveal_strlit("enter");
    reveal_strlit("back");
    reveal_strlit("toggle_view");
    let x = spec_kind_id(a)@;
    let y = spec_kind_id(b)@;
    if x == y {
        assert(x.len() == y.len());
        assert(x[0] == y[0]);
        assert(x[1] == y[1]);
        assert(x[2] == y[2]);
    }
}

proof fn lemma_kind_named_from(kind: ActionKind, from: int, at: int)
    requires
        0 <= from <= at < all_kinds().len(),
        all_kinds()[at] == kind,
        forall|j: int| from <= j < at ==> all_kinds()[j] != kind,
    ensures
        kind_named_from(spec_kind_id(kind)@, from) == Some(kind),
    decreases at - from,
{
    if from < at {
        lemma_kind_ids_distinct(all_kinds()[from], kind);
        lemma_kind_named_from(kind, from + 1, at);
    }
}

/// Each kind's name reads back as that kind.
pub proof fn lemma_kind_named_id(kind: ActionKind)
    ensures
        kind_named(spec_kind_id(kind)@) == Some(kind),
{
    let kinds = all_kinds();
    let at: int = match kind {
        ActionKind::DeckParam => 0,
        ActionKind::PlayToggle => 1,
        ActionKind::CueToggle => 2,
        ActionKind::TransportCue => 3,
        ActionKind::LoopIn => 4,
        ActionKind::LoopOut => 5,
        ActionKind::LoopExitOrReloop => 6,
        ActionKind::QuantizeToggle => 7,
        ActionKind::Shift => 8,
        ActionKind::Eject => 9,
        ActionKind::Load => 10,
        ActionKind::TempoFader => 11,
        ActionKind::Jog => 12,
        ActionKind::XfaderPosition => 13,
        ActionKind::Browse => 14,
        ActionKind::Enter => 15,
        ActionKind::Back => 16,
        ActionKind::ToggleView => 17,
    };
    assert(kinds[at] == kind);
    assert forall|j: int| 0 <= j < at implies kinds[j] != kind by {}
    lemma_kind_named_from(kind, 0, at);
}

/// The kind a mapping file's action name names, if any.
pub fn kind_named_by(name: &str) -> (kind: Option<ActionKind>)
    ensures
        kind == kind_named(name@),
{
    let kinds = [
        ActionKind::DeckParam,
        ActionKind::PlayToggle,
        ActionKind::CueToggle,
        ActionKind::TransportCue,
        ActionKind::LoopIn,
        ActionKind::LoopOut,
        ActionKind::LoopExitOrReloop,
        ActionKind::QuantizeToggle,
        ActionKind::Shift,
        ActionKind::Eject,
        ActionKind::Load,
        ActionKind::TempoFader,
        ActionKind::Jog,
        ActionKind::XfaderPosition,
        ActionKind::Browse,
        ActionKind::Enter,
        ActionKind::Back,
        ActionKind::ToggleView,
    ];
    assert(kinds@ =~= all_kinds());
    let mut i: usize = 0;
    while i < 18
        invariant
            i <= 18,
            kinds@ == all_kinds(),
            kind_named(name@) == kind_named_from(name@, i as int),
        decreases 18 - i,
    {
        let kind = kinds[i];
        if same_text(name, kind_id(kind)) {
            return Some(kind);
        }
        i += 1;
    }
    None
}


#[derive(Clone, Copy, Debug, PartialEq, Eq, Structural)]
pub enum DeckScope {
    Fixed,
    Assigned,
}

#[derive(Clone, Copy, Debug, PartialEq, Eq, Structural)]
pub enum ResolutionSpec {
    SevenBit,
    FourteenBit,
    CentreDelta,
    SignedStep,
}

pub open spec fn spec_resolution_of(spec: ResolutionSpec) -> Resolution {
    match spec {
        ResolutionSpec::SevenBit => Resolution::SevenBit,
        ResolutionSpec::FourteenBit => Resolution::FourteenBit,
        ResolutionSpec::CentreDelta => Resolution::CentreDelta,
        ResolutionSpec::SignedStep => Resolution::SignedStep,
    }
}

/// A control change built from a binding spec reads the way the file names its
/// resolution: `seven_bit` is a position on one address, `fourteen_bit` a
/// position joined from two (the low half 32 controllers up), `centre_delta` a
/// distance from 64, and `signed_step` a step that counts 1 forward and 127 back;
/// a spec that names none reads as `seven_bit`.
pub proof fn law_a_written_resolution_reads_as_its_name_says(spec: BindingSpec, value: u8)
    requires
        spec.channel >= 1,
        spec.note is None,
        spec.cc is Some,
        value <= 127,
    ensures
        spec_binding_source(spec) matches Ok(source) && {
            let controller = spec.cc->Some_0;
            let high = (Key::ControlChange { channel: (spec.channel - 1) as u8, controller }, Half::Msb);
            let delta = spec_relative_delta(source_resolution(source), value);
            match spec.resolution {
                Some(ResolutionSpec::FourteenBit) => delta is None && (controller + 32 <= 127 ==> source_keys(
                    source,
                ) == Ok::<Seq<(Key, Half)>, KeysError>(
                    seq![high, (Key::ControlChange { channel: (spec.channel - 1) as u8, controller: (controller + 32) as u8 }, Half::Lsb)],
                )),
                Some(ResolutionSpec::CentreDelta) => delta == Some((value - 64) as i32),
                Some(ResolutionSpec::SignedStep) => delta == Some(
                    if value < 64 {
                        value as i32
                    } else {
                        (value - 128) as i32
                    },
                ),
                _ => delta is None && source_keys(source) == Ok::<Seq<(Key, Half)>, KeysError>(seq![high]),
            }
        },
{
}

impl ResolutionSpec {
    pub fn resolution(self) -> (resolution: Resolution)
        ensures
            resolution == spec_resolution_of(self),
    {
        match self {
            ResolutionSpec::SevenBit => Resolution::SevenBit,
            ResolutionSpec::FourteenBit => Resolution::FourteenBit,
            ResolutionSpec::CentreDelta => Resolution::CentreDelta,
            ResolutionSpec::SignedStep => Resolution::SignedStep,
        }
    }
}

/// How a button reports: a momentary one sends its release too, a trigger only
/// its press.
#[derive(Clone, Copy, Debug, PartialEq, Eq, Structural)]
pub enum ButtonSpec {
    Momentary,
    Trigger,
}

/// One binding as a mapping file writes it. Channels count from 1 here.
#[derive(Debug, PartialEq, Eq)]
pub struct BindingSpec {
    pub channel: u8,
    pub action: String,
    pub note: Option<u8>,
    pub cc: Option<u8>,
    pub resolution: Option<ResolutionSpec>,
    pub button: Option<ButtonSpec>,
    pub deck: Option<String>,
    pub slot: Option<String>,
    pub param: Option<String>,
    pub steps: Option<i32>,
}

/// Why a binding spec does not build.
#[derive(Debug, PartialEq, Eq)]
pub enum BindingError {
    /// A fixed mapping's binding for a deck action names no deck.
    NeedsDeck { action: String },
    /// An assigned mapping built before the device was given a deck.
    NoDeck,
    NeedsSlot,
    NeedsParam,
    /// The file counts channels from 1.
    ChannelFromOne,
    /// A binding names both a note and a cc, or neither.
    NoteOrCc,
    UnknownAction { action: String },
}

pub open spec fn spec_binding_source(spec: BindingSpec) -> Result<Source, BindingError> {
    if spec.channel == 0 {
        Err(BindingError::ChannelFromOne)
    } else {
        let channel = (spec.channel - 1) as u8;
        match (spec.note, spec.cc) {
            (Some(note), None) => Ok(Source::Note { channel, note }),
            (None, Some(controller)) => Ok(
                Source::ControlChange {
                    channel,
                    controller,
                    resolution: match spec.resolution {
                        Some(r) => spec_resolution_of(r),
                        None => Resolution::SevenBit,
                    },
                },
            ),
            _ => Err(BindingError::NoteOrCc),
        }
    }
}

/// The deck a binding plays: its own in a fixed mapping, the device's in an
/// assigned one.
pub open spec fn spec_binding_deck(spec: BindingSpec, scope: DeckScope, assigned: Option<Seq<char>>) -> Result<
    Seq<char>,
    BindingError,
> {
    match scope {
        DeckScope::Fixed => match spec.deck {
            Some(deck) => Ok(deck@),
            None => Err(BindingError::NeedsDeck { action: spec.action }),
        },
        DeckScope::Assigned => match assigned {
            Some(deck) => Ok(deck),
            None => Err(BindingError::NoDeck),
        },
    }
}

/// The action a binding spec builds, or the first thing wrong with it.
pub open spec fn spec_binding_action(spec: BindingSpec, scope: DeckScope, assigned: Option<Seq<char>>) -> Result<
    ActionView,
    BindingError,
> {
    match kind_named(spec.action@) {
        None => Err(BindingError::UnknownAction { action: spec.action }),
        Some(kind) => if kind_needs_deck(kind) {
            match spec_binding_deck(spec, scope, assigned) {
                Err(e) => Err(e),
                Ok(deck) => if kind == ActionKind::DeckParam {
                    match (spec.slot, spec.param) {
                        (None, _) => Err(BindingError::NeedsSlot),
                        (Some(_), None) => Err(BindingError::NeedsParam),
                        (Some(slot), Some(param)) => Ok(
                            ActionView {
                                kind,
                                deck: Some(deck),
                                slot: Some(slot@),
                                param: Some(param@),
                                steps: None,
                            },
                        ),
                    }
                } else {
                    Ok(ActionView { kind, deck: Some(deck), slot: None, param: None, steps: None })
                },
            }
        } else if kind == ActionKind::Browse {
            Ok(ActionView { kind, deck: None, slot: None, param: None, steps: spec.steps })
        } else {
            Ok(plain(kind))
        },
    }
}

/// The binding a spec builds: its action first, then its source.
pub open spec fn spec_build(spec: BindingSpec, scope: DeckScope, assigned: Option<Seq<char>>) -> Result<
    (ActionView, Source),
    BindingError,
> {
    match spec_binding_action(spec, scope, assigned) {
        Err(e) => Err(e),
        Ok(action) => match spec_binding_source(spec) {
            Err(e) => Err(e),
            Ok(source) => Ok((action, source)),
        },
    }
}

pub fn text_of(text: &str) -> (owned: String)
    ensures
        owned@ == text@,
{
    String::from_str(text)
}

impl BindingSpec {
    /// `assigned` is the deck the user gave the device, and is what an `assigned` mapping's
    /// bindings are built against. A `fixed` mapping names its own decks and ignores it.
    pub fn deck(&self, scope: DeckScope, assigned: Option<&str>) -> (deck: Result<String, BindingError>)
        ensures
            match (deck, spec_binding_deck(*self, scope, match assigned {
                Some(a) => Some(a@),
                None => None,
            })) {
                (Ok(d), Ok(v)) => d@ == v,
                (Err(e), Err(f)) => e == f,
                _ => false,
            },
    {
        match scope {
            DeckScope::Fixed => match &self.deck {
                Some(deck) => Ok(deck.clone()),
                None => Err(BindingError::NeedsDeck { action: self.action.clone() }),
            },
            DeckScope::Assigned => match assigned {
                Some(deck) => Ok(text_of(deck)),
                None => Err(BindingError::NoDeck),
            },
        }
    }

    pub fn source(&self) -> (source: Result<Source, BindingError>)
        ensures
            source == spec_binding_source(*self),
    {
        // The file counts channels the way the hardware's documentation and the
        // console monitor do, from one.
        if self.channel == 0 {
            return Err(BindingError::ChannelFromOne);
        }
        let channel = self.channel - 1;
        match (self.note, self.cc) {
            (Some(note), None) => Ok(Source::Note { channel, note }),
            (None, Some(controller)) => Ok(
                Source::ControlChange {
                    channel,
                    controller,
                    resolution: match self.resolution {
                        Some(r) => r.resolution(),
                        None => Resolution::SevenBit,
                    },
                },
            ),
            _ => Err(BindingError::NoteOrCc),
        }
    }

    pub fn build(&self, scope: DeckScope, assigned: Option<&str>) -> (binding: Result<Binding, BindingError>)
        ensures
            match (binding, spec_build(*self, scope, match assigned {
                Some(a) => Some(a@),
                None => None,
            })) {
                (Ok(b), Ok(v)) => b.action@ == v.0 && b.source == v.1,
                (Err(e), Err(f)) => e == f,
                _ => false,
            },
    {
        let kind = match kind_named_by(self.action.as_str()) {
            Some(kind) => kind,
            None => {
                return Err(BindingError::UnknownAction { action: self.action.clone() });
            },
        };
        let action = match kind {
            ActionKind::DeckParam => {
                let deck = self.deck(scope, assigned)?;
                let slot = match &self.slot {
                    Some(slot) => slot.clone(),
                    None => {
                        return Err(BindingError::NeedsSlot);
                    },
                };
                let param = match &self.param {
                    Some(param) => param.clone(),
                    None => {
                        return Err(BindingError::NeedsParam);
                    },
                };
                Action::DeckParam { deck, slot, param }
            },
            ActionKind::CueToggle => Action::CueToggle { deck: self.deck(scope, assigned)? },
            ActionKind::PlayToggle => Action::PlayToggle { deck: self.deck(scope, assigned)? },
            ActionKind::TransportCue => Action::TransportCue { deck: self.deck(scope, assigned)? },
            ActionKind::LoopIn => Action::LoopIn { deck: self.deck(scope, assigned)? },
            ActionKind::LoopOut => Action::LoopOut { deck: self.deck(scope, assigned)? },
            ActionKind::LoopExitOrReloop => Action::LoopExitOrReloop {
                deck: self.deck(scope, assigned)?,
            },
            ActionKind::TempoFader => Action::TempoFader { deck: self.deck(scope, assigned)? },
            ActionKind::Jog => Action::Jog { deck: self.deck(scope, assigned)? },
            ActionKind::Shift => Action::Shift { deck: self.deck(scope, assigned)? },
            ActionKind::QuantizeToggle => Action::QuantizeToggle {
                deck: self.deck(scope, assigned)?,
            },
            ActionKind::Eject => Action::Eject { deck: self.deck(scope, assigned)? },
            ActionKind::Load => Action::Load { deck: self.deck(scope, assigned)? },
            ActionKind::Browse => Action::Browse { steps: self.steps },
            ActionKind::Enter => Action::Enter,
            ActionKind::Back => Action::Back,
            ActionKind::ToggleView => Action::ToggleView,
            ActionKind::XfaderPosition => Action::XfaderPosition,
        };
        let source = self.source()?;
        Ok(Binding { source, action })
    }
}


/// Bumped only when the vocabulary changes. A file declaring a newer version is
/// refused rather than half-read.
pub const MAPPING_VERSION: u32 = 3;

/// The version that introduced the deck template. A file using it is refused below this,
/// because an older build finds no `bindings` at all and presents a dead controller.
pub const DECK_TEMPLATE_VERSION: u32 = 2;

/// One deck's channel on a surface that lays the same controls out per deck.
#[derive(Debug, PartialEq, Eq)]
pub struct DeckChannel {
    pub deck: String,
    pub channel: u8,
}

/// Written once and expanded across `per_deck`, so the deck and the channel come from the
/// template rather than being retyped per copy where a slip is a valid other-deck address.
#[derive(Debug, PartialEq, Eq)]
pub struct DeckBindingSpec {
    pub action: String,
    pub note: Option<u8>,
    pub cc: Option<u8>,
    pub resolution: Option<ResolutionSpec>,
    pub button: Option<ButtonSpec>,
    pub slot: Option<String>,
    pub param: Option<String>,
    pub steps: Option<i32>,
}

pub open spec fn spec_expand(template: DeckBindingSpec, over: DeckChannel) -> BindingSpec {
    BindingSpec {
        channel: over.channel,
        action: template.action,
        note: template.note,
        cc: template.cc,
        resolution: template.resolution,
        button: template.button,
        deck: Some(over.deck),
        slot: template.slot,
        param: template.param,
        steps: template.steps,
    }
}

pub fn copy_opt_text(text: &Option<String>) -> (copy: Option<String>)
    ensures
        copy == *text,
{
    match text {
        Some(text) => Some(text.clone()),
        None => None,
    }
}

impl DeckBindingSpec {
    pub fn expand(&self, over: &DeckChannel) -> (spec: BindingSpec)
        ensures
            spec == spec_expand(*self, *over),
    {
        BindingSpec {
            channel: over.channel,
            action: self.action.clone(),
            note: self.note,
            cc: self.cc,
            resolution: self.resolution,
            button: self.button,
            deck: Some(over.deck.clone()),
            slot: copy_opt_text(&self.slot),
            param: copy_opt_text(&self.param),
            steps: self.steps,
        }
    }
}

/// A mapping file as it is read: the flat bindings plus a deck template and the
/// decks it is laid out over.
pub struct MappingFile {
    pub version: u32,
    pub name: String,
    pub matches: Vec<String>,
    pub decks: DeckScope,
    pub per_deck: Vec<DeckChannel>,
    pub deck_bindings: Vec<DeckBindingSpec>,
    pub bindings: Vec<BindingSpec>,
}

pub struct Mapping {
    pub name: String,
    pub matches: Vec<String>,
    pub decks: DeckScope,
    pub bindings: Vec<BindingSpec>,
}

/// Why a mapping file is refused, or why it does not build a profile.
#[derive(Debug, PartialEq, Eq)]
pub enum MappingError {
    /// The file declares a version newer than this build reads.
    Newer { mapping: String, version: u32 },
    /// The file uses the deck template under a version that predates it.
    TemplateTooOld { mapping: String, version: u32 },
    /// A deck template with no decks to lay it out over.
    TemplateWithoutDecks { mapping: String },
    Binding { mapping: String, binding: BindingError },
    Profile { mapping: String, profile: ProfileError },
}

/// The template laid out over each deck in turn, deck by deck.
pub open spec fn expanded(per_deck: Seq<DeckChannel>, templates: Seq<DeckBindingSpec>) -> Seq<
    BindingSpec,
>
    decreases per_deck.len(),
{
    if per_deck.len() == 0 {
        Seq::empty()
    } else {
        expanded(per_deck.drop_last(), templates) + templates.map_values(
            |t: DeckBindingSpec| spec_expand(t, per_deck.last()),
        )
    }
}

/// What reading a file gives: its errors in the order they are checked, or the
/// mapping with its flat bindings first and then the template expanded.
pub open spec fn spec_parse_mapping(file: MappingFile) -> Result<
    (Seq<BindingSpec>, DeckScope),
    MappingError,
> {
    let templated = file.per_deck@.len() > 0 || file.deck_bindings@.len() > 0;
    if file.version > MAPPING_VERSION {
        Err(MappingError::Newer { mapping: file.name, version: file.version })
    } else if templated && file.version < DECK_TEMPLATE_VERSION {
        Err(MappingError::TemplateTooOld { mapping: file.name, version: file.version })
    } else if file.deck_bindings@.len() > 0 && file.per_deck@.len() == 0 {
        Err(MappingError::TemplateWithoutDecks { mapping: file.name })
    } else {
        Ok((file.bindings@ + expanded(file.per_deck@, file.deck_bindings@), file.decks))
    }
}

/// Checks the version and lays the deck template out; the file's own parse
/// into `MappingFile` happens before this.
pub fn parse_mapping(file: MappingFile) -> (mapping: Result<Mapping, MappingError>)
    ensures
        match (mapping, spec_parse_mapping(file)) {
            (Ok(m), Ok(v)) => {
                &&& m.bindings@ == v.0
                &&& m.decks == v.1
                &&& m.name == file.name
                &&& m.matches@ == file.matches@
            },
            (Err(e), Err(f)) => e == f,
            _ => false,
        },
{
    if file.version > MAPPING_VERSION {
        return Err(MappingError::Newer { mapping: file.name, version: file.version });
    }
    let templated = file.per_deck.len() > 0 || file.deck_bindings.len() > 0;
    if templated && file.version < DECK_TEMPLATE_VERSION {
        return Err(MappingError::TemplateTooOld { mapping: file.name, version: file.version });
    }
    if file.deck_bindings.len() > 0 && file.per_deck.len() == 0 {
        return Err(MappingError::TemplateWithoutDecks { mapping: file.name });
    }
    let ghost flat = file.bindings@;
    let mut bindings = file.bindings;
    let decks = file.per_deck.len();
    let templates = file.deck_bindings.len();
    let mut d: usize = 0;
    assert(file.per_deck@.take(0) =~= Seq::<DeckChannel>::empty());
    assert(bindings@ =~= flat + expanded(file.per_deck@.take(0), file.deck_bindings@));
    while d < decks
        invariant
            decks == file.per_deck.len(),
            templates == file.deck_bindings.len(),
            d <= decks,
            bindings@ == flat + expanded(file.per_deck@.take(d as int), file.deck_bindings@),
        decreases decks - d,
    {
        let ghost before = bindings@;
        let over = &file.per_deck[d];
        let mut t: usize = 0;
        assert(bindings@ =~= before + file.deck_bindings@.take(0).map_values(
            |x: DeckBindingSpec| spec_expand(x, *over),
        ));
        while t < templates
            invariant
                decks == file.per_deck.len(),
                templates == file.deck_bindings.len(),
                d < decks,
                t <= templates,
                *over == file.per_deck@[d as int],
                bindings@ == before + file.deck_bindings@.take(t as int).map_values(
                    |x: DeckBindingSpec| spec_expand(x, *over),
                ),
            decreases templates - t,
        {
            bindings.push(file.deck_bindings[t].expand(over));
            assert(file.deck_bindings@.take(t + 1).map_values(
                |x: DeckBindingSpec| spec_expand(x, *over),
            ) =~= file.deck_bindings@.take(t as int).map_values(
                |x: DeckBindingSpec| spec_expand(x, *over),
            ).push(spec_expand(file.deck_bindings@[t as int], *over)));
            t += 1;
        }
        let ghost next = file.per_deck@.take(d + 1);
        assert(next.drop_last() =~= file.per_deck@.take(d as int));
        assert(next.last() == *over);
        assert(file.deck_bindings@.take(templates as int) =~= file.deck_bindings@);
        assert(bindings@ =~= flat + expanded(next, file.deck_bindings@));
        d += 1;
    }
    assert(file.per_deck@.take(decks as int) =~= file.per_deck@);
    Ok(Mapping { name: file.name, matches: file.matches, decks: file.decks, bindings })
}

/// Whether any of `matches` occurs in the port's name.
pub open spec fn claims_port(matches: Seq<String>, port: Seq<char>) -> bool {
    exists|i: int| 0 <= i < matches.len() && contains_text(port, (#[trigger] matches[i])@)
}

/// The first error building the specs in order, if any.
pub open spec fn first_build_error(specs: Seq<BindingSpec>, scope: DeckScope, assigned: Option<Seq<char>>) -> Option<
    BindingError,
>
    decreases specs.len(),
{
    if specs.len() == 0 {
        None
    } else {
        match first_build_error(specs.drop_last(), scope, assigned) {
            Some(e) => Some(e),
            None => match spec_build(specs.last(), scope, assigned) {
                Err(e) => Some(e),
                Ok(_) => None,
            },
        }
    }
}

/// The bindings `bindings` are the ones the specs build, one for one.
pub open spec fn built_from(bindings: Seq<Binding>, specs: Seq<BindingSpec>, scope: DeckScope, assigned: Option<Seq<char>>) -> bool {
    &&& bindings.len() == specs.len()
    &&& forall|i: int|
        0 <= i < specs.len() ==> (spec_build(#[trigger] specs[i], scope, assigned) matches Ok(v)
            && bindings[i].action@ == v.0 && bindings[i].source == v.1)
}

proof fn lemma_first_build_error_prefix(specs: Seq<BindingSpec>, scope: DeckScope, assigned: Option<Seq<char>>, k: int)
    requires
        0 <= k <= specs.len(),
        first_build_error(specs.take(k), scope, assigned) is Some,
    ensures
        first_build_error(specs, scope, assigned) == first_build_error(specs.take(k), scope, assigned),
    decreases specs.len(),
{
    if k == specs.len() {
        assert(specs.take(k) =~= specs);
    } else {
        assert(specs.drop_last().take(k) =~= specs.take(k));
        lemma_first_build_error_prefix(specs.drop_last(), scope, assigned, k);
    }
}

impl Mapping {
    pub fn name(&self) -> (name: &str)
        ensures
            name@ == self.name@,
    {
        self.name.as_str()
    }

    pub fn claims(&self, port: &str) -> (claimed: bool)
        ensures
            claimed == claims_port(self.matches@, port@),
    {
        let mut i: usize = 0;
        while i < self.matches.len()
            invariant
                i <= self.matches.len(),
                forall|j: int| 0 <= j < i ==> !contains_text(port@, (#[trigger] self.matches@[j])@),
            decreases self.matches.len() - i,
        {
            if text_contains(port, self.matches[i].as_str()) {
                return true;
            }
            i += 1;
        }
        false
    }

    pub fn needs_deck(&self) -> (needs: bool)
        ensures
            needs == (self.decks == DeckScope::Assigned),
    {
        self.decks == DeckScope::Assigned
    }

    /// Builds every binding against the deck the device was given, then the profile.
    pub fn profile(&self, assigned: Option<&str>) -> (profile: Result<Profile, MappingError>)
        ensures
            ({
                let given = match assigned {
                    Some(a) => Some(a@),
                    None => None,
                };
                match profile {
                    Ok(p) => {
                        &&& first_build_error(self.bindings@, self.decks, given) is None
                        &&& built_from(p.bindings(), self.bindings@, self.decks, given)
                    },
                    Err(MappingError::Binding { mapping, binding: error }) => {
                        &&& mapping == self.name
                        &&& first_build_error(self.bindings@, self.decks, given) == Some(error)
                    },
                    Err(MappingError::Profile { mapping, profile: error }) => {
                        &&& mapping == self.name
                        &&& first_build_error(self.bindings@, self.decks, given) is None
                        &&& exists|bindings: Seq<Binding>|
                            built_from(bindings, self.bindings@, self.decks, given) && key_table(
                                bindings,
                            ) == Err::<KeyTable, ProfileError>(error)
                    },
                    Err(_) => false,
                }
            }),
    {
        let ghost given = match assigned {
            Some(a) => Some(a@),
            None => None,
        };
        let mut bindings: Vec<Binding> = Vec::new();
        let n = self.bindings.len();
        let mut i: usize = 0;
        assert(self.bindings@.take(0) =~= Seq::<BindingSpec>::empty());
        while i < n
            invariant
                n == self.bindings.len(),
                i <= n,
                given == (match assigned {
                    Some(a) => Some(a@),
                    None => None,
                }),
                first_build_error(self.bindings@.take(i as int), self.decks, given) is None,
                built_from(bindings@, self.bindings@.take(i as int), self.decks, given),
            decreases n - i,
        {
            let ghost next = self.bindings@.take(i + 1);
            assert(next.drop_last() =~= self.bindings@.take(i as int));
            assert(next.last() == self.bindings@[i as int]);
            match self.bindings[i].build(self.decks, assigned) {
                Ok(binding) => {
                    bindings.push(binding);
                    assert forall|j: int| 0 <= j < next.len() implies (spec_build(
                        #[trigger] next[j],
                        self.decks,
                        given,
                    ) matches Ok(v) && bindings@[j].action@ == v.0 && bindings@[j].source == v.1) by {
                        if j < i {
                            assert(next[j] == self.bindings@.take(i as int)[j]);
                        }
                    }
                },
                Err(error) => {
                    proof {
                        lemma_first_build_error_prefix(self.bindings@, self.decks, given, i + 1);
                    }
                    return Err(MappingError::Binding { mapping: self.name.clone(), binding: error });
                },
            }
            i += 1;
        }
        assert(self.bindings@.take(n as int) =~= self.bindings@);
        let ghost built = bindings@;
        match Profile::new(bindings) {
            Ok(p) => Ok(p),
            Err(error) => Err(MappingError::Profile { mapping: self.name.clone(), profile: error }),
        }
    }
}

} // verus!
