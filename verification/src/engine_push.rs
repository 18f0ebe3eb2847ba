//! Which engine values the UI has to be told about at the next flush. Values are
//! read at flush rather than carried, so all a write leaves behind is its address,
//! and a sweep of writes to one address leaves one.

use vstd::prelude::*;
use crate::mapping::text_of;
use crate::text::{
    compare_text, same_text, lemma_text_order_chain, lemma_text_order_equal, lemma_text_order_swap, text_order,
};

verus! {

/// How often the UI is sent what changed.
pub const FLUSH_MS: u64 = 33;

/// Who made a write. A UI write is the UI's own value on its way back.
#[derive(Clone, Copy, Debug, PartialEq, Eq, Structural)]
pub enum ParamOrigin {
    Ui,
    Midi,
}

// Cue is not a manifest param, so it cannot be addressed by slot and param the
// way the rest can. It still reaches the UI on this channel, under a slot name
// the mixer store dispatches on.
#[derive(Clone, Debug, PartialEq, Eq, PartialOrd, Ord)]
pub enum Address {
    Param(String, String, String),
    Cue(String),
    Xfader,
    XfaderAssign(String),
    Transport(String),
    Rate(String),
}

pub enum AddressView {
    Param(Seq<char>, Seq<char>, Seq<char>),
    Cue(Seq<char>),
    Xfader,
    XfaderAssign(Seq<char>),
    Transport(Seq<char>),
    Rate(Seq<char>),
}

impl View for Address {
    type V = AddressView;

    open spec fn view(&self) -> AddressView {
        match self {
            Address::Param(deck, slot, param) => AddressView::Param(deck@, slot@, param@),
            Address::Cue(deck) => AddressView::Cue(deck@),
            Address::Xfader => AddressView::Xfader,
            Address::XfaderAssign(deck) => AddressView::XfaderAssign(deck@),
            Address::Transport(deck) => AddressView::Transport(deck@),
            Address::Rate(deck) => AddressView::Rate(deck@),
        }
    }
}

/// Where an address's kind sits in the order addresses are flushed in.
pub open spec fn kind_rank(a: AddressView) -> int {
    match a {
        AddressView::Param(..) => 0,
        AddressView::Cue(..) => 1,
        AddressView::Xfader => 2,
        AddressView::XfaderAssign(..) => 3,
        AddressView::Transport(..) => 4,
        AddressView::Rate(..) => 5,
    }
}

/// The order addresses are flushed in: by kind, then deck, slot and param as text.
pub open spec fn address_order(a: AddressView, b: AddressView) -> int {
    if kind_rank(a) < kind_rank(b) {
        -1
    } else if kind_rank(a) > kind_rank(b) {
        1
    } else {
        match (a, b) {
            (AddressView::Param(d1, s1, p1), AddressView::Param(d2, s2, p2)) => if text_order(d1, d2) != 0 {
                text_order(d1, d2) as int
            } else if text_order(s1, s2) != 0 {
                text_order(s1, s2) as int
            } else {
                text_order(p1, p2) as int
            },
            (AddressView::Cue(x), AddressView::Cue(y)) => text_order(x, y) as int,
            (AddressView::XfaderAssign(x), AddressView::XfaderAssign(y)) => text_order(x, y) as int,
            (AddressView::Transport(x), AddressView::Transport(y)) => text_order(x, y) as int,
            (AddressView::Rate(x), AddressView::Rate(y)) => text_order(x, y) as int,
            _ => 0,
        }
    }
}

proof fn lemma_address_order(a: AddressView, b: AddressView, c: AddressView)
    ensures
        (address_order(a, b) == 0) == (a == b),
        address_order(a, b) == -address_order(b, a),
        address_order(a, b) < 0 && address_order(b, c) < 0 ==> address_order(a, c) < 0,
{
    match (a, b) {
        (AddressView::Param(d1, s1, p1), AddressView::Param(d2, s2, p2)) => {
            lemma_text_order_equal(d1, d2);
            lemma_text_order_equal(s1, s2);
            lemma_text_order_equal(p1, p2);
            lemma_text_order_swap(d1, d2);
            lemma_text_order_swap(s1, s2);
            lemma_text_order_swap(p1, p2);
        },
        (AddressView::Cue(x), AddressView::Cue(y)) | (AddressView::XfaderAssign(x), AddressView::XfaderAssign(y)) | (
            AddressView::Transport(x),
            AddressView::Transport(y),
        ) | (AddressView::Rate(x), AddressView::Rate(y)) => {
            lemma_text_order_equal(x, y);
            lemma_text_order_swap(x, y);
        },
        _ => {},
    }
    if address_order(a, b) < 0 && address_order(b, c) < 0 && kind_rank(a) == kind_rank(b) && kind_rank(b)
        == kind_rank(c) {
        match (a, b, c) {
            (AddressView::Param(d1, s1, p1), AddressView::Param(d2, s2, p2), AddressView::Param(d3, s3, p3)) => {
                lemma_text_order_equal(d1, d2);
                lemma_text_order_equal(d2, d3);
                lemma_text_order_equal(s1, s2);
                lemma_text_order_equal(s2, s3);
                if text_order(d1, d2) <= 0 && text_order(d2, d3) <= 0 {
                    lemma_text_order_chain(d1, d2, d3);
                }
                if text_order(s1, s2) <= 0 && text_order(s2, s3) <= 0 {
                    lemma_text_order_chain(s1, s2, s3);
                }
                if text_order(p1, p2) <= 0 && text_order(p2, p3) <= 0 {
                    lemma_text_order_chain(p1, p2, p3);
                }
            },
            (AddressView::Cue(x), AddressView::Cue(y), AddressView::Cue(z)) | (
                AddressView::XfaderAssign(x),
                AddressView::XfaderAssign(y),
                AddressView::XfaderAssign(z),
            ) | (AddressView::Transport(x), AddressView::Transport(y), AddressView::Transport(z)) | (
                AddressView::Rate(x),
                AddressView::Rate(y),
                AddressView::Rate(z),
            ) => {
                lemma_text_order_chain(x, y, z);
            },
            _ => {},
        }
    }
}

fn compare_address(a: &Address, b: &Address) -> (order: i8)
    ensures
        order as int == address_order(a@, b@),
{
    let (ra, rb) = (kind_rank_of(a), kind_rank_of(b));
    if ra < rb {
        return -1;
    }
    if ra > rb {
        return 1;
    }
    match (a, b) {
        (Address::Param(d1, s1, p1), Address::Param(d2, s2, p2)) => {
            let deck = compare_text(d1.as_str(), d2.as_str());
            if deck != 0 {
                return deck;
            }
            let slot = compare_text(s1.as_str(), s2.as_str());
            if slot != 0 {
                return slot;
            }
            compare_text(p1.as_str(), p2.as_str())
        },
        (Address::Cue(x), Address::Cue(y)) => compare_text(x.as_str(), y.as_str()),
        (Address::XfaderAssign(x), Address::XfaderAssign(y)) => compare_text(x.as_str(), y.as_str()),
        (Address::Transport(x), Address::Transport(y)) => compare_text(x.as_str(), y.as_str()),
        (Address::Rate(x), Address::Rate(y)) => compare_text(x.as_str(), y.as_str()),
        _ => 0,
    }
}

fn kind_rank_of(a: &Address) -> (rank: u8)
    ensures
        rank as int == kind_rank(a@),
{
    match a {
        Address::Param(..) => 0,
        Address::Cue(..) => 1,
        Address::Xfader => 2,
        Address::XfaderAssign(..) => 3,
        Address::Transport(..) => 4,
        Address::Rate(..) => 5,
    }
}

pub open spec fn addresses_view(addresses: Seq<Address>) -> Seq<AddressView> {
    addresses.map_values(|address: Address| address@)
}

/// Each address once, in flush order.
pub open spec fn in_flush_order(addresses: Seq<AddressView>) -> bool {
    forall|i: int, j: int|
        0 <= i < j < addresses.len() ==> address_order(#[trigger] addresses[i], #[trigger] addresses[j]) < 0
}

/// Each deck once, in text order.
pub open spec fn in_text_order(decks: Seq<Seq<char>>) -> bool {
    forall|i: int, j: int| 0 <= i < j < decks.len() ==> text_order(#[trigger] decks[i], #[trigger] decks[j]) < 0
}

pub open spec fn texts_view(texts: Seq<String>) -> Seq<Seq<char>> {
    texts.map_values(|text: String| text@)
}

/// Adds an address to a flush-ordered list unless it is there already.
fn insert_address(addresses: &mut Vec<Address>, address: Address)
    ensures
        forall|x: AddressView|
            addresses_view(final(addresses)@).contains(x) <==> (addresses_view(old(addresses)@).contains(x) || x
                == address@),
        in_flush_order(addresses_view(old(addresses)@)) ==> in_flush_order(addresses_view(final(addresses)@)),
{
    let ghost before = addresses_view(addresses@);
    let mut j: usize = 0;
    while j < addresses.len() && compare_address(&addresses[j], &address) < 0
        invariant
            j <= addresses.len(),
            before == addresses_view(addresses@),
            forall|p: int| 0 <= p < j ==> address_order(#[trigger] before[p], address@) < 0,
        decreases addresses.len() - j,
    {
        assert(before[j as int] == addresses@[j as int]@);
        j += 1;
    }
    if j < addresses.len() {
        assert(before[j as int] == addresses@[j as int]@);
        if compare_address(&addresses[j], &address) == 0 {
            proof {
                lemma_address_order(before[j as int], address@, address@);
            }
            assert(before.contains(address@));
            return;
        }
    }
    let ghost a = address@;
    addresses.insert(j, address);
    let ghost after = addresses_view(addresses@);
    assert(after =~= before.insert(j as int, a));
    assert forall|x: AddressView| after.contains(x) <==> (before.contains(x) || x == a) by {
        if after.contains(x) {
            let k = choose|k: int| 0 <= k < after.len() && after[k] == x;
            if k < j {
                assert(before[k] == x);
            } else if k > j {
                assert(before[k - 1] == x);
            }
        }
        if before.contains(x) {
            let k = choose|k: int| 0 <= k < before.len() && before[k] == x;
            if k < j {
                assert(after[k] == x);
            } else {
                assert(after[k + 1] == x);
            }
        }
        if x == a {
            assert(after[j as int] == x);
        }
    }
    proof {
        if in_flush_order(before) {
            assert forall|p: int, q: int| 0 <= p < q < after.len() implies address_order(
                #[trigger] after[p],
                #[trigger] after[q],
            ) < 0 by {
                if j < before.len() {
                    // the address found at `j` comes after the new one
                    lemma_address_order(before[j as int], a, a);
                }
                if q == j {
                    assert(after[p] == before[p]);
                } else if p == j {
                    assert(after[q] == before[q - 1]);
                    if q - 1 > j {
                        assert(address_order(before[j as int], before[q - 1]) < 0);
                        lemma_address_order(a, before[j as int], before[q - 1]);
                    }
                } else if p < j && q > j {
                    assert(after[q] == before[q - 1]);
                    assert(after[p] == before[p]);
                } else if p < j {
                    assert(after[p] == before[p]);
                    assert(after[q] == before[q]);
                } else {
                    assert(after[p] == before[p - 1]);
                    assert(after[q] == before[q - 1]);
                }
            }
        }
    }
}

/// Adds a deck to a text-ordered list unless it is there already.
fn insert_deck(decks: &mut Vec<String>, deck: &str)
    ensures
        forall|x: Seq<char>| texts_view(final(decks)@).contains(x) <==> (texts_view(old(decks)@).contains(x) || x == deck@),
        in_text_order(texts_view(old(decks)@)) ==> in_text_order(texts_view(final(decks)@)),
{
    let ghost before = texts_view(decks@);
    let mut j: usize = 0;
    while j < decks.len() && compare_text(decks[j].as_str(), deck) < 0
        invariant
            j <= decks.len(),
            before == texts_view(decks@),
            forall|p: int| 0 <= p < j ==> text_order(#[trigger] before[p], deck@) < 0,
        decreases decks.len() - j,
    {
        assert(before[j as int] == decks@[j as int]@);
        j += 1;
    }
    if j < decks.len() {
        assert(before[j as int] == decks@[j as int]@);
        if compare_text(decks[j].as_str(), deck) == 0 {
            proof {
                lemma_text_order_equal(before[j as int], deck@);
            }
            assert(before.contains(deck@));
            return;
        }
    }
    let ghost a = deck@;
    decks.insert(j, text_of(deck));
    let ghost after = texts_view(decks@);
    assert(after =~= before.insert(j as int, a));
    assert forall|x: Seq<char>| after.contains(x) <==> (before.contains(x) || x == a) by {
        if after.contains(x) {
            let k = choose|k: int| 0 <= k < after.len() && after[k] == x;
            if k < j {
                assert(before[k] == x);
            } else if k > j {
                assert(before[k - 1] == x);
            }
        }
        if before.contains(x) {
            let k = choose|k: int| 0 <= k < before.len() && before[k] == x;
            if k < j {
                assert(after[k] == x);
            } else {
                assert(after[k + 1] == x);
            }
        }
        if x == a {
            assert(after[j as int] == x);
        }
    }
    proof {
        if in_text_order(before) {
            assert forall|p: int, q: int| 0 <= p < q < after.len() implies text_order(
                #[trigger] after[p],
                #[trigger] after[q],
            ) < 0 by {
                if j < before.len() {
                    lemma_text_order_swap(before[j as int], a);
                    lemma_text_order_equal(before[j as int], a);
                }
                if q == j {
                    assert(after[p] == before[p]);
                } else if p == j {
                    assert(after[q] == before[q - 1]);
                    if q - 1 > j {
                        assert(text_order(before[j as int], before[q - 1]) < 0);
                        lemma_text_order_chain(a, before[j as int], before[q - 1]);
                    }
                } else if p < j && q > j {
                    assert(after[q] == before[q - 1]);
                    assert(after[p] == before[p]);
                } else if p < j {
                    assert(after[p] == before[p]);
                    assert(after[q] == before[q]);
                } else {
                    assert(after[p] == before[p - 1]);
                    assert(after[q] == before[q - 1]);
                }
            }
        }
    }
}

/// What the next flush has to tell the UI: the addresses written since the last
/// one, each once and in flush order, and the decks whose loop region a write
/// destroyed, each once and in text order.
pub struct Pending {
    pub dirty: Vec<Address>,
    pub loops_cleared: Vec<String>,
}

pub struct PendingView {
    pub dirty: Seq<AddressView>,
    pub loops_cleared: Seq<Seq<char>>,
}

impl View for Pending {
    type V = PendingView;

    open spec fn view(&self) -> PendingView {
        PendingView { dirty: addresses_view(self.dirty@), loops_cleared: texts_view(self.loops_cleared@) }
    }
}

impl Pending {
    pub fn new() -> (pending: Pending)
        ensures
            pending@.dirty.len() == 0,
            pending@.loops_cleared.len() == 0,
    {
        Pending { dirty: Vec::new(), loops_cleared: Vec::new() }
    }

    /// Whether a write destroyed the deck's loop region since the last flush.
    pub fn loop_cleared(&self, deck: &str) -> (cleared: bool)
        ensures
            cleared == self@.loops_cleared.contains(deck@),
    {
        let mut i: usize = 0;
        while i < self.loops_cleared.len()
            invariant
                i <= self.loops_cleared.len(),
                forall|j: int| 0 <= j < i ==> (#[trigger] self.loops_cleared@[j])@ != deck@,
            decreases self.loops_cleared.len() - i,
        {
            if same_text(self.loops_cleared[i].as_str(), deck) {
                assert(self@.loops_cleared[i as int] == deck@);
                return true;
            }
            i += 1;
        }
        assert forall|j: int| 0 <= j < self@.loops_cleared.len() implies self@.loops_cleared[j] != deck@ by {
            assert(self@.loops_cleared[j] == self.loops_cleared@[j]@);
        }
        false
    }
}

/// One batch of marks between flushes. One owner over both lists, so a mark
/// cannot land its cleared flag in the batch that its address misses.
pub struct EnginePush {
    pending: Pending,
}

impl View for EnginePush {
    type V = PendingView;

    closed spec fn view(&self) -> PendingView {
        self.pending@
    }
}

pub open spec fn marked(before: Seq<AddressView>, after: Seq<AddressView>, origin: ParamOrigin, address: AddressView) -> bool {
    forall|x: AddressView|
        #[trigger] after.contains(x) <==> (before.contains(x) || (origin != ParamOrigin::Ui && x == address))
}

/// One mark as the batch sees it: who wrote, the address written, and, for a
/// transport press, whether it destroyed the deck's loop region.
pub struct MarkView {
    pub origin: ParamOrigin,
    pub address: AddressView,
    pub cleared: bool,
}

/// What one mark does to the batch: a non-UI write adds its address, and a non-UI
/// transport press that destroyed its loop region adds its deck.
pub open spec fn mark_step(before: PendingView, after: PendingView, mark: MarkView) -> bool {
    &&& marked(before.dirty, after.dirty, mark.origin, mark.address)
    &&& forall|x: Seq<char>|
        #[trigger] after.loops_cleared.contains(x) <==> (before.loops_cleared.contains(x) || (mark.origin
            != ParamOrigin::Ui && mark.cleared && mark.address == AddressView::Transport(x)))
}

/// Some non-UI mark of the run wrote `address`.
pub open spec fn written_by(marks: Seq<MarkView>, address: AddressView) -> bool {
    exists|i: int| 0 <= i < marks.len() && (#[trigger] marks[i]).origin != ParamOrigin::Ui && marks[i].address == address
}

/// Some non-UI transport press of the run destroyed `deck`'s loop region.
pub open spec fn cleared_by(marks: Seq<MarkView>, deck: Seq<char>) -> bool {
    exists|i: int|
        0 <= i < marks.len() && (#[trigger] marks[i]).origin != ParamOrigin::Ui && marks[i].cleared
            && marks[i].address == AddressView::Transport(deck)
}

impl EnginePush {
    #[verifier::type_invariant]
    closed spec fn ordered(&self) -> bool {
        &&& in_flush_order(self.pending@.dirty)
        &&& in_text_order(self.pending@.loops_cleared)
    }

    pub fn new() -> (push: EnginePush)
        ensures
            push@.dirty.len() == 0,
            push@.loops_cleared.len() == 0,
    {
        EnginePush { pending: Pending::new() }
    }

    /// A UI write is the UI's own value on its way back, so sending it invites
    /// the control under the pointer to jump to a value it has already left.
    fn insert(&mut self, origin: ParamOrigin, address: Address)
        ensures
            marked(old(self)@.dirty, final(self)@.dirty, origin, address@),
            final(self)@.loops_cleared == old(self)@.loops_cleared,
    {
        if origin == ParamOrigin::Ui {
            return;
        }
        let mut current = EnginePush::new();
        std::mem::swap(&mut current, self);
        proof {
            use_type_invariant(&current);
        }
        let EnginePush { pending } = current;
        let Pending { mut dirty, loops_cleared } = pending;
        insert_address(&mut dirty, address);
        *self = EnginePush { pending: Pending { dirty, loops_cleared } };
    }

    pub fn mark(&mut self, origin: ParamOrigin, deck: &str, slot: &str, param: &str)
        ensures
            marked(old(self)@.dirty, final(self)@.dirty, origin, AddressView::Param(deck@, slot@, param@)),
            final(self)@.loops_cleared == old(self)@.loops_cleared,
            mark_step(
                old(self)@,
                final(self)@,
                MarkView { origin, address: AddressView::Param(deck@, slot@, param@), cleared: false },
            ),
    {
        self.insert(origin, Address::Param(text_of(deck), text_of(slot), text_of(param)));
    }

    pub fn mark_cue(&mut self, origin: ParamOrigin, deck: &str)
        ensures
            marked(old(self)@.dirty, final(self)@.dirty, origin, AddressView::Cue(deck@)),
            final(self)@.loops_cleared == old(self)@.loops_cleared,
            mark_step(old(self)@, final(self)@, MarkView { origin, address: AddressView::Cue(deck@), cleared: false }),
    {
        self.insert(origin, Address::Cue(text_of(deck)));
    }

    pub fn mark_xfader(&mut self, origin: ParamOrigin)
        ensures
            marked(old(self)@.dirty, final(self)@.dirty, origin, AddressView::Xfader),
            final(self)@.loops_cleared == old(self)@.loops_cleared,
            mark_step(old(self)@, final(self)@, MarkView { origin, address: AddressView::Xfader, cleared: false }),
    {
        self.insert(origin, Address::Xfader);
    }

    pub fn mark_xfader_assign(&mut self, origin: ParamOrigin, deck: &str)
        ensures
            marked(old(self)@.dirty, final(self)@.dirty, origin, AddressView::XfaderAssign(deck@)),
            final(self)@.loops_cleared == old(self)@.loops_cleared,
            mark_step(
                old(self)@,
                final(self)@,
                MarkView { origin, address: AddressView::XfaderAssign(deck@), cleared: false },
            ),
    {
        self.insert(origin, Address::XfaderAssign(text_of(deck)));
    }

    /// Whether the loop region was destroyed is a fact about the press rather
    /// than about the deck's current state, so it is the one thing here that
    /// cannot be read at flush and has to be carried.
    pub fn mark_transport(&mut self, origin: ParamOrigin, deck: &str, loop_region_cleared: bool)
        ensures
            marked(old(self)@.dirty, final(self)@.dirty, origin, AddressView::Transport(deck@)),
            forall|x: Seq<char>|
                #[trigger] final(self)@.loops_cleared.contains(x) <==> (old(self)@.loops_cleared.contains(x) || (
                loop_region_cleared && origin != ParamOrigin::Ui && x == deck@)),
            mark_step(
                old(self)@,
                final(self)@,
                MarkView { origin, address: AddressView::Transport(deck@), cleared: loop_region_cleared },
            ),
    {
        if loop_region_cleared && origin != ParamOrigin::Ui {
            let mut current = EnginePush::new();
            std::mem::swap(&mut current, self);
            proof {
                use_type_invariant(&current);
            }
            let EnginePush { pending } = current;
            let Pending { dirty, mut loops_cleared } = pending;
            insert_deck(&mut loops_cleared, deck);
            *self = EnginePush { pending: Pending { dirty, loops_cleared } };
        }
        self.insert(origin, Address::Transport(text_of(deck)));
    }

    pub fn mark_rate(&mut self, origin: ParamOrigin, deck: &str)
        ensures
            marked(old(self)@.dirty, final(self)@.dirty, origin, AddressView::Rate(deck@)),
            final(self)@.loops_cleared == old(self)@.loops_cleared,
            mark_step(old(self)@, final(self)@, MarkView { origin, address: AddressView::Rate(deck@), cleared: false }),
    {
        self.insert(origin, Address::Rate(text_of(deck)));
    }

    /// The batch so far, leaving the next one empty.
    pub fn take(&mut self) -> (taken: Pending)
        ensures
            taken@ == old(self)@,
            in_flush_order(taken@.dirty),
            in_text_order(taken@.loops_cleared),
            final(self)@.dirty.len() == 0,
            final(self)@.loops_cleared.len() == 0,
    {
        let mut current = EnginePush::new();
        std::mem::swap(&mut current, self);
        proof {
            use_type_invariant(&current);
        }
        let EnginePush { pending } = current;
        pending
    }
}

proof fn lemma_flush_order_unique(addresses: Seq<AddressView>)
    requires
        in_flush_order(addresses),
    ensures
        addresses.no_duplicates(),
        addresses.len() == addresses.to_set().len(),
{
    assert forall|i: int, j: int| 0 <= i < addresses.len() && 0 <= j < addresses.len() && i != j implies addresses[i]
        != addresses[j] by {
        lemma_address_order(addresses[i], addresses[j], addresses[j]);
        lemma_address_order(addresses[j], addresses[i], addresses[i]);
    }
    addresses.unique_seq_to_set();
}

/// A write the UI made itself never reaches the batch.
pub proof fn law_a_ui_write_is_never_pushed_back(before: Seq<AddressView>, after: Seq<AddressView>, address: AddressView)
    requires
        in_flush_order(before),
        in_flush_order(after),
        marked(before, after, ParamOrigin::Ui, address),
    ensures
        after == before,
{
    lemma_flush_order_unique(before);
    lemma_flush_order_unique(after);
    lemma_flush_order_equal(before, after);
}

/// Two batches in flush order holding the same addresses are the same batch.
proof fn lemma_flush_order_equal(a: Seq<AddressView>, b: Seq<AddressView>)
    requires
        in_flush_order(a),
        in_flush_order(b),
        forall|x: AddressView| a.contains(x) <==> b.contains(x),
    ensures
        a == b,
    decreases a.len(),
{
    if a.len() == 0 {
        if b.len() > 0 {
            assert(b.contains(b[0]));
        }
        assert(a =~= b);
    } else {
        assert(a.contains(a[0]));
        assert(b.contains(a[0]));
        assert(b.len() > 0);
        assert(b.contains(b[0]));
        assert(a.contains(b[0]));
        // the least address of each is the least of both
        let i = choose|i: int| 0 <= i < a.len() && a[i] == b[0];
        let j = choose|j: int| 0 <= j < b.len() && b[j] == a[0];
        if i > 0 {
            assert(address_order(a[0], a[i]) < 0);
            if j > 0 {
                assert(address_order(b[0], b[j]) < 0);
                lemma_address_order(a[0], b[0], a[0]);
            } else {
                lemma_address_order(a[0], a[0], a[0]);
            }
        }
        if j > 0 && i == 0 {
            lemma_address_order(b[0], b[0], b[0]);
        }
        assert(a[0] == b[0]);
        let (ra, rb) = (a.drop_first(), b.drop_first());
        assert forall|x: AddressView| ra.contains(x) <==> rb.contains(x) by {
            if ra.contains(x) {
                let k = choose|k: int| 0 <= k < ra.len() && ra[k] == x;
                assert(a[k + 1] == x);
                assert(address_order(a[0], x) < 0);
                lemma_address_order(a[0], x, x);
                assert(b.contains(x));
                let m = choose|m: int| 0 <= m < b.len() && b[m] == x;
                assert(m != 0);
                assert(rb[m - 1] == x);
            }
            if rb.contains(x) {
                let k = choose|k: int| 0 <= k < rb.len() && rb[k] == x;
                assert(b[k + 1] == x);
                assert(address_order(b[0], x) < 0);
                lemma_address_order(b[0], x, x);
                assert(a.contains(x));
                let m = choose|m: int| 0 <= m < a.len() && a[m] == x;
                assert(m != 0);
                assert(ra[m - 1] == x);
            }
        }
        assert forall|p: int, q: int| 0 <= p < q < ra.len() implies address_order(#[trigger] ra[p], #[trigger] ra[q]) < 0 by {
            assert(ra[p] == a[p + 1] && ra[q] == a[q + 1]);
        }
        assert forall|p: int, q: int| 0 <= p < q < rb.len() implies address_order(#[trigger] rb[p], #[trigger] rb[q]) < 0 by {
            assert(rb[p] == b[p + 1] && rb[q] == b[q + 1]);
        }
        lemma_flush_order_equal(ra, rb);
        assert(a =~= seq![a[0]] + ra);
        assert(b =~= seq![b[0]] + rb);
    }
}

/// Marking an address already waiting leaves the batch as it was, so a controller
/// sweeping a knob during one flush period costs one message, not one per tick;
/// a new address lengthens it by one.
pub proof fn law_repeated_writes_to_one_address_collapse(
    before: Seq<AddressView>,
    after: Seq<AddressView>,
    origin: ParamOrigin,
    address: AddressView,
)
    requires
        in_flush_order(before),
        in_flush_order(after),
        marked(before, after, origin, address),
    ensures
        before.contains(address) ==> after == before,
        !before.contains(address) && origin != ParamOrigin::Ui ==> after.len() == before.len() + 1,
{
    lemma_flush_order_unique(before);
    lemma_flush_order_unique(after);
    if before.contains(address) || origin == ParamOrigin::Ui {
        lemma_flush_order_equal(before, after);
    } else {
        assert(after.to_set() =~= before.to_set().insert(address));
    }
}

/// What a take hands over after any run of marks since the batch was last empty:
/// every address a non-UI mark wrote, each once, and every deck whose loop region
/// a non-UI transport press destroyed; a UI write leaves no trace.
pub proof fn law_a_batch_holds_what_its_marks_wrote(batches: Seq<PendingView>, marks: Seq<MarkView>)
    requires
        batches.len() == marks.len() + 1,
        batches[0].dirty.len() == 0,
        batches[0].loops_cleared.len() == 0,
        forall|i: int| 0 <= i < marks.len() ==> mark_step(batches[i], batches[i + 1], #[trigger] marks[i]),
    ensures
        forall|x: AddressView| #[trigger] batches.last().dirty.contains(x) <==> written_by(marks, x),
        forall|d: Seq<char>| #[trigger] batches.last().loops_cleared.contains(d) <==> cleared_by(marks, d),
        in_flush_order(batches.last().dirty) ==> batches.last().dirty.no_duplicates(),
    decreases marks.len(),
{
    if in_flush_order(batches.last().dirty) {
        lemma_flush_order_unique(batches.last().dirty);
    }
    if marks.len() == 0 {
        assert forall|x: AddressView| !batches.last().dirty.contains(x) by {}
        assert forall|d: Seq<char>| !batches.last().loops_cleared.contains(d) by {}
    } else {
        let n = marks.len() - 1;
        let pb = batches.drop_last();
        let pm = marks.drop_last();
        assert forall|i: int| 0 <= i < pm.len() implies mark_step(pb[i], pb[i + 1], #[trigger] pm[i]) by {
            assert(pm[i] == marks[i]);
            assert(mark_step(batches[i], batches[i + 1], marks[i]));
        }
        law_a_batch_holds_what_its_marks_wrote(pb, pm);
        let last = marks[n];
        assert(mark_step(batches[n], batches[n + 1], marks[n]));
        assert(pb.last() == batches[n]);
        assert(batches.last() == batches[n + 1]);
        assert forall|x: AddressView| #[trigger] batches.last().dirty.contains(x) <==> written_by(marks, x) by {
            if written_by(pm, x) {
                let i = choose|i: int| 0 <= i < pm.len() && (#[trigger] pm[i]).origin != ParamOrigin::Ui && pm[i].address == x;
                assert(marks[i] == pm[i]);
            }
            if written_by(marks, x) {
                let i = choose|i: int|
                    0 <= i < marks.len() && (#[trigger] marks[i]).origin != ParamOrigin::Ui && marks[i].address == x;
                if i < n {
                    assert(pm[i] == marks[i]);
                }
            }
        }
        assert forall|d: Seq<char>| #[trigger] batches.last().loops_cleared.contains(d) <==> cleared_by(marks, d) by {
            if cleared_by(pm, d) {
                let i = choose|i: int|
                    0 <= i < pm.len() && (#[trigger] pm[i]).origin != ParamOrigin::Ui && pm[i].cleared && pm[i].address
                        == AddressView::Transport(d);
                assert(marks[i] == pm[i]);
            }
            if cleared_by(marks, d) {
                let i = choose|i: int|
                    0 <= i < marks.len() && (#[trigger] marks[i]).origin != ParamOrigin::Ui && marks[i].cleared
                        && marks[i].address == AddressView::Transport(d);
                if i < n {
                    assert(pm[i] == marks[i]);
                }
            }
        }
    }
}

/// Where an address's value reaches the UI: as a param change, as a deck's
/// transport, or as a deck's rate.
pub open spec fn is_param_change(address: AddressView) -> bool {
    match address {
        AddressView::Transport(..) | AddressView::Rate(..) => false,
        _ => true,
    }
}

/// The deck, slot and param a param change is labelled with. Cue is not a
/// manifest param, and the crossfader has master scope, so an empty deck is what
/// tells it from a deck's assign.
pub open spec fn change_label(address: AddressView) -> (Seq<char>, Seq<char>, Seq<char>) {
    match address {
        AddressView::Param(deck, slot, param) => (deck, slot, param),
        AddressView::Cue(deck) => (deck, "cue"@, "active"@),
        AddressView::Xfader => (Seq::empty(), "xfader"@, "position"@),
        AddressView::XfaderAssign(deck) => (deck, "xfader"@, "assign"@),
        AddressView::Transport(deck) => (deck, Seq::empty(), Seq::empty()),
        AddressView::Rate(deck) => (deck, Seq::empty(), Seq::empty()),
    }
}

pub open spec fn transport_deck(address: AddressView) -> Option<Seq<char>> {
    match address {
        AddressView::Transport(deck) => Some(deck),
        _ => None,
    }
}

pub open spec fn rate_deck(address: AddressView) -> Option<Seq<char>> {
    match address {
        AddressView::Rate(deck) => Some(deck),
        _ => None,
    }
}

/// What one flush sends, before the values are read: the param changes by
/// label, the decks whose transport changed with whether a write destroyed their
/// loop region, and the decks whose rate changed, each in flush order.
pub struct Flush {
    pub params: Vec<(String, String, String)>,
    pub transport: Vec<(String, bool)>,
    pub rates: Vec<String>,
}

pub open spec fn labels_view(labels: Seq<(String, String, String)>) -> Seq<(Seq<char>, Seq<char>, Seq<char>)> {
    labels.map_values(|label: (String, String, String)| (label.0@, label.1@, label.2@))
}

pub open spec fn transport_view(transport: Seq<(String, bool)>) -> Seq<(Seq<char>, bool)> {
    transport.map_values(|entry: (String, bool)| (entry.0@, entry.1))
}

/// The param changes a batch sends, in flush order.
pub open spec fn param_changes(dirty: Seq<AddressView>) -> Seq<(Seq<char>, Seq<char>, Seq<char>)>
    decreases dirty.len(),
{
    if dirty.len() == 0 {
        Seq::empty()
    } else if is_param_change(dirty.last()) {
        param_changes(dirty.drop_last()).push(change_label(dirty.last()))
    } else {
        param_changes(dirty.drop_last())
    }
}

/// The transport changes a batch sends, in flush order.
pub open spec fn transport_changes(dirty: Seq<AddressView>, cleared: Seq<Seq<char>>) -> Seq<(Seq<char>, bool)>
    decreases dirty.len(),
{
    if dirty.len() == 0 {
        Seq::empty()
    } else {
        match transport_deck(dirty.last()) {
            Some(deck) => transport_changes(dirty.drop_last(), cleared).push((deck, cleared.contains(deck))),
            None => transport_changes(dirty.drop_last(), cleared),
        }
    }
}

/// The rate changes a batch sends, in flush order.
pub open spec fn rate_changes(dirty: Seq<AddressView>) -> Seq<Seq<char>>
    decreases dirty.len(),
{
    if dirty.len() == 0 {
        Seq::empty()
    } else {
        match rate_deck(dirty.last()) {
            Some(deck) => rate_changes(dirty.drop_last()).push(deck),
            None => rate_changes(dirty.drop_last()),
        }
    }
}

fn label_of(address: &Address) -> (label: (String, String, String))
    ensures
        (label.0@, label.1@, label.2@) == change_label(address@),
{
    proof {
        reveal_strlit("cue");
        reveal_strlit("active");
        reveal_strlit("xfader");
        reveal_strlit("position");
        reveal_strlit("assign");
        reveal_strlit("");
    }
    match address {
        Address::Param(deck, slot, param) => (deck.clone(), slot.clone(), param.clone()),
        Address::Cue(deck) => (deck.clone(), text_of("cue"), text_of("active")),
        Address::Xfader => (text_of(""), text_of("xfader"), text_of("position")),
        Address::XfaderAssign(deck) => (deck.clone(), text_of("xfader"), text_of("assign")),
        Address::Transport(deck) => (deck.clone(), text_of(""), text_of("")),
        Address::Rate(deck) => (deck.clone(), text_of(""), text_of("")),
    }
}

/// Sorts a batch into the three events a flush sends. Values are read at flush
/// rather than carried, so a push can never carry a value that a later write has
/// already replaced; a destroyed loop region is the one fact carried.
pub fn plan_flush(pending: &Pending) -> (flush: Flush)
    ensures
        labels_view(flush.params@) == param_changes(pending@.dirty),
        transport_view(flush.transport@) == transport_changes(pending@.dirty, pending@.loops_cleared),
        texts_view(flush.rates@) == rate_changes(pending@.dirty),
{
    let ghost dirty = pending@.dirty;
    let mut params: Vec<(String, String, String)> = Vec::new();
    let mut transport: Vec<(String, bool)> = Vec::new();
    let mut rates: Vec<String> = Vec::new();
    let mut i: usize = 0;
    assert(dirty.take(0) =~= Seq::<AddressView>::empty());
    while i < pending.dirty.len()
        invariant
            i <= pending.dirty.len(),
            dirty == pending@.dirty,
            labels_view(params@) == param_changes(dirty.take(i as int)),
            transport_view(transport@) == transport_changes(dirty.take(i as int), pending@.loops_cleared),
            texts_view(rates@) == rate_changes(dirty.take(i as int)),
        decreases pending.dirty.len() - i,
    {
        let address = &pending.dirty[i];
        assert(dirty[i as int] == address@);
        assert(dirty.take(i + 1).drop_last() =~= dirty.take(i as int));
        assert(dirty.take(i + 1).last() == address@);
        let ghost (before_params, before_transport, before_rates) = (
            labels_view(params@),
            transport_view(transport@),
            texts_view(rates@),
        );
        match address {
            Address::Transport(deck) => {
                let cleared = pending.loop_cleared(deck.as_str());
                transport.push((deck.clone(), cleared));
                assert(transport_view(transport@) =~= before_transport.push((deck@, cleared)));
            },
            Address::Rate(deck) => {
                rates.push(deck.clone());
                assert(texts_view(rates@) =~= before_rates.push(deck@));
            },
            _ => {
                let label = label_of(address);
                params.push(label);
                assert(labels_view(params@) =~= before_params.push(change_label(address@)));
            },
        }
        i += 1;
    }
    assert(dirty.take(i as int) =~= dirty);
    Flush { params, transport, rates }
}

} // verus!
