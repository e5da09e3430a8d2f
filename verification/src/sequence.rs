//! The note store: notes under stable identities, with an index of their
//! start ticks that answers range queries by binary search.

use crate::pitch::Pitch;
use slotmap::{DefaultKey, Key, KeyData, SlotMap};
use vstd::prelude::*;

verus! {

/// The stable identity of a note in a [`Sequence`]. It stays valid, and keeps
/// naming the same note, however many other notes are added or removed.
#[derive(Clone, Copy, Debug, PartialEq, Eq, Structural)]
pub struct NoteId {
    raw: u64,
}

impl NoteId {
    /// Every identity is the 64-bit form of a key that the slot map gave
    /// out, and those carry an odd version in their upper half.
    #[verifier::type_invariant]
    pub closed spec fn well_formed(self) -> bool {
        (self.raw / 0x1_0000_0000) % 2 == 1
    }

    /// The identity as one integer; identities are ordered by it.
    pub closed spec fn spec_raw(self) -> u64 {
        self.raw
    }

    /// The identity as one integer.
    pub fn raw(&self) -> (r: u64)
        ensures
            r == self.spec_raw(),
    {
        self.raw
    }
}

/// A note: where it starts, how high it sounds and how long it lasts.
#[derive(Clone, Copy, Debug, PartialEq, Eq, Structural)]
pub struct Note {
    pub tick: i32,
    pub pitch: Pitch,
    pub length: i32,
}

impl Note {
    /// The first tick after the note, as a mathematical integer.
    pub open spec fn spec_end_tick(self) -> int {
        self.tick + self.length
    }

    /// The first tick after the note.
    pub fn end_tick(&self) -> (end: i32)
        requires
            i32::MIN <= self.spec_end_tick() <= i32::MAX,
        ensures
            end == self.spec_end_tick(),
    {
        self.tick + self.length
    }
}

/// A `slotmap::SlotMap` of notes. Nothing inside it is visible to proofs;
/// what it holds is known only through [`slot_notes`].
#[verifier::external_body]
#[derive(Debug)]
pub struct NoteSlots {
    slots: SlotMap<DefaultKey, Note>,
}

/// The notes that a slot map holds, each under the identity that stands for
/// its key: the key's 64-bit form as `KeyData::as_ffi` gives it.
pub uninterp spec fn slot_notes(slots: NoteSlots) -> Map<NoteId, Note>;

/// Most notes that a slot map can hold at a time.
pub const MAX_NOTES: usize = 0xffff_fffe;

/// Calls `SlotMap::with_key`. The contract claims that the new map is empty.
#[verifier::external_body]
fn slots_new() -> (slots: NoteSlots)
    ensures
        slot_notes(slots).dom() == Set::<NoteId>::empty(),
{
    NoteSlots { slots: SlotMap::with_key() }
}

/// Calls `SlotMap::insert` and turns the new key into an identity with
/// `KeyData::as_ffi`. The contract claims that the note is stored under a
/// key that named nothing in the map before, and that nothing else changes.
/// `insert` panics on a full map, which holds `MAX_NOTES` values.
#[verifier::external_body]
fn slots_insert(slots: &mut NoteSlots, note: Note) -> (id: NoteId)
    requires
        slot_notes(*old(slots)).dom().finite(),
        slot_notes(*old(slots)).dom().len() < MAX_NOTES,
    ensures
        !slot_notes(*old(slots)).contains_key(id),
        slot_notes(*final(slots)) == slot_notes(*old(slots)).insert(id, note),
{
    NoteId { raw: slots.slots.insert(note).data().as_ffi() }
}

/// Calls `SlotMap::remove` on the key that `KeyData::from_ffi` makes of the
/// identity. The contract claims that the note under the key leaves the map
/// and is handed back, and that a key which names nothing leaves the map
/// untouched and gives `None`.
#[verifier::external_body]
fn slots_remove(slots: &mut NoteSlots, id: NoteId) -> (removed: Option<Note>)
    ensures
        slot_notes(*final(slots)) == slot_notes(*old(slots)).remove(id),
        removed == (if slot_notes(*old(slots)).contains_key(id) {
            Some(slot_notes(*old(slots))[id])
        } else {
            None
        }),
{
    slots.slots.remove(DefaultKey::from(KeyData::from_ffi(id.raw)))
}

/// Calls `SlotMap::get` on the key that `KeyData::from_ffi` makes of the
/// identity. The contract claims that it finds the note stored under the
/// key, and `None` for a key that names nothing.
#[verifier::external_body]
fn slots_get(slots: &NoteSlots, id: NoteId) -> (found: Option<&Note>)
    ensures
        found == (if slot_notes(*slots).contains_key(id) {
            Some(&slot_notes(*slots)[id])
        } else {
            None
        }),
{
    slots.slots.get(DefaultKey::from(KeyData::from_ffi(id.raw)))
}

/// Calls `SlotMap::get_mut` on the key that `KeyData::from_ffi` makes of the
/// identity, and writes the note through the reference it gives. The
/// contract claims that the note under the key is replaced, and that a key
/// which names nothing leaves the map untouched.
#[verifier::external_body]
fn slots_replace(slots: &mut NoteSlots, id: NoteId, note: Note)
    ensures
        slot_notes(*final(slots)) == (if slot_notes(*old(slots)).contains_key(id) {
            slot_notes(*old(slots)).insert(id, note)
        } else {
            slot_notes(*old(slots))
        }),
{
    if let Some(slot) = slots.slots.get_mut(DefaultKey::from(KeyData::from_ffi(id.raw))) {
        *slot = note;
    }
}

/// A change to a [`Sequence`].
#[derive(Clone, Copy, Debug, PartialEq, Eq, Structural)]
pub enum SequenceChange {
    /// Store a new note.
    Add(Note),
    /// Drop the note of this identity.
    Remove(NoteId),
    /// Replace the note of this identity.
    Update(NoteId, Note),
}

/// Entries of the start index are ordered by tick, and by identity among
/// equal ticks.
pub open spec fn key_lt(tick_a: int, raw_a: u64, tick_b: int, raw_b: u64) -> bool {
    tick_a < tick_b || (tick_a == tick_b && raw_a < raw_b)
}

/// The order of [`key_lt`] on index entries.
pub open spec fn entry_lt(a: (i32, NoteId), b: (i32, NoteId)) -> bool {
    key_lt(a.0 as int, a.1.spec_raw(), b.0 as int, b.1.spec_raw())
}

/// True when the entries ascend strictly.
pub open spec fn ascending(index: Seq<(i32, NoteId)>) -> bool {
    forall|i: int, j: int|
        0 <= i < j < index.len() ==> entry_lt(#[trigger] index[i], #[trigger] index[j])
}

/// The entry stands below the key `(tick, raw)`.
pub open spec fn entry_below(entry: (i32, NoteId), tick: int, raw: u64) -> bool {
    key_lt(entry.0 as int, entry.1.spec_raw(), tick, raw)
}

/// The first position whose entry is not below `(tick, raw)`.
fn lower_bound(index: &Vec<(i32, NoteId)>, tick: i64, raw: u64) -> (pos: usize)
    requires
        ascending(index@),
    ensures
        pos <= index.len(),
        forall|i: int| 0 <= i < pos ==> entry_below(#[trigger] index[i], tick as int, raw),
        forall|i: int|
            pos <= i < index.len() ==> !entry_below(#[trigger] index[i], tick as int, raw),
{
    let mut lo: usize = 0;
    let mut hi: usize = index.len();
    while lo < hi
        invariant
            0 <= lo <= hi <= index.len(),
            ascending(index@),
            forall|i: int| 0 <= i < lo ==> entry_below(#[trigger] index[i], tick as int, raw),
            forall|i: int|
                hi <= i < index.len() ==> !entry_below(#[trigger] index[i], tick as int, raw),
        decreases hi - lo,
    {
        let mid: usize = lo + (hi - lo) / 2;
        let entry = index[mid];
        let entry_tick: i64 = entry.0 as i64;
        if entry_tick < tick || (entry_tick == tick && entry.1.raw() < raw) {
            assert forall|i: int| 0 <= i < mid + 1 implies entry_below(
                #[trigger] index[i],
                tick as int,
                raw,
            ) by {
                if i < mid {
                    assert(entry_lt(index[i], index[mid as int]));
                }
            }
            lo = mid + 1;
        } else {
            assert forall|i: int| mid <= i < index.len() implies !entry_below(
                #[trigger] index[i],
                tick as int,
                raw,
            ) by {
                if mid < i {
                    assert(entry_lt(index[mid as int], index[i]));
                }
            }
            hi = mid;
        }
    }
    lo
}

/// Notes under stable identities. Beside the notes it keeps an index of
/// `(start tick, identity)` entries in ascending order, one for each note.
#[derive(Debug)]
pub struct Sequence {
    slotmap: NoteSlots,
    last_added: Option<NoteId>,
    note_starts: Vec<(i32, NoteId)>,
}

impl View for Sequence {
    type V = Map<NoteId, Note>;

    /// The live notes, each under its identity.
    closed spec fn view(&self) -> Map<NoteId, Note> {
        slot_notes(self.slotmap)
    }
}

/// What a change makes of the notes `before`, where `last` is the identity
/// that the sequence reports as last added once the change is made.
pub open spec fn change_result(
    before: Map<NoteId, Note>,
    change: SequenceChange,
    last: Option<NoteId>,
) -> Map<NoteId, Note> {
    match change {
        SequenceChange::Add(note) => match last {
            Some(id) => before.insert(id, note),
            None => before,
        },
        SequenceChange::Remove(id) => before.remove(id),
        SequenceChange::Update(id, note) => if before.contains_key(id) {
            before.insert(id, note)
        } else {
            before
        },
    }
}

/// Which identity a sequence reports as last added after a change: the fresh
/// identity of an added note, and otherwise the one it reported before.
pub open spec fn change_last(
    before: Map<NoteId, Note>,
    last_before: Option<NoteId>,
    change: SequenceChange,
    last: Option<NoteId>,
) -> bool {
    match change {
        SequenceChange::Add(_) => last is Some && !before.contains_key(last->0),
        _ => last == last_before,
    }
}

/// The order in which notes are listed: by start tick, then by identity.
pub open spec fn listed_lt(a: (NoteId, Note), b: (NoteId, Note)) -> bool {
    key_lt(a.1.tick as int, a.0.spec_raw(), b.1.tick as int, b.0.spec_raw())
}

/// `list` is the listing of the notes that start at a tick from `start` up
/// to, not including, `end`: it holds each such note of `notes` with its
/// identity, holds nothing else, and ascends strictly, so that no note
/// occurs twice. There is one such listing.
pub open spec fn lists_range(
    list: Seq<(NoteId, Note)>,
    notes: Map<NoteId, Note>,
    start: int,
    end: int,
) -> bool {
    &&& forall|k: int|
        0 <= k < list.len() ==> notes.contains_key((#[trigger] list[k]).0) && notes[list[k].0]
            == list[k].1 && start <= list[k].1.tick < end
    &&& forall|id: NoteId|
        notes.contains_key(id) && start <= (#[trigger] notes[id]).tick < end ==> exists|k: int|
            0 <= k < list.len() && (#[trigger] list[k]).0 == id
    &&& forall|j: int, k: int|
        0 <= j < k < list.len() ==> listed_lt(#[trigger] list[j], #[trigger] list[k])
}

/// The one listing of the notes that start at a tick from `start` up to,
/// not including, `end`.
pub open spec fn listing(notes: Map<NoteId, Note>, start: int, end: int) -> Seq<(NoteId, Note)> {
    choose|list: Seq<(NoteId, Note)>| lists_range(list, notes, start, end)
}

/// Two listings of one range agree up to the shorter one's end.
proof fn lemma_listing_prefix(
    a: Seq<(NoteId, Note)>,
    b: Seq<(NoteId, Note)>,
    notes: Map<NoteId, Note>,
    start: int,
    end: int,
    upto: int,
)
    requires
        lists_range(a, notes, start, end),
        lists_range(b, notes, start, end),
        0 <= upto <= a.len(),
        upto <= b.len(),
    ensures
        forall|i: int| 0 <= i < upto ==> a[i] == b[i],
    decreases upto,
{
    if upto > 0 {
        lemma_listing_prefix(a, b, notes, start, end, upto - 1);
        let i = upto - 1;
        // where a[i] stands in b, and where b[i] stands in a
        assert(notes.contains_key(a[i].0));
        assert(notes[a[i].0] == a[i].1);
        let k = choose|k: int| 0 <= k < b.len() && (#[trigger] b[k]).0 == a[i].0;
        assert(notes.contains_key(b[k].0));
        assert(b[k] == a[i]);
        assert(notes.contains_key(b[i].0));
        assert(notes[b[i].0] == b[i].1);
        let m = choose|m: int| 0 <= m < a.len() && (#[trigger] a[m]).0 == b[i].0;
        assert(notes.contains_key(a[m].0));
        assert(a[m] == b[i]);
        if k < i {
            assert(a[k] == b[k]);
            assert(listed_lt(a[k], a[i]));
        } else if k > i {
            assert(listed_lt(b[i], b[k]));
            if m < i {
                assert(a[m] == b[m]);
                assert(listed_lt(b[m], b[i]));
            } else if m > i {
                assert(listed_lt(a[i], a[m]));
            }
        }
    }
}

/// A range has one listing only.
pub proof fn lemma_listing_unique(
    a: Seq<(NoteId, Note)>,
    b: Seq<(NoteId, Note)>,
    notes: Map<NoteId, Note>,
    start: int,
    end: int,
)
    requires
        lists_range(a, notes, start, end),
    ensures
        lists_range(b, notes, start, end) ==> a == b,
        listing(notes, start, end) == a,
{
    assert forall|c: Seq<(NoteId, Note)>| lists_range(c, notes, start, end) implies a == c by {
        let upto = if a.len() <= c.len() { a.len() as int } else { c.len() as int };
        lemma_listing_prefix(a, c, notes, start, end, upto);
        if a.len() < c.len() {
            let extra = c[a.len() as int];
            assert(notes.contains_key(extra.0));
            assert(notes[extra.0] == extra.1);
            let m = choose|m: int| 0 <= m < a.len() && (#[trigger] a[m]).0 == extra.0;
            assert(notes.contains_key(a[m].0));
            assert(c[m] == extra);
            assert(listed_lt(c[m], c[a.len() as int]));
        } else if c.len() < a.len() {
            let extra = a[c.len() as int];
            assert(notes.contains_key(extra.0));
            assert(notes[extra.0] == extra.1);
            let m = choose|m: int| 0 <= m < c.len() && (#[trigger] c[m]).0 == extra.0;
            assert(notes.contains_key(c[m].0));
            assert(a[m] == extra);
            assert(listed_lt(a[m], a[c.len() as int]));
        }
        assert(a =~= c);
    }
    let chosen = listing(notes, start, end);
    assert(lists_range(chosen, notes, start, end));
}

/// A store and a start index agree: the index ascends, each of its entries
/// names a live note by that note's own start tick, and each live note has
/// its entry.
pub open spec fn agree(notes: Map<NoteId, Note>, index: Seq<(i32, NoteId)>) -> bool {
    &&& notes.dom().finite()
    &&& index.len() == notes.dom().len()
    &&& ascending(index)
    &&& forall|i: int|
        0 <= i < index.len() ==> notes.contains_key((#[trigger] index[i]).1)
            && notes[index[i].1].tick == index[i].0
    &&& forall|id: NoteId| #[trigger]
        notes.contains_key(id) ==> index.contains((notes[id].tick, id))
}

/// An entry put between the entries below it and the entries above it
/// keeps the index ascending.
proof fn lemma_insert_ascending(index: Seq<(i32, NoteId)>, pos: int, entry: (i32, NoteId))
    requires
        ascending(index),
        0 <= pos <= index.len(),
        forall|i: int| 0 <= i < pos ==> entry_lt(#[trigger] index[i], entry),
        forall|i: int| pos <= i < index.len() ==> entry_lt(entry, #[trigger] index[i]),
    ensures
        ascending(index.insert(pos, entry)),
{
    let after = index.insert(pos, entry);
    assert forall|i: int, j: int| 0 <= i < j < after.len() implies entry_lt(
        #[trigger] after[i],
        #[trigger] after[j],
    ) by {
        let a = if i < pos { index[i] } else if i == pos { entry } else { index[i - 1] };
        let b = if j < pos { index[j] } else if j == pos { entry } else { index[j - 1] };
        assert(after[i] == a);
        assert(after[j] == b);
    }
}

impl Sequence {
    /// The start index: one `(start tick, identity)` entry for each note.
    pub closed spec fn index(&self) -> Seq<(i32, NoteId)> {
        self.note_starts@
    }

    /// The identity that was added last, whether or not its note still lives.
    pub closed spec fn spec_last_added(&self) -> Option<NoteId> {
        self.last_added
    }

    /// The store and its index agree: the index ascends, each of its entries
    /// names a live note by that note's own start tick, and each live note
    /// has its entry.
    pub open spec fn wf(&self) -> bool {
        agree(self@, self.index())
    }

    /// An empty sequence.
    pub fn new() -> (seq: Sequence)
        ensures
            seq.wf(),
            seq@.dom() == Set::<NoteId>::empty(),
            seq.spec_last_added() is None,
    {
        Sequence { slotmap: slots_new(), last_added: None, note_starts: Vec::new() }
    }

    /// How many notes the sequence holds.
    pub fn len(&self) -> (n: usize)
        requires
            self.wf(),
        ensures
            n == self@.dom().len(),
    {
        self.note_starts.len()
    }

    /// Stores a new note and gives its identity, which no live note had.
    pub fn add_note(&mut self, note: Note) -> (id: NoteId)
        requires
            old(self).wf(),
            old(self)@.dom().len() < MAX_NOTES,
        ensures
            final(self).wf(),
            !old(self)@.contains_key(id),
            final(self)@ == old(self)@.insert(id, note),
            final(self).spec_last_added() == Some(id),
    {
        let ghost before = self@;
        let ghost index = self.index();
        let id = slots_insert(&mut self.slotmap, note);
        self.last_added = Some(id);
        let pos = lower_bound(&self.note_starts, note.tick as i64, id.raw());
        self.note_starts.insert(pos, (note.tick, id));
        proof {
            lemma_insert_entry(before, index, pos as int, id, note);
        }
        id
    }

    /// Replaces the note of this identity, moving its index entry to the new
    /// start tick; an identity that names no live note changes nothing.
    pub fn update_note(&mut self, id: NoteId, note: Note)
        requires
            old(self).wf(),
        ensures
            final(self).wf(),
            final(self)@ == (if old(self)@.contains_key(id) {
                old(self)@.insert(id, note)
            } else {
                old(self)@
            }),
            final(self).spec_last_added() == old(self).spec_last_added(),
    {
        let ghost before = self@;
        let ghost index = self.index();
        let old_tick = match slots_get(&self.slotmap, id) {
            Some(old_note) => old_note.tick,
            None => {
                return ;
            },
        };
        let pos = lower_bound(&self.note_starts, old_tick as i64, id.raw());
        proof {
            lemma_entry_position(index, pos as int, (old_tick, id));
        }
        slots_replace(&mut self.slotmap, id, note);
        self.note_starts.remove(pos);
        proof {
            lemma_remove_entry(before, index, pos as int, before.remove(id), self.index());
        }
        let ghost without = self.index();
        let at = lower_bound(&self.note_starts, note.tick as i64, id.raw());
        self.note_starts.insert(at, (note.tick, id));
        proof {
            lemma_insert_entry(before.remove(id), without, at as int, id, note);
            assert(before.remove(id).insert(id, note) =~= before.insert(id, note));
        }
    }

    /// Drops the note of this identity; an identity that names no live note
    /// changes nothing.
    pub fn remove_note(&mut self, id: NoteId)
        requires
            old(self).wf(),
        ensures
            final(self).wf(),
            final(self)@ == old(self)@.remove(id),
            final(self).spec_last_added() == old(self).spec_last_added(),
    {
        let ghost before = self@;
        let ghost index = self.index();
        match slots_remove(&mut self.slotmap, id) {
            Some(note) => {
                let pos = lower_bound(&self.note_starts, note.tick as i64, id.raw());
                proof {
                    lemma_entry_position(index, pos as int, (note.tick, id));
                }
                self.note_starts.remove(pos);
                proof {
                    lemma_remove_entry(before, index, pos as int, self@, self.index());
                }
            },
            None => {
                proof {
                    assert(self@ =~= before);
                }
            },
        }
    }

    /// Applies one change: adds, removes or replaces a note, keeping the
    /// index in step.
    pub fn update_sequence(&mut self, message: SequenceChange)
        requires
            old(self).wf(),
            message is Add ==> old(self)@.dom().len() < MAX_NOTES,
        ensures
            final(self).wf(),
            change_last(
                old(self)@,
                old(self).spec_last_added(),
                message,
                final(self).spec_last_added(),
            ),
            final(self)@ == change_result(old(self)@, message, final(self).spec_last_added()),
    {
        match message {
            SequenceChange::Add(note) => {
                self.add_note(note);
            },
            SequenceChange::Remove(id) => {
                self.remove_note(id);
            },
            SequenceChange::Update(id, note) => {
                self.update_note(id, note);
            },
        }
    }

    /// The notes behind the index entries from `from` up to `to`, in the
    /// order of the index.
    fn collect(&self, from: usize, to: usize) -> (list: Vec<(NoteId, Note)>)
        requires
            self.wf(),
            from <= to <= self.index().len(),
        ensures
            list.len() == to - from,
            forall|k: int|
                0 <= k < list.len() ==> #[trigger] list[k] == (
                    self.index()[from + k].1,
                    self@[self.index()[from + k].1],
                ),
    {
        let mut list: Vec<(NoteId, Note)> = Vec::new();
        let mut i: usize = from;
        while i < to
            invariant
                self.wf(),
                from <= i <= to <= self.index().len(),
                list.len() == i - from,
                forall|k: int|
                    0 <= k < list.len() ==> #[trigger] list[k] == (
                        self.index()[from + k].1,
                        self@[self.index()[from + k].1],
                    ),
            decreases to - i,
        {
            let id = self.note_starts[i].1;
            assert(self@.contains_key(self.index()[i as int].1));
            match slots_get(&self.slotmap, id) {
                Some(note) => {
                    list.push((id, *note));
                },
                None => {},
            }
            i += 1;
        }
        list
    }

    /// The listing of the notes that start at a tick from `start` up to, not
    /// including, `end`. The bounds are wider than a tick so that a range can
    /// reach past the last tick.
    pub fn notes_in_span(&self, start: i64, end: i64) -> (list: Vec<(NoteId, Note)>)
        requires
            self.wf(),
        ensures
            lists_range(list@, self@, start as int, end as int),
            list@ == listing(self@, start as int, end as int),
            list.len() <= self@.dom().len(),
    {
        let from = lower_bound(&self.note_starts, start, 0);
        let to = lower_bound(&self.note_starts, end, 0);
        let list = if to <= from {
            Vec::new()
        } else {
            self.collect(from, to)
        };
        proof {
            let index = self.index();
            assert forall|k: int| 0 <= k < list.len() implies self@.contains_key(
                (#[trigger] list[k]).0,
            ) && self@[list[k].0] == list[k].1 && start <= list[k].1.tick < end by {
                assert(self@.contains_key(index[from + k].1));
            }
            assert forall|id: NoteId|
                self@.contains_key(id) && start <= (#[trigger] self@[id]).tick
                    < end implies exists|k: int|
                0 <= k < list.len() && (#[trigger] list[k]).0 == id by {
                let at = choose|i: int| 0 <= i < index.len() && index[i] == (self@[id].tick, id);
                assert(index[at].0 == self@[id].tick);
                assert(from <= at < to);
                assert(list[at - from].0 == id);
            }
            assert forall|j: int, k: int| 0 <= j < k < list.len() implies listed_lt(
                #[trigger] list[j],
                #[trigger] list[k],
            ) by {
                assert(entry_lt(index[from + j], index[from + k]));
                assert(self@.contains_key(index[from + j].1));
                assert(self@.contains_key(index[from + k].1));
            }
            lemma_listing_unique(list@, list@, self@, start as int, end as int);
        }
        list
    }

    /// The notes that start in the half-open tick range from `start_tick` up
    /// to `end_tick`, ascending by start tick and, among equal ticks, by
    /// identity. An empty or inverted range gives no notes.
    pub fn get_notes_in_range(&self, start_tick: i32, end_tick: i32) -> (list: Vec<(NoteId, Note)>)
        requires
            self.wf(),
        ensures
            lists_range(list@, self@, start_tick as int, end_tick as int),
            list@ == listing(self@, start_tick as int, end_tick as int),
    {
        self.notes_in_span(start_tick as i64, end_tick as i64)
    }

    /// Every note with its identity, ascending by start tick and, among
    /// equal ticks, by identity.
    pub fn iter(&self) -> (list: Vec<(NoteId, Note)>)
        requires
            self.wf(),
        ensures
            lists_range(list@, self@, i32::MIN as int, i32::MAX + 1),
            list@.to_set() == live_notes(self@),
    {
        let list = self.notes_in_span(-0x8000_0000, 0x8000_0000);
        proof {
            lemma_whole_listing(list@, self@);
        }
        list
    }

    /// The note of this identity, if it lives.
    pub fn get(&self, id: NoteId) -> (found: Option<&Note>)
        ensures
            found == (if self@.contains_key(id) {
                Some(&self@[id])
            } else {
                None
            }),
    {
        slots_get(&self.slotmap, id)
    }

    /// The note that was added last, with its identity, if it still lives.
    pub fn last_added(&self) -> (found: Option<(NoteId, &Note)>)
        ensures
            found == (match self.spec_last_added() {
                Some(id) => if self@.contains_key(id) {
                    Some((id, &self@[id]))
                } else {
                    None
                },
                None => None,
            }),
    {
        match self.last_added {
            Some(id) => match slots_get(&self.slotmap, id) {
                Some(note) => Some((id, note)),
                None => None,
            },
            None => None,
        }
    }
}

/// Putting a note into the store under a fresh identity, and its entry into
/// the index at its lower bound, keeps the two in agreement.
proof fn lemma_insert_entry(
    before: Map<NoteId, Note>,
    index: Seq<(i32, NoteId)>,
    pos: int,
    id: NoteId,
    note: Note,
)
    requires
        agree(before, index),
        !before.contains_key(id),
        0 <= pos <= index.len(),
        forall|i: int| 0 <= i < pos ==> entry_lt(#[trigger] index[i], (note.tick, id)),
        forall|i: int| pos <= i < index.len() ==> !entry_lt(#[trigger] index[i], (note.tick, id)),
    ensures
        agree(before.insert(id, note), index.insert(pos, (note.tick, id))),
{
    let entry = (note.tick, id);
    let notes = before.insert(id, note);
    let after = index.insert(pos, entry);
    assert forall|i: int| pos <= i < index.len() implies entry_lt(entry, #[trigger] index[i]) by {
        assert(before.contains_key(index[i].1));
    }
    lemma_insert_ascending(index, pos, entry);
    assert forall|i: int| 0 <= i < after.len() implies notes.contains_key((#[trigger] after[i]).1)
        && notes[after[i].1].tick == after[i].0 by {
        if i < pos {
            assert(after[i] == index[i]);
        } else if i > pos {
            assert(after[i] == index[i - 1]);
        }
    }
    assert forall|other: NoteId| #[trigger] notes.contains_key(other) implies after.contains(
        (notes[other].tick, other),
    ) by {
        if other == id {
            assert(after[pos] == entry);
        } else {
            assert(before.contains_key(other));
            let at = choose|i: int| 0 <= i < index.len() && index[i] == (before[other].tick, other);
            if at < pos {
                assert(after[at] == index[at]);
            } else {
                assert(after[at + 1] == index[at]);
            }
        }
    }
}

/// In an ascending index that holds `entry`, the lower bound of `entry` is
/// where it stands.
proof fn lemma_entry_position(index: Seq<(i32, NoteId)>, pos: int, entry: (i32, NoteId))
    requires
        ascending(index),
        index.contains(entry),
        0 <= pos <= index.len(),
        forall|i: int| 0 <= i < pos ==> entry_lt(#[trigger] index[i], entry),
        forall|i: int| pos <= i < index.len() ==> !entry_lt(#[trigger] index[i], entry),
    ensures
        pos < index.len(),
        index[pos] == entry,
{
    let at = choose|i: int| 0 <= i < index.len() && index[i] == entry;
    if at < pos {
        assert(entry_lt(index[at], entry));
    } else if at > pos {
        assert(entry_lt(index[pos], index[at]));
    }
}

/// Taking a note out of the store and its entry out of the index keeps the
/// two in agreement.
proof fn lemma_remove_entry(
    before: Map<NoteId, Note>,
    index: Seq<(i32, NoteId)>,
    pos: int,
    after: Map<NoteId, Note>,
    index_after: Seq<(i32, NoteId)>,
)
    requires
        agree(before, index),
        0 <= pos < index.len(),
        after == before.remove(index[pos].1),
        index_after == index.remove(pos),
    ensures
        agree(after, index_after),
{
    let gone = index[pos].1;
    assert forall|i: int, j: int| 0 <= i < j < index_after.len() implies entry_lt(
        #[trigger] index_after[i],
        #[trigger] index_after[j],
    ) by {
        let a = if i < pos { i } else { i + 1 };
        let b = if j < pos { j } else { j + 1 };
        assert(index_after[i] == index[a]);
        assert(index_after[j] == index[b]);
    }
    assert forall|i: int| 0 <= i < index_after.len() implies after.contains_key(
        (#[trigger] index_after[i]).1,
    ) && after[index_after[i].1].tick == index_after[i].0 by {
        let a = if i < pos { i } else { i + 1 };
        assert(index_after[i] == index[a]);
        if a < pos {
            assert(entry_lt(index[a], index[pos]));
        } else {
            assert(entry_lt(index[pos], index[a]));
        }
        assert(before[index[a].1].tick == index[a].0);
        assert(before[gone].tick == index[pos].0);
    }
    assert forall|other: NoteId| #[trigger] after.contains_key(other) implies index_after.contains(
        (after[other].tick, other),
    ) by {
        assert(before.contains_key(other));
        let at = choose|i: int| 0 <= i < index.len() && index[i] == (before[other].tick, other);
        if at < pos {
            assert(index_after[at] == index[at]);
        } else {
            assert(index_after[at - 1] == index[at]);
        }
    }
}

/// How many entries at the head of an ascending index start before `tick`.
pub open spec fn count_below(index: Seq<(i32, NoteId)>, tick: int) -> int
    decreases index.len(),
{
    if index.len() == 0 {
        0
    } else if index.last().0 < tick {
        index.len() as int
    } else {
        count_below(index.drop_last(), tick)
    }
}

/// `count_below` parts an ascending index into the entries that start
/// before `tick` and those that do not.
proof fn lemma_count_below(index: Seq<(i32, NoteId)>, tick: int)
    requires
        ascending(index),
    ensures
        0 <= count_below(index, tick) <= index.len(),
        forall|i: int| 0 <= i < count_below(index, tick) ==> (#[trigger] index[i]).0 < tick,
        forall|i: int| count_below(index, tick) <= i < index.len() ==> (#[trigger] index[i]).0 >= tick,
    decreases index.len(),
{
    if index.len() == 0 {
    } else if index.last().0 < tick {
        assert forall|i: int| 0 <= i < index.len() implies (#[trigger] index[i]).0 < tick by {
            if i < index.len() - 1 {
                assert(entry_lt(index[i], index[index.len() - 1]));
            }
        }
    } else {
        let head = index.drop_last();
        assert forall|i: int, j: int| 0 <= i < j < head.len() implies entry_lt(
            #[trigger] head[i],
            #[trigger] head[j],
        ) by {
            assert(entry_lt(index[i], index[j]));
        }
        lemma_count_below(head, tick);
        assert forall|i: int| 0 <= i < count_below(index, tick) implies (#[trigger] index[i]).0
            < tick by {
            assert(head[i] == index[i]);
        }
        assert forall|i: int| count_below(index, tick) <= i < index.len() implies (
        #[trigger] index[i]).0 >= tick by {
            if i < head.len() {
                assert(head[i] == index[i]);
            }
        }
    }
}

/// Every range of a well-formed sequence has its listing.
pub proof fn lemma_listing_exists(seq: Sequence, start: int, end: int)
    requires
        seq.wf(),
    ensures
        lists_range(listing(seq@, start, end), seq@, start, end),
{
    let index = seq.index();
    let notes = seq@;
    lemma_count_below(index, start);
    lemma_count_below(index, end);
    let from = count_below(index, start);
    let to = count_below(index, end);
    let count = if to <= from { 0 } else { to - from };
    let list = Seq::new(count as nat, |k: int| (index[from + k].1, notes[index[from + k].1]));
    assert forall|k: int| 0 <= k < list.len() implies notes.contains_key((#[trigger] list[k]).0)
        && notes[list[k].0] == list[k].1 && start <= list[k].1.tick < end by {
        assert(notes.contains_key(index[from + k].1));
    }
    assert forall|id: NoteId|
        notes.contains_key(id) && start <= (#[trigger] notes[id]).tick < end implies exists|k: int|
        0 <= k < list.len() && (#[trigger] list[k]).0 == id by {
        let at = choose|i: int| 0 <= i < index.len() && index[i] == (notes[id].tick, id);
        assert(index[at].0 == notes[id].tick);
        assert(from <= at < to);
        assert(list[at - from].0 == id);
    }
    assert forall|j: int, k: int| 0 <= j < k < list.len() implies listed_lt(
        #[trigger] list[j],
        #[trigger] list[k],
    ) by {
        assert(entry_lt(index[from + j], index[from + k]));
        assert(notes.contains_key(index[from + j].1));
        assert(notes.contains_key(index[from + k].1));
    }
    lemma_listing_unique(list, list, notes, start, end);
}

/// The listing of a range is the listing of its lower part followed by the
/// listing of its upper part, wherever the range is cut.
pub proof fn lemma_listing_split(seq: Sequence, start: int, middle: int, end: int)
    requires
        seq.wf(),
        start <= middle <= end,
    ensures
        listing(seq@, start, end) == listing(seq@, start, middle) + listing(seq@, middle, end),
{
    let notes = seq@;
    lemma_listing_exists(seq, start, middle);
    lemma_listing_exists(seq, middle, end);
    let low = listing(notes, start, middle);
    let high = listing(notes, middle, end);
    let list = low + high;
    assert forall|k: int| 0 <= k < list.len() implies notes.contains_key((#[trigger] list[k]).0)
        && notes[list[k].0] == list[k].1 && start <= list[k].1.tick < end by {
        if k < low.len() {
            assert(list[k] == low[k]);
        } else {
            assert(list[k] == high[k - low.len()]);
        }
    }
    assert forall|id: NoteId|
        notes.contains_key(id) && start <= (#[trigger] notes[id]).tick < end implies exists|k: int|
        0 <= k < list.len() && (#[trigger] list[k]).0 == id by {
        if notes[id].tick < middle {
            let k = choose|k: int| 0 <= k < low.len() && (#[trigger] low[k]).0 == id;
            assert(list[k] == low[k]);
        } else {
            let k = choose|k: int| 0 <= k < high.len() && (#[trigger] high[k]).0 == id;
            assert(list[k + low.len()] == high[k]);
        }
    }
    assert forall|j: int, k: int| 0 <= j < k < list.len() implies listed_lt(
        #[trigger] list[j],
        #[trigger] list[k],
    ) by {
        if k < low.len() {
            assert(list[j] == low[j] && list[k] == low[k]);
        } else if j >= low.len() {
            assert(list[j] == high[j - low.len()] && list[k] == high[k - low.len()]);
        } else {
            assert(list[j] == low[j] && list[k] == high[k - low.len()]);
        }
    }
    lemma_listing_unique(list, list, notes, start, end);
}

/// The live notes of a store as a set of pairs of identity and note.
pub open spec fn live_notes(notes: Map<NoteId, Note>) -> Set<(NoteId, Note)> {
    Set::new(|pair: (NoteId, Note)| notes.contains_key(pair.0) && notes[pair.0] == pair.1)
}

/// The start index of a well-formed sequence is sorted by tick. Every change
/// keeps a sequence well formed, so this holds after any run of changes.
pub proof fn lemma_index_sorted_by_tick(seq: Sequence)
    requires
        seq.wf(),
    ensures
        forall|i: int, j: int|
            0 <= i <= j < seq.index().len() ==> (#[trigger] seq.index()[i]).0 <= (
            #[trigger] seq.index()[j]).0,
{
    assert forall|i: int, j: int| 0 <= i <= j < seq.index().len() implies (
    #[trigger] seq.index()[i]).0 <= (#[trigger] seq.index()[j]).0 by {
        if i < j {
            assert(entry_lt(seq.index()[i], seq.index()[j]));
        }
    }
}

/// A listing that spans every tick holds exactly the live notes, each once.
pub proof fn lemma_whole_listing(list: Seq<(NoteId, Note)>, notes: Map<NoteId, Note>)
    requires
        lists_range(list, notes, i32::MIN as int, i32::MAX + 1),
    ensures
        list.to_set() == live_notes(notes),
        list.no_duplicates(),
{
    assert forall|pair: (NoteId, Note)| list.to_set().contains(pair) <==> live_notes(
        notes,
    ).contains(pair) by {
        if list.to_set().contains(pair) {
            let k = choose|k: int| 0 <= k < list.len() && list[k] == pair;
            assert(notes.contains_key(list[k].0));
        }
        if live_notes(notes).contains(pair) {
            assert(i32::MIN <= notes[pair.0].tick <= i32::MAX);
            let k = choose|k: int| 0 <= k < list.len() && (#[trigger] list[k]).0 == pair.0;
            assert(notes.contains_key(list[k].0));
            assert(list[k] == pair);
        }
    }
    assert(list.to_set() =~= live_notes(notes));
    assert forall|j: int, k: int| 0 <= j < list.len() && 0 <= k < list.len() && j != k implies list[j]
        != list[k] by {
        if j < k {
            assert(listed_lt(list[j], list[k]));
        } else {
            assert(listed_lt(list[k], list[j]));
        }
    }
}

/// The widest range that a query by ticks can name, from the first tick up
/// to the last, is listed as exactly the set of live notes, each once, as
/// long as no note starts at the last tick itself: a half-open range cannot
/// reach that one.
pub proof fn lemma_full_range_lists_live_notes(seq: Sequence, list: Seq<(NoteId, Note)>)
    requires
        seq.wf(),
        lists_range(list, seq@, i32::MIN as int, i32::MAX as int),
        forall|id: NoteId| seq@.contains_key(id) ==> (#[trigger] seq@[id]).tick < i32::MAX,
    ensures
        list.to_set() == live_notes(seq@),
        list.no_duplicates(),
{
    lemma_whole_listing(list, seq@);
}

} // verus!
