use sequencer::pitch::Pitch;
use sequencer::sequence::{Note, Sequence, SequenceChange};

fn note(tick: i32, num: i32, den: i32, length: i32) -> Note {
    Note { tick, pitch: Pitch::new(num, den), length }
}

#[test]
fn new_sequence_is_empty() {
    let seq = Sequence::new();
    assert_eq!(seq.len(), 0);
    assert!(seq.last_added().is_none());
    assert!(seq.get_notes_in_range(i32::MIN, i32::MAX).is_empty());
    assert!(seq.iter().is_empty());
}

#[test]
fn add_then_query_finds_the_note() {
    let mut seq = Sequence::new();
    let id = seq.add_note(note(4, 1, 12, 8));
    assert_eq!(seq.len(), 1);
    assert_eq!(seq.get(id), Some(&note(4, 1, 12, 8)));
    assert_eq!(seq.get_notes_in_range(4, 5), vec![(id, note(4, 1, 12, 8))]);
    assert!(seq.get_notes_in_range(0, 4).is_empty());
    assert!(seq.get_notes_in_range(5, 100).is_empty());
    assert_eq!(seq.last_added(), Some((id, &note(4, 1, 12, 8))));
}

#[test]
fn update_sequence_add_remove_update() {
    let mut seq = Sequence::new();
    seq.update_sequence(SequenceChange::Add(note(10, 0, 1, 4)));
    let (a, _) = seq.last_added().unwrap();
    seq.update_sequence(SequenceChange::Add(note(2, 1, 2, 4)));
    let (b, _) = seq.last_added().unwrap();
    assert_ne!(a, b);
    assert_eq!(
        seq.get_notes_in_range(i32::MIN, i32::MAX),
        vec![(b, note(2, 1, 2, 4)), (a, note(10, 0, 1, 4))]
    );
    seq.update_sequence(SequenceChange::Update(b, note(20, 1, 2, 4)));
    assert_eq!(
        seq.get_notes_in_range(i32::MIN, i32::MAX),
        vec![(a, note(10, 0, 1, 4)), (b, note(20, 1, 2, 4))]
    );
    seq.update_sequence(SequenceChange::Remove(a));
    assert_eq!(seq.get_notes_in_range(i32::MIN, i32::MAX), vec![(b, note(20, 1, 2, 4))]);
    assert_eq!(seq.get(a), None);
    seq.update_sequence(SequenceChange::Remove(a));
    assert_eq!(seq.len(), 1);
}

#[test]
fn range_is_half_open() {
    let mut seq = Sequence::new();
    let a = seq.add_note(note(0, 0, 1, 1));
    let b = seq.add_note(note(4, 0, 1, 1));
    let c = seq.add_note(note(8, 0, 1, 1));
    let ids = |list: Vec<(sequencer::sequence::NoteId, Note)>| -> Vec<_> {
        list.into_iter().map(|(id, _)| id).collect()
    };
    assert_eq!(ids(seq.get_notes_in_range(0, 8)), vec![a, b]);
    assert_eq!(ids(seq.get_notes_in_range(1, 9)), vec![b, c]);
    assert_eq!(ids(seq.get_notes_in_range(4, 4)), vec![]);
    assert_eq!(ids(seq.get_notes_in_range(9, 0)), vec![]);
    assert_eq!(ids(seq.get_notes_in_range(i32::MIN, i32::MAX)), vec![a, b, c]);
}

#[test]
fn notes_of_one_tick_are_all_found() {
    let mut seq = Sequence::new();
    let mut ids = Vec::new();
    for i in 0..20 {
        ids.push(seq.add_note(note(5, i, 12, 1)));
    }
    seq.add_note(note(4, 0, 1, 1));
    seq.add_note(note(6, 0, 1, 1));
    let found: Vec<_> = seq.get_notes_in_range(5, 6).into_iter().map(|(id, _)| id).collect();
    assert_eq!(found, ids);
}

#[test]
fn full_range_misses_only_the_last_tick() {
    let mut seq = Sequence::new();
    let a = seq.add_note(note(i32::MIN, 0, 1, 0));
    let b = seq.add_note(note(i32::MAX, 0, 1, 0));
    assert_eq!(seq.get_notes_in_range(i32::MIN, i32::MAX), vec![(a, note(i32::MIN, 0, 1, 0))]);
    assert_eq!(seq.iter(), vec![(a, note(i32::MIN, 0, 1, 0)), (b, note(i32::MAX, 0, 1, 0))]);
}

#[test]
fn interleaved_changes_keep_store_and_index_together() {
    let mut seq = Sequence::new();
    let mut live = Vec::new();
    for round in 0..50 {
        let id = seq.add_note(note((round * 37) % 11, round, 12, round));
        live.push((id, note((round * 37) % 11, round, 12, round)));
        if round % 3 == 0 {
            let (gone, _) = live.remove(round as usize % live.len());
            seq.remove_note(gone);
        }
        if round % 4 == 1 {
            let at = round as usize % live.len();
            let moved = note(round % 7, 1, 1, 3);
            seq.update_note(live[at].0, moved);
            live[at].1 = moved;
        }
        let listed = seq.get_notes_in_range(i32::MIN, i32::MAX);
        assert_eq!(listed.len(), live.len());
        assert_eq!(seq.len(), live.len());
        for pair in &live {
            assert!(listed.contains(pair));
            assert_eq!(seq.get(pair.0), Some(&pair.1));
        }
        for pair in listed.windows(2) {
            assert!(pair[0].1.tick <= pair[1].1.tick);
            assert!(pair[0].0 != pair[1].0);
        }
    }
}

#[test]
fn last_added_is_gone_with_its_note() {
    let mut seq = Sequence::new();
    let a = seq.add_note(note(1, 0, 1, 1));
    let b = seq.add_note(note(0, 0, 1, 1));
    assert_eq!(seq.last_added().map(|(id, _)| id), Some(b));
    seq.remove_note(a);
    assert_eq!(seq.last_added().map(|(id, _)| id), Some(b));
    seq.remove_note(b);
    assert!(seq.last_added().is_none());
    seq.update_note(b, note(3, 0, 1, 1));
    assert_eq!(seq.len(), 0);
}

#[test]
fn end_tick_is_start_plus_length() {
    assert_eq!(note(3, 0, 1, 4).end_tick(), 7);
    assert_eq!(note(-3, 0, 1, 0).end_tick(), -3);
}

#[test]
fn identities_stay_apart_when_slots_are_used_again() {
    let mut seq = Sequence::new();
    let a = seq.add_note(note(1, 0, 1, 1));
    seq.remove_note(a);
    let b = seq.add_note(note(1, 0, 1, 1));
    assert_ne!(a, b);
    assert_ne!(a.raw(), b.raw());
    assert_eq!(seq.get(a), None);
    assert_eq!(seq.get(b), Some(&note(1, 0, 1, 1)));
}
