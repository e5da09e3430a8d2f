use sequencer::pitch::Pitch;

#[test]
fn new_reduces_to_lowest_terms() {
    let p = Pitch::new(6, 8);
    assert_eq!((p.numer(), p.denom()), (3, 4));
    let q = Pitch::new(3, -12);
    assert_eq!((q.numer(), q.denom()), (-1, 4));
    let zero = Pitch::new(0, 5);
    assert_eq!((zero.numer(), zero.denom()), (0, 1));
    assert_eq!(Pitch::new(2, 24), Pitch::new(1, 12));
}

#[test]
fn concert_a_is_key_69_without_bend() {
    assert_eq!(Pitch::new(0, 1).midi_pitch(2), (69, 8192));
}

#[test]
fn semitones_and_octaves_land_on_keys() {
    assert_eq!(Pitch::new(1, 12).midi_pitch(2), (70, 8192));
    assert_eq!(Pitch::new(1, 1).midi_pitch(2), (81, 8192));
    assert_eq!(Pitch::new(-1, 1).midi_pitch(2), (57, 8192));
    assert_eq!(Pitch::new(-9, 12).midi_pitch(2), (60, 8192));
}

#[test]
fn quarter_tones_bend() {
    // a quarter tone up: half way between two keys, rounded away from zero
    assert_eq!(Pitch::new(1, 24).midi_pitch(2), (70, 8192 - 2048));
    // an eighth tone up
    assert_eq!(Pitch::new(1, 48).midi_pitch(2), (69, 8192 + 1024));
    // with a full bend of one semitone the same offset bends twice as far
    assert_eq!(Pitch::new(1, 48).midi_pitch(1), (69, 8192 + 2048));
    // a third of a semitone down; the fraction of a step is dropped
    assert_eq!(Pitch::new(-1, 36).midi_pitch(2), (69, 6826));
}

#[test]
fn pitches_below_key_zero_give_key_zero() {
    assert_eq!(Pitch::new(-6, 1).midi_pitch(2).0, 0);
    assert_eq!(Pitch::new(-23, 4).midi_pitch(2), (0, 8192));
}

#[test]
fn pitches_add_and_subtract_in_lowest_terms() {
    assert_eq!(Pitch::new(1, 12) + Pitch::new(1, 12), Pitch::new(1, 6));
    assert_eq!(Pitch::new(1, 12) + Pitch::new(1, 4), Pitch::new(1, 3));
    assert_eq!(Pitch::new(1, 3) - Pitch::new(1, 2), Pitch::new(-1, 6));
    assert_eq!(Pitch::new(5, 12) - Pitch::new(5, 12), Pitch::new(0, 1));
    assert_eq!(-Pitch::new(7, 12), Pitch::new(-7, 12));
    assert_eq!(Pitch::new(4, 1) - Pitch::new(7, 12), Pitch::new(41, 12));
}

#[test]
fn checked_arithmetic_says_when_the_result_is_no_pitch() {
    let big = Pitch::new(i32::MAX, 1);
    assert_eq!(big.checked_add(Pitch::new(1, 1)), None);
    assert_eq!(big.checked_add(Pitch::new(-1, 1)), Some(Pitch::new(i32::MAX - 1, 1)));
    assert_eq!(Pitch::new(1, i32::MAX).checked_sub(Pitch::new(1, 2)), None);
    assert_eq!(Pitch::new(1, 2).checked_neg(), Some(Pitch::new(-1, 2)));
    // the fraction reduces before it is held against the limits
    let third = Pitch::new(1, 3 * 65536);
    assert_eq!(third.checked_add(third).map(|p| (p.numer(), p.denom())), Some((1, 98304)));
    assert_eq!(Pitch::new(1, 65536).checked_add(Pitch::new(1, 65537)), None);
}

#[test]
fn pitches_are_ordered_by_value() {
    assert!(Pitch::new(1, 12).lt(&Pitch::new(1, 6)));
    assert!(!Pitch::new(1, 6).lt(&Pitch::new(2, 12)));
    assert!(Pitch::new(1, 6).le(&Pitch::new(2, 12)));
    assert!(Pitch::new(-1, 2).lt(&Pitch::new(-1, 3)));
    assert!(!Pitch::new(1, 2).le(&Pitch::new(1, 3)));
}
