use midifuc::keys::{pitch_class, KeySet};
use midifuc::parser::{
    index_to_operation, parse, DecodeError, EnrollmentTable, Extractor, Instruction, NoteEvent,
    NoteKind, Operation,
};

fn on(key: u8) -> NoteEvent {
    NoteEvent { kind: NoteKind::On, key }
}

fn off(key: u8) -> NoteEvent {
    NoteEvent { kind: NoteKind::Off, key }
}

/// An octave on the pitch class `pc`, pressed and released.
fn chord(pc: u8) -> Vec<NoteEvent> {
    vec![on(21 + pc), on(33 + pc), off(21 + pc), off(33 + pc)]
}

fn enrollment(classes: &[u8]) -> Vec<NoteEvent> {
    let mut events = Vec::new();
    for pc in classes {
        events.extend(chord(*pc));
    }
    events
}

#[test]
fn pitch_class_counts_semitones_above_a() {
    assert_eq!(pitch_class(21), 0);
    assert_eq!(pitch_class(33), 0);
    assert_eq!(pitch_class(22), 1);
    assert_eq!(pitch_class(20), 11);
    assert_eq!(pitch_class(0), 3);
    assert_eq!(pitch_class(127), 10);
    assert_eq!(pitch_class(255), 6);
}

#[test]
fn index_to_operation_names_the_eight_slots() {
    assert_eq!(index_to_operation(0), Some(Operation::MovePointerRight));
    assert_eq!(index_to_operation(1), Some(Operation::MovePointerLeft));
    assert_eq!(index_to_operation(2), Some(Operation::ToggleIncDec));
    assert_eq!(index_to_operation(3), Some(Operation::BeginLoop));
    assert_eq!(index_to_operation(4), Some(Operation::EndLoop));
    assert_eq!(index_to_operation(5), Some(Operation::Output));
    assert_eq!(index_to_operation(6), Some(Operation::Input));
    assert_eq!(index_to_operation(7), Some(Operation::SpecialInstruction));
    assert_eq!(index_to_operation(8), None);
    assert_eq!(index_to_operation(usize::MAX), None);
}

#[test]
fn key_set_follows_presses_and_releases() {
    let mut keys = KeySet::new();
    assert!(!keys.contains(60));
    keys.insert(60);
    keys.insert(60);
    assert!(keys.contains(60));
    let copy = keys.snapshot();
    keys.remove(60);
    assert!(!keys.contains(60));
    assert!(copy.contains(60));
    assert!(keys.is_disjoint(&copy));
    keys.insert(60);
    assert!(!keys.is_disjoint(&copy));
}

#[test]
fn no_chord_without_an_octave() {
    let mut keys = KeySet::new();
    assert_eq!(keys.signal(), None);
    keys.insert(21);
    assert_eq!(keys.signal(), None);
    keys.insert(22);
    keys.insert(32);
    assert_eq!(keys.signal(), None);
}

#[test]
fn lowest_octave_pair_wins() {
    let mut keys = KeySet::new();
    keys.insert(34);
    keys.insert(22);
    assert_eq!(keys.signal(), Some(1));
    keys.insert(45);
    keys.insert(21);
    assert_eq!(keys.signal(), Some(0));
    let mut other = KeySet::new();
    other.insert(21);
    other.insert(45);
    other.insert(22);
    other.insert(34);
    assert_eq!(other.signal(), Some(0));
}

#[test]
fn octave_pair_may_span_several_octaves() {
    let mut keys = KeySet::new();
    keys.insert(24);
    keys.insert(60);
    assert_eq!(keys.signal(), Some(3));
}

#[test]
fn table_enrolls_in_order_of_discovery() {
    let mut table = EnrollmentTable::new();
    for pc in [5u8, 3, 9, 0, 1, 2, 4] {
        assert_eq!(table.enroll_or_lookup(pc), None);
        assert!(!table.is_closed());
    }
    assert_eq!(table.enroll_or_lookup(7), None);
    assert!(table.is_closed());
    assert_eq!(table.len(), 8);
    assert_eq!(table.lookup(5), Some(0));
    assert_eq!(table.lookup(7), Some(7));
    assert_eq!(table.lookup(11), None);
    assert_eq!(table.enroll_or_lookup(5), Some(Operation::MovePointerRight));
    assert_eq!(table.enroll_or_lookup(9), Some(Operation::ToggleIncDec));
    assert_eq!(table.enroll_or_lookup(7), Some(Operation::SpecialInstruction));
    assert_eq!(table.enroll_or_lookup(11), None);
    assert_eq!(table.len(), 8);
}

#[test]
fn duplicate_enrollment_spends_a_slot() {
    let mut table = EnrollmentTable::new();
    assert_eq!(table.enroll_or_lookup(4), None);
    assert_eq!(table.enroll_or_lookup(4), None);
    assert_eq!(table.len(), 2);
    assert_eq!(table.lookup(4), Some(0));
    for pc in [0u8, 1, 2, 3, 5, 6] {
        assert_eq!(table.enroll_or_lookup(pc), None);
    }
    assert!(table.is_closed());
    assert_eq!(table.enroll_or_lookup(4), Some(Operation::MovePointerRight));
    assert_eq!(table.enroll_or_lookup(0), Some(Operation::ToggleIncDec));
    for pc in 0u8..12 {
        assert_ne!(table.lookup(pc), Some(1));
    }
}

#[test]
fn empty_stream_gives_empty_program() {
    assert_eq!(parse(&Vec::new()), Ok(Vec::new()));
}

#[test]
fn seven_chords_resolve_nothing() {
    let mut events = enrollment(&[0, 1, 2, 3, 4, 5, 6]);
    events.extend(vec![on(40), on(41), off(40), off(41)]);
    assert_eq!(parse(&events), Ok(Vec::new()));
}

#[test]
fn enrollment_alone_emits_nothing() {
    let events = enrollment(&[0, 1, 2, 3, 4, 5, 6, 7]);
    assert_eq!(parse(&events), Ok(Vec::new()));
}

#[test]
fn one_pitch_class_signalled_nine_times_closes_the_table() {
    let events = enrollment(&[0, 0, 0, 0, 0, 0, 0, 0, 0]);
    assert_eq!(
        parse(&events),
        Ok(vec![Instruction {
            operation: Operation::MovePointerRight,
            repetitions: 0,
            change_in_value: 0,
        }])
    );
}

#[test]
fn chord_with_three_new_keys_has_magnitude_three() {
    let mut events = enrollment(&[0, 1, 2, 3, 4, 5, 6, 7]);
    events.extend(vec![on(21), on(33), on(40), on(41), on(42), off(21), off(33)]);
    events.extend(vec![off(40), off(41), off(42)]);
    assert_eq!(
        parse(&events),
        Ok(vec![Instruction {
            operation: Operation::MovePointerRight,
            repetitions: 0,
            change_in_value: 3,
        }])
    );
}

#[test]
fn restruck_chord_keys_count_as_repetitions() {
    let mut events = enrollment(&[0, 1, 2, 3, 4, 5, 6, 7]);
    events.extend(vec![on(26), on(38), off(26), on(26), on(38), on(50), off(38), off(26)]);
    assert_eq!(
        parse(&events),
        Ok(vec![Instruction { operation: Operation::Output, repetitions: 2, change_in_value: 1 }])
    );
}

#[test]
fn keys_struck_before_the_chord_count_for_nothing() {
    let mut events = enrollment(&[0, 1, 2, 3, 4, 5, 6, 7]);
    events.extend(vec![on(60), off(60), on(61), on(22), on(34), off(22), off(34), off(61)]);
    assert_eq!(
        parse(&events),
        Ok(vec![Instruction {
            operation: Operation::MovePointerLeft,
            repetitions: 0,
            change_in_value: 0,
        }])
    );
}

#[test]
fn no_new_chord_while_one_is_partly_held() {
    let mut events = enrollment(&[0, 1, 2, 3, 4, 5, 6, 7]);
    events.extend(vec![on(21), on(33), on(22), on(34), off(21), off(22), off(34), off(33)]);
    events.extend(chord(2));
    assert_eq!(
        parse(&events),
        Ok(vec![
            Instruction {
                operation: Operation::MovePointerRight,
                repetitions: 0,
                change_in_value: 2,
            },
            Instruction { operation: Operation::ToggleIncDec, repetitions: 0, change_in_value: 0 },
        ])
    );
}

#[test]
fn pitch_class_without_a_slot_is_ignored() {
    let mut events = enrollment(&[0, 0, 1, 2, 3, 4, 5, 6]);
    events.extend(chord(7));
    events.extend(chord(1));
    assert_eq!(
        parse(&events),
        Ok(vec![Instruction { operation: Operation::ToggleIncDec, repetitions: 0, change_in_value: 0 }])
    );
}

#[test]
fn release_of_a_key_that_is_not_held_is_refused() {
    assert_eq!(parse(&vec![off(60)]), Err(DecodeError::HeldKeyMismatch));
    let mut events = enrollment(&[0, 1, 2, 3, 4, 5, 6, 7]);
    events.extend(chord(0));
    events.extend(vec![on(50), off(51)]);
    assert_eq!(parse(&events), Err(DecodeError::HeldKeyMismatch));
}

#[test]
fn extractor_keeps_its_state_after_a_refusal() {
    let mut extractor = Extractor::new();
    for event in enrollment(&[0, 1, 2, 3, 4, 5, 6, 7]) {
        assert_eq!(extractor.feed(event), Ok(()));
    }
    assert_eq!(extractor.note_off(21), Err(DecodeError::HeldKeyMismatch));
    extractor.note_on(26);
    extractor.note_on(38);
    assert_eq!(extractor.note_off(38), Ok(()));
    assert_eq!(extractor.note_off(26), Ok(()));
    assert_eq!(
        extractor.into_program(),
        vec![Instruction { operation: Operation::Output, repetitions: 0, change_in_value: 0 }]
    );
}
