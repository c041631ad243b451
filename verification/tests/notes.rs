use scritto::notes::{Chord, ETPitch, Note, SingleNote};
use scritto::{Duration, Pitch};

#[test]
fn translates_midi_to_note_name() {
    assert_eq!(ETPitch::new(60).pitch(), "c");
    assert_eq!(ETPitch::new(69).pitch(), "a");
}

#[test]
fn gets_single_note_name() {
    let note = SingleNote::<ETPitch>::new(ETPitch::new(62), Duration::new(1, 1));
    assert_eq!(note.text().as_str(), "d");
}

#[test]
fn gets_chord_name() {
    let chord = Chord::<ETPitch>::new(
        vec![ETPitch::new(60), ETPitch::new(64), ETPitch::new(67)],
        Duration::new(1, 1),
    );
    assert_eq!(chord.text().as_str(), "<c e g>");
}

#[test]
fn one_note_chord() {
    let chord = Chord::<ETPitch>::new(vec![ETPitch::new(60)], Duration::new(1, 1));
    assert_eq!(chord.text().as_str(), "<c>");
}

#[test]
fn note_carries_its_duration() {
    let note = SingleNote::<ETPitch>::new(ETPitch::new(60), Duration::new(3, 8));
    assert_eq!(note.duration().as_ratio(), (3, 8));
    assert_eq!(note.annotations(), "");
}

#[test]
fn pitch_from_midi_number() {
    assert_eq!(ETPitch::from(64u32).pitch(), "e");
    assert_eq!(ETPitch::new(61).pitch(), "csharp");
    assert_eq!(ETPitch::new(63).pitch(), "eflat");
    assert_eq!(ETPitch::new(70).pitch(), "bflat");
}
