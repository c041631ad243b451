use scritto::notes::{ETPitch, SingleNote};
use scritto::scrittore::{format_note, format_notes, Notes};
use scritto::sequenza::{Beat, Grouping, GroupingController, Measure};
use scritto::{Duration, Error};

fn beat(a: u32, b: u32) -> Grouping {
    Grouping::Beat(Beat::new_ratio(a, b))
}

fn four_beat_measure() -> Grouping {
    Grouping::Measure(Measure::from_contents(vec![
        beat(1, 4),
        beat(1, 4),
        beat(1, 4),
        beat(1, 4),
    ]))
}

fn initialize_notes() -> Vec<SingleNote<ETPitch>> {
    vec![
        SingleNote::new(ETPitch::new(60), Duration::new(1, 2)),
        SingleNote::new(ETPitch::new(62), Duration::new(1, 4)),
        SingleNote::new(ETPitch::new(64), Duration::new(1, 4)),
        SingleNote::new(ETPitch::new(65), Duration::new(1, 4)),
    ]
}

#[test]
fn half_note_splits_into_one_tie() {
    // A half note at the top of a measure of quarter-note beats splits
    // across two beats into exactly one tie, with the measure's start
    // annotation in front and no barline yet.
    let mut controller =
        GroupingController::new(vec![four_beat_measure(), four_beat_measure()]).unwrap();
    let notes = initialize_notes();
    let out = format_note(&notes[0], &mut controller).unwrap();
    assert_eq!(out, " %m. \n c4 ~ c4");
    let out1 = format_note(&notes[1], &mut controller).unwrap();
    assert_eq!(out1, "d4");
}

#[test]
fn barline_emitted_when_measure_boundary_crossed() {
    let mut controller =
        GroupingController::new(vec![four_beat_measure(), four_beat_measure()]).unwrap();
    let notes = Notes::new(initialize_notes());
    let out = format_notes(&notes, &mut controller).unwrap();
    assert_eq!(out, " %m. \n c4 ~ c4 d4 e4 |\n   %m. \n f4");
}

#[test]
fn whole_note_over_quarter_beats() {
    // A note spanning a whole measure is split at every beat.
    let mut controller =
        GroupingController::new(vec![four_beat_measure(), four_beat_measure()]).unwrap();
    let note = SingleNote::new(ETPitch::new(60), Duration::new(1, 1));
    let out = format_note(&note, &mut controller).unwrap();
    assert_eq!(out, " %m. \n c4 ~ c4 ~ c4 ~ c4 |\n ");
}

#[test]
fn formatting_fails_loudly_on_unsupported_ratio() {
    let mut controller = GroupingController::new(vec![beat(5, 7), beat(1, 4)]).unwrap();
    let note = SingleNote::new(ETPitch::new(60), Duration::new(5, 7));
    let res = format_note(&note, &mut controller).unwrap_err();
    assert_eq!(res, Error::UnsupportedDurationNotation);
}

#[test]
fn formatting_fails_when_structure_runs_out() {
    let mut controller = GroupingController::new(vec![beat(1, 4)]).unwrap();
    let note = SingleNote::new(ETPitch::new(60), Duration::new(1, 2));
    let res = format_note(&note, &mut controller).unwrap_err();
    assert_eq!(res, Error::StructureExhausted);
}

#[test]
fn notes_collection_formats_in_order() {
    let mut controller =
        GroupingController::new(vec![beat(1, 4), beat(1, 4), beat(1, 4)]).unwrap();
    let notes = Notes::new(vec![
        SingleNote::new(ETPitch::new(60), Duration::new(1, 4)),
        SingleNote::new(ETPitch::new(62), Duration::new(1, 4)),
    ]);
    let out = format_notes(&notes, &mut controller).unwrap();
    assert_eq!(out, "c4 d4");
}
