use scritto::sequenza::{Beat, Grouping, GroupingController, Measure};
use scritto::{Duration, Error};

fn beat(a: u32, b: u32) -> Grouping {
    Grouping::Beat(Beat::new_ratio(a, b))
}

#[test]
fn test_count_left() {
    let groupings: Vec<Grouping> = vec![beat(1, 4), beat(1, 2)];
    let mut controller = GroupingController::new(groupings).unwrap();
    assert_eq!(controller.current().unwrap().left, Duration::new(1, 4));
    controller.consume_time(Duration::new(1, 8)).unwrap();
    assert_eq!(controller.current().unwrap().left, Duration::new(1, 8));
    controller.consume_time(Duration::new(1, 8)).unwrap();
    assert_eq!(controller.current().unwrap().left, Duration::new(1, 2));
    controller.consume_time(Duration::new(1, 8)).unwrap();
    assert_eq!(controller.current().unwrap().left, Duration::new(3, 8));
}

#[test]
fn test_err_when_queue_is_empty() {
    let groupings: Vec<Grouping> = vec![beat(1, 4)];
    let mut controller = GroupingController::new(groupings).unwrap();
    assert!(controller
        .consume_time(Duration::new(1, 8))
        .unwrap()
        .is_empty());
    let res = controller.consume_time(Duration::new(1, 4));
    assert!(res.is_err());
    assert_eq!(res.unwrap_err(), Error::StructureExhausted);
}

#[test]
fn test_measure_duration() {
    let measure: Measure = Measure::from_contents(vec![beat(1, 4), beat(1, 4), beat(1, 4)]);
    let m = Grouping::Measure(measure);
    let (n, d) = m.duration().as_ratio();
    assert_eq!(n as f64 / d as f64, 0.75);
    assert_eq!(m.duration().as_ratio(), (3, 4));
}

#[test]
fn test_consume_time_stack_output() {
    let groupings: Vec<Grouping> = vec![
        Grouping::Measure(Measure::from_contents(vec![beat(1, 4), beat(1, 4)])),
        Grouping::Measure(Measure::from_contents(vec![beat(1, 4), beat(1, 4)])),
    ];
    let mut controller = GroupingController::new(groupings).unwrap();
    let out = controller.consume_time(Duration::new(1, 2)).unwrap();
    let exp: Vec<Grouping> = vec![
        beat(1, 4),
        beat(1, 4),
        Grouping::Measure(Measure::from_contents(vec![beat(1, 4), beat(1, 4)])),
    ];

    assert_eq!(out.len(), exp.len());
    for (x, y) in out.iter().zip(exp.iter()) {
        assert_eq!(x.duration().as_ratio(), y.duration().as_ratio());
        assert_eq!(x.start_annotation(), y.start_annotation());
        assert_eq!(x.end_annotation(), y.end_annotation());
    }
}

#[test]
fn test_groupings_stack() {
    let groupings: Vec<Grouping> = vec![
        Grouping::Measure(Measure::from_contents(vec![
            beat(1, 4),
            beat(1, 4),
            beat(1, 4),
        ])),
        Grouping::Measure(Measure::from_contents(vec![
            beat(1, 4),
            beat(1, 4),
            beat(1, 4),
        ])),
    ];
    let mut controller = GroupingController::new(groupings).unwrap();

    assert_eq!(controller.stack[0].left, Duration::new(3, 4));
    assert_eq!(controller.stack[1].left, Duration::new(1, 4));
    controller.consume_time(Duration::new(1, 4)).unwrap();
    assert_eq!(controller.stack[0].left, Duration::new(1, 2));
    assert_eq!(controller.stack[1].left, Duration::new(1, 4));
    controller.consume_time(Duration::new(1, 4)).unwrap();
    assert_eq!(controller.stack[0].left, Duration::new(1, 4));
    assert_eq!(controller.stack[1].left, Duration::new(1, 4));
}

#[test]
fn construction_rejects_empty_input() {
    let res = GroupingController::new(Vec::new());
    assert_eq!(res.err(), Some(Error::ConstructionError));
}

#[test]
fn nested_exhaustion_reports_inner_first() {
    // A measure of a single beat; consuming exactly that beat's time
    // exhausts the beat and the measure simultaneously, and the beat must
    // come out first.
    let groupings: Vec<Grouping> = vec![
        Grouping::Measure(Measure::from_contents(vec![beat(1, 4)])),
        beat(1, 4),
    ];
    let mut controller = GroupingController::new(groupings).unwrap();
    let out = controller.consume_time(Duration::new(1, 4)).unwrap();
    assert_eq!(out.len(), 2);
    assert_eq!(out[0].end_annotation(), "");
    assert_eq!(out[1].end_annotation(), " |\n ");
    assert!(matches!(out[0], Grouping::Beat(_)));
    assert!(matches!(out[1], Grouping::Measure(_)));
}

#[test]
fn is_start_of_grouping_tracks_consumption() {
    let groupings: Vec<Grouping> = vec![beat(1, 4)];
    let mut controller = GroupingController::new(groupings).unwrap();
    assert!(controller.current().unwrap().is_start_of_grouping());
    controller.consume_time(Duration::new(1, 8)).unwrap();
    assert!(!controller.current().unwrap().is_start_of_grouping());
}

#[test]
fn grouping_capabilities() {
    let b = beat(1, 4);
    assert!(b.is_empty());
    assert_eq!(b.start_annotation(), "");
    assert_eq!(b.end_annotation(), "");
    let mut m = Grouping::Measure(Measure::from_contents(vec![beat(1, 8), beat(1, 4)]));
    assert!(!m.is_empty());
    assert_eq!(m.duration().as_ratio(), (3, 8));
    assert_eq!(m.start_annotation(), " %m. \n ");
    assert_eq!(m.end_annotation(), " |\n ");
    // Children are stored in reverse playback order and popped from the back.
    let first = m.next().unwrap();
    assert_eq!(first.duration().as_ratio(), (1, 4));
    let second = m.next().unwrap();
    assert_eq!(second.duration().as_ratio(), (1, 8));
    assert!(m.next().is_none());
}
