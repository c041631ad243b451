use scritto::{gcd, lcm, Duration, Error};

#[test]
fn test_lcm() {
    assert_eq!(lcm(6, 8), 24);
}

#[test]
fn test_gcd() {
    assert_eq!(gcd(6, 8), 2);
}

#[test]
fn subtract_duration() {
    let dur1 = Duration::new(6, 1);
    let dur2 = Duration::new(4, 1);
    assert_eq!(dur1.sub(dur2), Duration::new(2, 1));
}

#[test]
fn subtract_ratio() {
    let dur1 = Duration::new(1, 6);
    let dur2 = Duration::new(1, 8);
    assert_eq!(dur1.sub(dur2), Duration::new(1, 24));
}

#[test]
fn to_float() {
    let dur = Duration::new(1, 4);
    let (n, d) = dur.as_ratio();
    assert_eq!(n as f64 / d as f64, 0.25);
}

#[test]
fn as_lilypond() {
    let dur = Duration::new(1, 1);
    assert_eq!(dur.render_notation().unwrap(), "1");
}

#[test]
fn as_lilypond_dotted() {
    let dur = Duration::new(3, 4);
    assert_eq!(dur.render_notation().unwrap(), "4.");
}

#[test]
fn new_reduces_to_lowest_terms() {
    assert_eq!(Duration::new(4, 8).as_ratio(), (1, 2));
    assert_eq!(Duration::new(6, 9).as_ratio(), (2, 3));
    assert_eq!(Duration::new(0, 5).as_ratio(), (0, 1));
    assert_eq!(Duration::new(7, 7).as_ratio(), (1, 1));
    let (_, d) = Duration::new(0, 1).as_ratio();
    assert!(d > 0);
}

#[test]
fn add_sub_round_trip() {
    let a = Duration::new(2, 3);
    let b = Duration::new(5, 7);
    assert_eq!(a.add(b).sub(b), a);
    let c = Duration::new(1, 6);
    let d = Duration::new(1, 8);
    assert_eq!(c.add(d).sub(d), c);
}

#[test]
fn quarter_note_notation() {
    assert_eq!(Duration::new(1, 4).render_notation().unwrap(), "4");
}

#[test]
fn unsupported_notation_is_rejected() {
    assert_eq!(
        Duration::new(5, 7).render_notation(),
        Err(Error::UnsupportedDurationNotation)
    );
    assert_eq!(
        Duration::new(2, 3).render_notation(),
        Err(Error::UnsupportedDurationNotation)
    );
}

#[test]
fn exact_comparison() {
    assert!(Duration::new(1, 8) < Duration::new(1, 4));
    assert!(Duration::new(1, 2) > Duration::new(3, 8));
    assert!(Duration::new(2, 4) == Duration::new(1, 2));
}
