use pnawir::marking::{Marking, PlaceCount};
use pnawir::parse::parse;

#[test]
fn parses_transitions_and_modules() {
    let raw = parse("# a comment\n{\nt1: p1, p2(3) -> p3\n}\nm1 { p1(1), p2(5)\n p3 }\n")
        .expect("parse");
    assert_eq!(raw.transitions.len(), 1);
    assert_eq!(raw.transitions[0].name, "t1");
    assert_eq!(raw.transitions[0].input_places.len(), 2);
    assert_eq!(raw.transitions[0].input_places[0].name, "p1");
    assert_eq!(raw.transitions[0].input_places[0].weight, 1);
    assert_eq!(raw.transitions[0].input_places[1].name, "p2");
    assert_eq!(raw.transitions[0].input_places[1].weight, 3);
    assert_eq!(raw.transitions[0].output_places.len(), 1);
    assert_eq!(raw.transitions[0].output_places[0].weight, 1);
    assert_eq!(raw.modules.len(), 1);
    assert_eq!(raw.modules[0].name, "m1");
    assert_eq!(raw.modules[0].places.len(), 3);
    assert_eq!(raw.modules[0].places[0].weight, 1);
    assert_eq!(raw.modules[0].places[1].weight, 5);
    assert_eq!(raw.modules[0].places[2].weight, 0);
}

#[test]
fn parses_two_modules() {
    let raw = parse("{\ns: a1, b1 -> a2, b2\n}\nmodA { a1(1), a2 }\nmodB { b1, b2 }\n")
        .expect("parse");
    assert_eq!(raw.modules.len(), 2);
    assert_eq!(raw.modules[0].name, "modA");
    assert_eq!(raw.modules[1].name, "modB");
}

#[test]
fn rejects_missing_brace() {
    assert!(parse("t1: p1 -> p2\nm1 { p1 }\n").is_err());
}

#[test]
fn rejects_weight_out_of_range() {
    assert!(parse("{\nt: p1(300) -> p2\n}\nm1 { p1, p2 }\n").is_err());
}

#[test]
fn rejects_input_without_modules() {
    assert!(parse("{\nt: p1 -> p2\n}\n").is_err());
}

#[test]
fn marking_order_is_length_then_lexicographic() {
    let short = Marking {
        place_counts: vec![PlaceCount::new(9, 9)],
    };
    let long = Marking {
        place_counts: vec![PlaceCount::new(0, 1), PlaceCount::new(1, 1)],
    };
    assert_eq!(short.cmp(&long), std::cmp::Ordering::Less);
    assert_eq!(long.cmp(&short), std::cmp::Ordering::Greater);

    let a = Marking {
        place_counts: vec![PlaceCount::new(0, 1), PlaceCount::new(2, 1)],
    };
    let b = Marking {
        place_counts: vec![PlaceCount::new(0, 1), PlaceCount::new(2, 4)],
    };
    assert_eq!(a.cmp(&b), std::cmp::Ordering::Less);
    assert_eq!(a.cmp(&a), std::cmp::Ordering::Equal);
}
