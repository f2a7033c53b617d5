use pnawir::kernel::{fire, initial_firable};
use pnawir::parse::parse;
use pnawir::transform::{check_raw_input, transform};

#[test]
fn initial_firable_holds_exactly_the_enabled_transitions() {
    let raw = parse("{\nt1: p1 -> p2\nt2: p2 -> p3\nt3: p1(2) -> p3\n}\nm1 { p1(1), p2, p3 }\n")
        .expect("parse");
    assert!(check_raw_input(&raw));
    let net = transform(raw).expect("transform");
    let firable = initial_firable(&net.modules[0], &net.markings[0]);
    // only t1 (id 0) is enabled: t2 needs p2, t3 needs two tokens on p1
    assert_eq!(firable, vec![0]);
}

#[test]
fn fire_consumes_and_produces_and_updates_the_firable_set() {
    let raw = parse("{\nt1: p1 -> p2\nt2: p2 -> p3\n}\nm1 { p1(1), p2, p3 }\n").expect("parse");
    assert!(check_raw_input(&raw));
    let net = transform(raw).expect("transform");
    let module = &net.modules[0];
    let firable = initial_firable(module, &net.markings[0]);
    assert_eq!(firable, vec![0]);
    let (marking2, firable2) = fire(module, &net.markings[0], &firable, 0);
    assert_eq!(marking2.count(0), 0);
    assert_eq!(marking2.count(1), 1);
    assert_eq!(marking2.count(2), 0);
    // t1 disabled itself, t2 became enabled
    assert_eq!(firable2, vec![1]);
}
