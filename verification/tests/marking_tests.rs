use pnawir::marking::{Marking, PlaceCount};

#[test]
fn test_marking_update() {
    let mut marking = Marking {
        place_counts: vec![PlaceCount {
            place_id: 2,
            count: 1,
        }],
    };
    marking.update(2, 1, false);
    assert_eq!(
        marking,
        Marking {
            place_counts: vec![]
        }
    );
}

#[test]
fn count_absent_place_is_zero() {
    let marking = Marking {
        place_counts: vec![PlaceCount::new(1, 3), PlaceCount::new(4, 2)],
    };
    assert_eq!(marking.count(0), 0);
    assert_eq!(marking.count(1), 3);
    assert_eq!(marking.count(2), 0);
    assert_eq!(marking.count(4), 2);
}

#[test]
fn update_inserts_at_sorted_slot() {
    let mut marking = Marking {
        place_counts: vec![PlaceCount::new(1, 1), PlaceCount::new(5, 1)],
    };
    let c = marking.update(3, 2, true);
    assert_eq!(c, 2);
    assert_eq!(marking.place_counts.len(), 3);
    assert_eq!(marking.place_counts[1].place_id, 3);
    assert_eq!(marking.place_counts[1].count, 2);
}

#[test]
fn update_add_and_remove() {
    let mut marking = Marking {
        place_counts: vec![PlaceCount::new(7, 2)],
    };
    assert_eq!(marking.update(7, 3, true), 5);
    assert_eq!(marking.update(7, 5, false), 0);
    assert_eq!(marking.place_counts.len(), 0);
}

#[test]
fn sort_orders_by_place_id() {
    let mut marking = Marking {
        place_counts: vec![
            PlaceCount::new(4, 1),
            PlaceCount::new(1, 2),
            PlaceCount::new(3, 7),
        ],
    };
    marking.sort();
    let ids: Vec<u32> = marking.place_counts.iter().map(|p| p.place_id).collect();
    let counts: Vec<u32> = marking.place_counts.iter().map(|p| p.count).collect();
    assert_eq!(ids, vec![1, 3, 4]);
    assert_eq!(counts, vec![2, 7, 1]);
}

#[test]
fn markings_equal_by_content() {
    let a = Marking {
        place_counts: vec![PlaceCount::new(0, 1)],
    };
    let b = Marking {
        place_counts: vec![PlaceCount::new(0, 1)],
    };
    let c = Marking {
        place_counts: vec![PlaceCount::new(0, 2)],
    };
    assert_eq!(a, b);
    assert_ne!(a, c);
}
