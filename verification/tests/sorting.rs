use std::cmp::Ordering;

use stamped::{get_stamp_ref, stamp_ref_cmp, Stamped};

/// A value that is its own stamp.
#[derive(Debug, PartialEq, Clone, Copy)]
struct Plain(isize);

impl Stamped<isize> for Plain {
    fn stamp(&self) -> isize {
        self.0
    }

    fn stamp_ref(&self) -> &isize {
        &self.0
    }
}

/// A value whose stamp is one field among others, and which has no order of
/// its own.
#[derive(Debug, PartialEq, Clone)]
struct Event {
    at: u64,
    what: String,
}

impl Stamped<u64> for Event {
    fn stamp(&self) -> u64 {
        self.at
    }

    fn stamp_ref(&self) -> &u64 {
        &self.at
    }
}

fn event(at: u64, what: &str) -> Event {
    Event { at, what: what.to_string() }
}

#[test]
fn sort_stamp_vec() {
    let mut stamped_vec = vec![Plain(3), Plain(0), Plain(-10), Plain(100)];
    stamped_vec.sort_by(stamp_ref_cmp);

    assert_eq!(stamped_vec, vec![Plain(-10), Plain(0), Plain(3), Plain(100)]);
}

#[test]
fn comparator_is_the_comparison_of_the_stamps() {
    let stamps: [isize; 5] = [-10, 0, 3, 3, 100];
    for a in stamps {
        for b in stamps {
            assert_eq!(stamp_ref_cmp(&Plain(a), &Plain(b)), a.cmp(&b));
        }
    }
}

#[test]
fn comparator_exact_answers() {
    assert_eq!(stamp_ref_cmp(&event(3, "a"), &event(5, "b")), Ordering::Less);
    assert_eq!(stamp_ref_cmp(&event(5, "a"), &event(3, "b")), Ordering::Greater);
    assert_eq!(stamp_ref_cmp(&event(4, "a"), &event(4, "b")), Ordering::Equal);
}

#[test]
fn comparator_ignores_what_is_not_the_stamp() {
    let early = event(1, "zzz");
    let late = event(2, "aaa");
    assert_eq!(stamp_ref_cmp(&early, &late), Ordering::Less);
    assert_eq!(stamp_ref_cmp(&late, &early), Ordering::Greater);
}

#[test]
fn sort_of_values_without_an_order_of_their_own() {
    let mut events = vec![event(30, "c"), event(10, "a"), event(20, "b")];
    events.sort_by(stamp_ref_cmp);
    assert_eq!(events, vec![event(10, "a"), event(20, "b"), event(30, "c")]);
}

#[test]
fn sort_of_nothing_and_of_one() {
    let mut none: Vec<Plain> = Vec::new();
    none.sort_by(stamp_ref_cmp);
    assert!(none.is_empty());

    let mut one = vec![Plain(7)];
    one.sort_by(stamp_ref_cmp);
    assert_eq!(one, vec![Plain(7)]);
}

#[test]
fn get_stamp_ref_gives_the_stamp() {
    assert_eq!(*get_stamp_ref(&Plain(-10)), -10);
    let noon = event(12, "noon");
    assert_eq!(*get_stamp_ref(&noon), 12);
    assert!(std::ptr::eq(get_stamp_ref(&noon), &noon.at));
}

#[test]
fn stamp_is_the_same_at_every_call() {
    let noon = event(12, "noon");
    assert_eq!(get_stamp_ref(&noon), get_stamp_ref(&noon));
    assert_eq!(noon.stamp_ref(), get_stamp_ref(&noon));
}
