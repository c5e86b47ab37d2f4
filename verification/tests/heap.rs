use revord::RevOrd;
use stamped::{StampedBinaryHeap, StampedHeap, Stamped};

/// A value that is its own stamp.
#[derive(Debug, PartialEq, Clone, Copy)]
struct Plain(isize);

impl Stamped<isize> for Plain {
    fn stamp(&self) -> isize {
        self.0
    }

    fn stamp_ref(&self) -> &isize {
        &self.0
    }
}

#[derive(Debug, PartialEq, Clone)]
struct Job {
    due: u32,
    name: &'static str,
}

impl Stamped<u32> for Job {
    fn stamp(&self) -> u32 {
        self.due
    }

    fn stamp_ref(&self) -> &u32 {
        &self.due
    }
}

/// A value whose stamp has the reversed order, so that the least comes first.
struct Soonest {
    due: RevOrd<u32>,
    name: &'static str,
}

impl Stamped<RevOrd<u32>> for Soonest {
    fn stamp(&self) -> RevOrd<u32> {
        RevOrd(self.due.0)
    }

    fn stamp_ref(&self) -> &RevOrd<u32> {
        &self.due
    }
}

fn drain<S: Stamped<ST>, ST: Ord>(heap: &mut StampedBinaryHeap<S, ST>) -> Vec<S> {
    let mut out = Vec::new();
    while let Some(value) = heap.pop_stamped() {
        out.push(value);
    }
    out
}

#[test]
fn stamp_heap_test() {
    let mut heap = StampedBinaryHeap::<Plain, isize>::new();
    heap.push_stamped(Plain(12));
    heap.push_stamped(Plain(13));
    heap.push_stamped(Plain(0));

    assert_eq!(heap.peek_stamped(), Some(&Plain(13)));
    assert_eq!(heap.pop_stamped(), Some(Plain(13)));
    assert_eq!(heap.pop_stamped(), Some(Plain(12)));
    assert_eq!(heap.peek_stamped(), Some(&Plain(0)));
    assert_eq!(heap.pop_stamped(), Some(Plain(0)));
    assert_eq!(heap.pop_stamped(), None);
}

#[test]
fn empty_queue_gives_nothing() {
    let mut heap = StampedBinaryHeap::<Plain, isize>::new();
    assert_eq!(heap.len(), 0);
    assert!(heap.is_empty());
    assert_eq!(heap.peek_stamped(), None);
    assert_eq!(heap.pop_stamped(), None);
    assert_eq!(heap.pop_stamped(), None);
    assert_eq!(heap.len(), 0);
}

#[test]
fn len_counts_pushes_and_pops() {
    let mut heap = StampedBinaryHeap::<Plain, isize>::new();
    heap.push_stamped(Plain(4));
    assert_eq!(heap.len(), 1);
    assert!(!heap.is_empty());
    heap.push_stamped(Plain(4));
    heap.push_stamped(Plain(-1));
    assert_eq!(heap.len(), 3);
    heap.pop_stamped();
    assert_eq!(heap.len(), 2);
    heap.pop_stamped();
    heap.pop_stamped();
    assert_eq!(heap.len(), 0);
    assert!(heap.is_empty());
}

#[test]
fn peek_twice_is_the_same_and_takes_nothing() {
    let mut heap = StampedBinaryHeap::<Job, u32>::new();
    heap.push_stamped(Job { due: 5, name: "five" });
    heap.push_stamped(Job { due: 8, name: "eight" });
    heap.push_stamped(Job { due: 8, name: "other eight" });
    heap.push_stamped(Job { due: 1, name: "one" });

    let first = heap.peek_stamped().cloned();
    let second = heap.peek_stamped().cloned();
    let third = heap.peek_stamped().cloned();
    assert_eq!(first, second);
    assert_eq!(second, third);
    assert_eq!(first.map(|job| job.due), Some(8));
    assert_eq!(heap.len(), 4);
}

#[test]
fn pop_takes_what_peek_showed() {
    let mut heap = StampedBinaryHeap::<Job, u32>::new();
    for (due, name) in [(3, "c"), (9, "x"), (9, "y"), (4, "d"), (9, "z"), (0, "a")] {
        heap.push_stamped(Job { due, name });
    }
    while !heap.is_empty() {
        let shown = heap.peek_stamped().cloned();
        let taken = heap.pop_stamped();
        assert_eq!(shown, taken);
    }
}

#[test]
fn pops_come_in_non_increasing_order() {
    let pushed: [isize; 16] = [5, -3, 12, 0, 7, 7, 100, -50, 3, 12, 1, 64, -3, 9, 2, 8];
    let mut heap = StampedBinaryHeap::<Plain, isize>::new();
    for stamp in pushed {
        heap.push_stamped(Plain(stamp));
    }
    let popped: Vec<isize> = drain(&mut heap).into_iter().map(|plain| plain.0).collect();
    assert_eq!(popped, vec![100, 64, 12, 12, 9, 8, 7, 7, 5, 3, 2, 1, 0, -3, -3, -50]);
    for pair in popped.windows(2) {
        assert!(pair[0] >= pair[1]);
    }
}

#[test]
fn pops_give_back_every_value_once() {
    let mut heap = StampedBinaryHeap::<Job, u32>::new();
    let jobs = [(2, "b"), (7, "g"), (2, "c"), (1, "a"), (7, "h"), (2, "d")];
    for (due, name) in jobs {
        heap.push_stamped(Job { due, name });
    }
    let mut popped: Vec<(u32, &'static str)> =
        drain(&mut heap).into_iter().map(|job| (job.due, job.name)).collect();
    let dues: Vec<u32> = popped.iter().map(|job| job.0).collect();
    assert_eq!(dues, vec![7, 7, 2, 2, 2, 1]);
    popped.sort();
    let mut expected = jobs.to_vec();
    expected.sort();
    assert_eq!(popped, expected);
}

#[test]
fn pushes_between_pops_keep_the_greatest_at_the_front() {
    let mut heap = StampedBinaryHeap::<Plain, isize>::new();
    heap.push_stamped(Plain(10));
    heap.push_stamped(Plain(30));
    assert_eq!(heap.pop_stamped(), Some(Plain(30)));
    heap.push_stamped(Plain(20));
    heap.push_stamped(Plain(5));
    assert_eq!(heap.peek_stamped(), Some(&Plain(20)));
    assert_eq!(heap.pop_stamped(), Some(Plain(20)));
    heap.push_stamped(Plain(40));
    assert_eq!(heap.pop_stamped(), Some(Plain(40)));
    assert_eq!(heap.pop_stamped(), Some(Plain(10)));
    assert_eq!(heap.pop_stamped(), Some(Plain(5)));
    assert_eq!(heap.pop_stamped(), None);
}

#[test]
fn ascending_and_descending_pushes_pop_alike() {
    let mut up = StampedBinaryHeap::<Plain, isize>::new();
    let mut down = StampedBinaryHeap::<Plain, isize>::new();
    for stamp in 0..50 {
        up.push_stamped(Plain(stamp));
        down.push_stamped(Plain(49 - stamp));
    }
    let expected: Vec<Plain> = (0..50).rev().map(Plain).collect();
    assert_eq!(drain(&mut up), expected);
    assert_eq!(drain(&mut down), expected);
}

#[test]
fn reversed_stamps_pop_the_least_first() {
    let mut heap = StampedBinaryHeap::<Soonest, RevOrd<u32>>::new();
    heap.push_stamped(Soonest { due: RevOrd(12), name: "twelve" });
    heap.push_stamped(Soonest { due: RevOrd(13), name: "thirteen" });
    heap.push_stamped(Soonest { due: RevOrd(0), name: "zero" });

    assert_eq!(heap.peek_stamped().map(|job| job.name), Some("zero"));
    let names: Vec<&'static str> = drain(&mut heap).into_iter().map(|job| job.name).collect();
    assert_eq!(names, vec!["zero", "twelve", "thirteen"]);
}

#[test]
fn reversed_wrapper_has_the_stamp_of_what_it_wraps() {
    let wrapped = RevOrd(Job { due: 6, name: "six" });
    assert_eq!(*wrapped.stamp_ref(), 6);
    assert_eq!(*stamped::get_stamp_ref(&wrapped), 6);
}

#[test]
fn reversed_wrapper_is_queued_by_the_stamp_it_forwards() {
    let mut heap = StampedBinaryHeap::<RevOrd<Job>, u32>::new();
    heap.push_stamped(RevOrd(Job { due: 12, name: "twelve" }));
    heap.push_stamped(RevOrd(Job { due: 13, name: "thirteen" }));
    heap.push_stamped(RevOrd(Job { due: 0, name: "zero" }));

    let names: Vec<&'static str> = drain(&mut heap).into_iter().map(|job| job.0.name).collect();
    assert_eq!(names, vec!["thirteen", "twelve", "zero"]);
}
