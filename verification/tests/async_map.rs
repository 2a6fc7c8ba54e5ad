use completion::blocking::block_on;
use completion::contract::{CompletionFuture, CompletionStream};
use completion::ext::CompletionStreamExt;
use completion::lift::StreamExt;
use completion::poll::{Poll, PollNext};
use completion::source::{delayed, iter, ready, script};

#[test]
fn ready_finishes_on_first_poll() {
    let mut fut = ready(42);
    assert!(matches!(fut.poll(), Poll::Finished(42)));
}

#[test]
fn delayed_pends_the_prescribed_number_of_times() {
    let mut fut = delayed(2, 'x');
    assert!(matches!(fut.poll(), Poll::Pending));
    assert!(matches!(fut.poll(), Poll::Pending));
    assert!(matches!(fut.poll(), Poll::Finished('x')));
}

#[test]
fn then_maps_through_immediate_operations() {
    let s = iter(vec![0, 1, 2, 3, 4]).must_complete().then(|x: i32| ready(x * 2 + 4));
    let mut it = block_on(s);
    let mut out = Vec::new();
    while let Some(v) = it.next() {
        out.push(v);
    }
    assert_eq!(out, vec![4, 6, 8, 10, 12]);
}

#[test]
fn then_drives_each_operation_to_completion() {
    let s = iter(vec![1, 2]).must_complete().then(|x: i32| delayed(3, x * 10));
    let mut it = block_on(s);
    assert_eq!(it.next(), Some(10));
    assert_eq!(it.next(), Some(20));
    assert_eq!(it.next(), None);
}

#[test]
fn then_propagates_inner_pending_polls() {
    let mut s = script(vec![PollNext::Pending, PollNext::Item(5)])
        .must_complete()
        .then(|x: i32| delayed(1, x + 1));
    assert!(matches!(s.poll_next(), PollNext::Pending));
    // The item arrives, the per-item operation pends once...
    assert!(matches!(s.poll_next(), PollNext::Pending));
    // ...and finishes on the next poll.
    assert!(matches!(s.poll_next(), PollNext::Item(6)));
    assert!(matches!(s.poll_next(), PollNext::Ended));
}

#[test]
fn copied_turns_references_into_values() {
    let a = [1, 2, 3];
    let s = iter(a.iter().collect::<Vec<&i32>>()).must_complete().copied();
    let mut c = s.collect();
    let out = loop {
        match c.poll() {
            Poll::Pending => {}
            Poll::Finished(v) => break v,
        }
    };
    assert_eq!(out, vec![1, 2, 3]);
}

#[test]
fn cloned_duplicates_each_item() {
    let a = vec!["1".to_owned(), "2".to_owned(), "3".to_owned()];
    let s = iter(a.iter().collect::<Vec<&String>>()).must_complete().cloned();
    let mut c = s.collect();
    let out = loop {
        match c.poll() {
            Poll::Pending => {}
            Poll::Finished(v) => break v,
        }
    };
    assert_eq!(out, a);
}
