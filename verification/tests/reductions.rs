use completion::contract::CompletionFuture;
use completion::ext::CompletionStreamExt;
use completion::lift::StreamExt;
use completion::poll::{Poll, PollNext};
use completion::source::{iter, script};

fn finish<F: CompletionFuture>(fut: &mut F) -> F::Output {
    loop {
        match fut.poll() {
            Poll::Pending => {}
            Poll::Finished(v) => return v,
        }
    }
}

#[test]
fn next_walks_the_stream() {
    let s = iter(vec![0, 1, 2]).must_complete();
    let mut fut = s.next();
    assert_eq!(finish(&mut fut), Some(0));
    let mut fut = fut.into_inner().next();
    assert_eq!(finish(&mut fut), Some(1));
    let mut fut = fut.into_inner().next();
    assert_eq!(finish(&mut fut), Some(2));
    let mut fut = fut.into_inner().next();
    assert_eq!(finish(&mut fut), None);
}

#[test]
fn count_counts_items() {
    let mut c = iter((3..7).collect::<Vec<i32>>()).must_complete().count();
    assert_eq!(finish(&mut c), 4);
    let mut c = iter(vec![8, 2, 4]).must_complete().count();
    assert_eq!(finish(&mut c), 3);
}

#[test]
fn count_counts_one_per_item_poll() {
    let mut c = script(vec![
        PollNext::Pending,
        PollNext::Item(1),
        PollNext::Pending,
        PollNext::Item(2),
        PollNext::Item(3),
    ])
    .must_complete()
    .count();
    assert_eq!(finish(&mut c), 3);
}

#[test]
fn take_count_is_the_smaller_bound() {
    let mut c = iter((0..10).collect::<Vec<i32>>()).must_complete().take(3).count();
    assert_eq!(finish(&mut c), 3);
    let mut c = iter((0..10).collect::<Vec<i32>>()).must_complete().take(15).count();
    assert_eq!(finish(&mut c), 10);
}

#[test]
fn skip_count_is_the_remainder() {
    let mut c = iter((0..10).collect::<Vec<i32>>()).must_complete().skip(3).count();
    assert_eq!(finish(&mut c), 7);
    let mut c = iter((0..10).collect::<Vec<i32>>()).must_complete().skip(15).count();
    assert_eq!(finish(&mut c), 0);
}

#[test]
fn last_takes_the_final_item() {
    let mut l = iter((3..7).collect::<Vec<i32>>()).must_complete().last();
    assert_eq!(finish(&mut l), Some(6));
    let mut l = iter(Vec::<String>::new()).must_complete().last();
    assert_eq!(finish(&mut l), None);
}

#[test]
fn nth_indexes_from_zero() {
    let mut n = iter((3..7).collect::<Vec<i32>>()).must_complete().nth(2);
    assert_eq!(finish(&mut n), Some(5));
    let mut n = iter((3..7).collect::<Vec<i32>>()).must_complete().nth(10);
    assert_eq!(finish(&mut n), None);
}

#[test]
fn fold_accumulates_in_arrival_order() {
    let mut f = iter(vec![1, 8, 2]).must_complete().fold(0, |acc: i32, x: i32| acc + x);
    assert_eq!(finish(&mut f), 11);
    let mut f = iter(vec![1, 2, 3]).must_complete().fold(String::new(), |mut acc: String,
        x: i32| {
        acc.push_str(&x.to_string());
        acc
    });
    assert_eq!(finish(&mut f), "123");
}

#[test]
fn fold_of_empty_stream_is_the_start() {
    let mut f = iter(Vec::<i32>::new()).must_complete().fold(41, |acc: i32, x: i32| acc + x);
    assert_eq!(finish(&mut f), 41);
}

#[test]
fn all_checks_every_item() {
    let mut a = iter((0..10).collect::<Vec<i32>>()).must_complete().all(|x: i32| x < 10);
    assert!(finish(&mut a));
    let mut a = iter((0..8).collect::<Vec<i32>>()).must_complete().all(|x: i32| x < 7);
    assert!(!finish(&mut a));
    let mut a = iter(Vec::<i32>::new()).must_complete().all(|_x: i32| false);
    assert!(finish(&mut a));
}

#[test]
fn any_finds_a_witness() {
    let mut a = iter((0..10).collect::<Vec<i32>>()).must_complete().any(|x: i32| x == 9);
    assert!(finish(&mut a));
    let mut a = iter((0..8).collect::<Vec<i32>>()).must_complete().any(|x: i32| x == 9);
    assert!(!finish(&mut a));
    let mut a = iter(Vec::<i32>::new()).must_complete().any(|_x: i32| true);
    assert!(!finish(&mut a));
}

#[test]
fn any_stops_at_the_first_witness() {
    // The first item already decides; the rest must stay unpulled.
    let s = script(vec![PollNext::Item(0), PollNext::Item(1), PollNext::Item(2)]).must_complete();
    let mut a = s.any(|x: i32| x == 0);
    assert!(finish(&mut a));
    assert_eq!(a.into_inner().stream.steps.len(), 2);
}

#[test]
fn all_stops_at_the_first_failure() {
    let s = script(vec![PollNext::Item(4), PollNext::Item(5), PollNext::Item(6)]).must_complete();
    let mut a = s.all(|_x: i32| false);
    assert!(!finish(&mut a));
    assert_eq!(a.into_inner().stream.steps.len(), 2);
}

#[test]
fn collect_round_trips_the_items() {
    let mut c = iter(vec!['a', 'b', 'c']).must_complete().collect();
    assert_eq!(finish(&mut c), vec!['a', 'b', 'c']);
}

#[test]
fn collect_of_built_pipeline() {
    let mut c = iter((0..5).collect::<Vec<i32>>()).must_complete().collect();
    assert_eq!(finish(&mut c), vec![0, 1, 2, 3, 4]);
}

#[test]
fn for_each_visits_every_item() {
    // The function is `Fn`, so the effect goes through interior-free
    // means: here, just check completion on a plain stream.
    let mut f = iter(vec![0, 1, 2]).must_complete().for_each(|_x: i32| {});
    finish(&mut f);
}

#[test]
fn copied_style_projection_through_map() {
    let a = vec![1, 2, 3];
    let s = iter(a.clone()).must_complete().map(|x: i32| x);
    let mut c = s.collect();
    assert_eq!(finish(&mut c), a);
}
