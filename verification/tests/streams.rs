use completion::blocking::block_on;
use completion::contract::{CompletionFuture, CompletionStream};
use completion::ext::{CollectOptionExt, CollectResultExt, CompletionStreamExt};
use completion::lift::StreamExt;
use completion::poll::{Poll, PollNext};
use completion::source::{iter, script};

fn drive<F: CompletionFuture>(mut fut: F) -> F::Output {
    loop {
        match fut.poll() {
            Poll::Pending => {}
            Poll::Finished(v) => return v,
        }
    }
}

fn drain<S: CompletionStream>(stream: S) -> Vec<S::Item> {
    let mut it = block_on(stream);
    let mut out = Vec::new();
    while let Some(v) = it.next() {
        out.push(v);
    }
    out
}

#[test]
fn iter_yields_in_order() {
    let s = iter(vec![1, 1, 2, 3, 5]).must_complete();
    assert_eq!(drain(s), vec![1, 1, 2, 3, 5]);
}

#[test]
fn script_replays_pending_and_items() {
    let s = script(vec![
        PollNext::Pending,
        PollNext::Item(7),
        PollNext::Pending,
        PollNext::Pending,
        PollNext::Item(9),
    ])
    .must_complete();
    assert_eq!(drain(s), vec![7, 9]);
}

#[test]
fn map_transforms_each_item() {
    let s = iter(vec![0, 1, 2, 3, 4]).must_complete().map(|x: i32| x * 2 + 4);
    assert_eq!(drain(s), vec![4, 6, 8, 10, 12]);
}

#[test]
fn filter_keeps_multiples() {
    let s = iter((1..=10).collect::<Vec<i32>>()).must_complete().filter(|n: &i32| n % 3 == 0);
    assert_eq!(drain(s), vec![3, 6, 9]);
}

#[test]
fn filter_map_parses_numbers() {
    let strings = vec!["5", "!", "2", "NaN", "6", ""];
    let s = iter(strings).must_complete().filter_map(|s: &str| s.parse::<i32>().ok());
    assert_eq!(drain(s), vec![5, 2, 6]);
}

#[test]
fn filtered_then_mapped_pipeline() {
    let s = iter(vec![0, 1, 2, 3, 4])
        .must_complete()
        .filter(|x: &i32| x % 2 == 0)
        .map(|x: i32| x * 10);
    assert_eq!(drain(s), vec![0, 20, 40]);
}

#[test]
fn skip_while_drops_leading_whitespace() {
    let chars: Vec<char> = "   Hi".chars().collect();
    let s = iter(chars).must_complete().skip_while(|c: &char| c.is_whitespace());
    let out: String = drain(s).into_iter().collect();
    assert_eq!(out, "Hi");
}

#[test]
fn skip_while_never_resumes_skipping() {
    let chars: Vec<char> = "  a b".chars().collect();
    let s = iter(chars).must_complete().skip_while(|c: &char| c.is_whitespace());
    let out: String = drain(s).into_iter().collect();
    assert_eq!(out, "a b");
}

#[test]
fn take_while_cuts_at_first_rejection() {
    let chars: Vec<char> = "Hello world!\nFoo bar".chars().collect();
    let s = iter(chars).must_complete().take_while(|&c: &char| c != '\n');
    let out: String = drain(s).into_iter().collect();
    assert_eq!(out, "Hello world!");
}

#[test]
fn skip_drops_prefix() {
    let s = iter((0..10).collect::<Vec<i32>>()).must_complete().skip(5);
    assert_eq!(drain(s), vec![5, 6, 7, 8, 9]);
}

#[test]
fn take_bounds_the_stream() {
    let s = iter(vec![19; 8]).must_complete().take(5);
    assert_eq!(drain(s), vec![19, 19, 19, 19, 19]);
}

#[test]
fn step_by_picks_every_second_item() {
    let s = iter(vec![0, 1, 2, 3, 4, 5]).must_complete().step_by(2);
    assert_eq!(drain(s), vec![0, 2, 4]);
}

#[test]
fn step_by_picks_every_third_item() {
    let s = iter((0..10).collect::<Vec<i32>>()).must_complete().step_by(3);
    assert_eq!(drain(s), vec![0, 3, 6, 9]);
}

#[test]
fn step_by_works_across_pending_polls() {
    let s = script(vec![
        PollNext::Item(10),
        PollNext::Pending,
        PollNext::Item(11),
        PollNext::Item(12),
        PollNext::Pending,
        PollNext::Item(13),
    ])
    .must_complete()
    .step_by(2);
    assert_eq!(drain(s), vec![10, 12]);
}

#[test]
fn chain_concatenates_without_interleaving() {
    let a = iter((4..6).collect::<Vec<i32>>()).must_complete();
    let b = iter((6..10).collect::<Vec<i32>>()).must_complete();
    assert_eq!(drain(a.chain(b)), vec![4, 5, 6, 7, 8, 9]);
}

#[test]
fn chain_holds_order_across_pending_polls() {
    let a = script(vec![PollNext::Pending, PollNext::Item(1), PollNext::Pending, PollNext::Item(2)])
        .must_complete();
    let b = script(vec![PollNext::Item(3), PollNext::Pending, PollNext::Item(4)]).must_complete();
    assert_eq!(drain(a.chain(b)), vec![1, 2, 3, 4]);
}

#[test]
fn fuse_makes_the_end_permanent() {
    // A sequence that misbehaves: it produces another item after its end.
    let raw = script(vec![PollNext::Item(5), PollNext::Ended, PollNext::Item(7)]).must_complete();
    let mut fused = raw.fuse();
    assert!(matches!(fused.poll_next(), PollNext::Item(5)));
    assert!(matches!(fused.poll_next(), PollNext::Ended));
    assert!(matches!(fused.poll_next(), PollNext::Ended));
    assert!(matches!(fused.poll_next(), PollNext::Ended));
}

#[test]
fn fuse_of_single_item_stream() {
    let mut s = iter(vec![5]).must_complete().fuse();
    assert!(matches!(s.poll_next(), PollNext::Item(5)));
    assert!(matches!(s.poll_next(), PollNext::Ended));
    assert!(matches!(s.poll_next(), PollNext::Ended));
}

#[test]
fn block_on_spins_through_pending() {
    let s = script(vec![PollNext::Pending, PollNext::Pending, PollNext::Item(3), PollNext::Ended])
        .must_complete();
    let mut it = block_on(s);
    assert_eq!(it.next(), Some(3));
    assert_eq!(it.next(), None);
}

#[test]
fn block_on_gives_no_size_estimate() {
    let it = block_on(iter(vec![1, 2, 3]).must_complete());
    assert_eq!(it.size_hint(), (0, None));
}

#[test]
fn collect_option_stops_at_first_absent_value() {
    let s = script(vec![
        PollNext::Item(Some(1)),
        PollNext::Item(Some(2)),
        PollNext::Item(None::<i32>),
        PollNext::Item(Some(3)),
    ])
    .must_complete();
    let fut = s.collect_option();
    let mut fut = fut;
    let out = loop {
        match fut.poll() {
            Poll::Pending => {}
            Poll::Finished(v) => break v,
        }
    };
    assert_eq!(out, None);
    // The entry after the absent value was never pulled.
    assert_eq!(fut.stream.stream.steps.len(), 1);
}

#[test]
fn collect_option_gathers_when_all_present() {
    let s = iter(vec![Some(0), Some(1), Some(2), Some(3), Some(4)]).must_complete();
    assert_eq!(drive(s.collect_option()), Some(vec![0, 1, 2, 3, 4]));
}

#[test]
fn collect_result_stops_at_first_error() {
    let s = script(vec![
        PollNext::Item(Ok::<i32, String>(1)),
        PollNext::Item(Ok(2)),
        PollNext::Item(Err("boom".to_owned())),
        PollNext::Item(Ok(3)),
    ])
    .must_complete();
    let mut fut = s.collect_result();
    let out = loop {
        match fut.poll() {
            Poll::Pending => {}
            Poll::Finished(v) => break v,
        }
    };
    assert_eq!(out, Err("boom".to_owned()));
    // The entry after the error was never pulled.
    assert_eq!(fut.stream.stream.steps.len(), 1);
}

#[test]
fn collect_result_gathers_when_all_ok() {
    let s = iter(vec![Ok::<i32, String>(4), Ok(5), Ok(6)]).must_complete();
    let mut fut = s.collect_result();
    let out = loop {
        match fut.poll() {
            Poll::Pending => {}
            Poll::Finished(v) => break v,
        }
    };
    assert_eq!(out, Ok(vec![4, 5, 6]));
}
