use ffxivtools::batch::BatchWaiters;
use ffxivtools::reference::{SqPackFileReference, SqPackReaderError};

fn files() -> (SqPackFileReference, SqPackFileReference) {
    (
        SqPackFileReference::new("exd/item.exh"),
        SqPackFileReference::new("exd/action.exh"),
    )
}

#[test]
fn batch_asks_each_file_once() {
    let (a, b) = files();
    let mut waiters = BatchWaiters::new();
    assert!(waiters.is_empty());
    waiters.wait(a, 1);
    waiters.wait(b, 2);
    waiters.wait(a, 3);
    assert!(!waiters.is_empty());
    assert_eq!(waiters.references(), vec![a, b]);
}

#[test]
fn batch_hands_each_reader_its_file() {
    let (a, b) = files();
    let mut waiters = BatchWaiters::new();
    waiters.wait(a, 1);
    waiters.wait(b, 2);
    waiters.wait(a, 3);
    let batch = waiters.take();
    assert!(waiters.is_empty());
    let results = vec![(b, vec![20u8, 21]), (a, vec![10u8])];
    assert_eq!(
        batch.dispatch(&results),
        Some(vec![(1, vec![10u8]), (3, vec![10u8]), (2, vec![20u8, 21])])
    );
}

#[test]
fn batch_without_answer_for_a_file() {
    let (a, b) = files();
    let mut waiters = BatchWaiters::new();
    waiters.wait(a, 7);
    waiters.wait(b, 8);
    assert_eq!(waiters.dispatch(&[(a, vec![1u8])]), None);
    assert_eq!(BatchWaiters::new().dispatch(&[]), Some(vec![]));
}

#[test]
fn poll_steps() {
    let (a, b) = files();
    let mut waiters = BatchWaiters::new();
    assert!(waiters.start_poll().is_none());
    waiters.wait(a, 1);
    waiters.wait(b, 2);
    waiters.wait(a, 3);
    let (batch, asked) = waiters.start_poll().unwrap();
    assert!(waiters.is_empty());
    assert_eq!(asked, vec![a, b]);
    assert_eq!(batch.finish_poll(Err(SqPackReaderError::NoSuchFile)), Err(SqPackReaderError::NoSuchFile));
    let answer = vec![(a, vec![1u8]), (b, vec![2u8])];
    assert_eq!(
        batch.finish_poll(Ok(answer)),
        Ok(vec![(1, vec![1u8]), (3, vec![1u8]), (2, vec![2u8])])
    );
}
