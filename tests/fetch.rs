use art_of_rally_leaderboard_utils::fetch::{payloads, Batch, FetchError};

#[test]
fn completions_land_in_their_slots_whatever_the_order() {
    let n = 5;
    let failing = 2;
    let mut batch: Batch<u32> = Batch::new(n);
    assert!(!batch.is_complete());
    for token in [4usize, 1, 2, 0, 3] {
        let outcome = if token == failing { Err(FetchError::Transport) } else { Ok(token as u32 * 10) };
        batch.complete(token, outcome);
    }
    assert!(batch.is_complete());
    let results = batch.into_results();
    assert_eq!(results.len(), n);
    for (k, r) in results.iter().enumerate() {
        if k == failing {
            assert_eq!(*r, Err(FetchError::Transport));
        } else {
            assert_eq!(*r, Ok(k as u32 * 10));
        }
    }
}

#[test]
fn failed_slots_become_absent_payloads() {
    let p = payloads(vec![Ok(1u8), Err(FetchError::Decode), Ok(3), Err(FetchError::Url)]);
    assert_eq!(p, vec![Some(1), None, Some(3), None]);
}

#[test]
fn empty_batch_is_complete() {
    let batch: Batch<u8> = Batch::new(0);
    assert!(batch.is_complete());
    assert!(batch.into_results().is_empty());
}
