use compact_codec::budget::Budget;
use compact_codec::config::Config;
use compact_codec::de::Decoder;
use compact_codec::error::DecodeError;

#[test]
fn claims_add_up_to_the_limit() {
    let mut budget = Budget::new(Some(100));
    assert_eq!(budget.remaining(), Some(100));
    assert_eq!(budget.claim(60), Ok(()));
    assert_eq!(budget.remaining(), Some(40));
    assert_eq!(budget.claim(40), Ok(()));
    assert_eq!(budget.remaining(), Some(0));
    assert_eq!(budget.claim(0), Ok(()));
    assert_eq!(budget.claim(1), Err(DecodeError::LimitExceeded));
}

#[test]
fn refused_claim_changes_nothing() {
    let mut budget = Budget::new(Some(100));
    assert_eq!(budget.claim(60), Ok(()));
    assert_eq!(budget.claim(41), Err(DecodeError::LimitExceeded));
    assert_eq!(budget.remaining(), Some(40));
    assert_eq!(budget.claim(usize::MAX), Err(DecodeError::LimitExceeded));
    assert_eq!(budget.remaining(), Some(40));
}

#[test]
fn release_gives_back_what_was_claimed() {
    let mut budget = Budget::new(Some(100));
    assert_eq!(budget.claim(60), Ok(()));
    budget.release(25);
    assert_eq!(budget.remaining(), Some(65));
    budget.release(35);
    assert_eq!(budget.remaining(), Some(100));
}

#[test]
fn release_of_more_than_is_claimed_leaves_nothing_claimed() {
    let mut budget = Budget::new(Some(100));
    assert_eq!(budget.claim(10), Ok(()));
    budget.release(11);
    assert_eq!(budget.remaining(), Some(100));
    budget.release(usize::MAX);
    assert_eq!(budget.remaining(), Some(100));
    assert_eq!(budget.claim(100), Ok(()));
}

#[test]
fn container_claim_is_count_times_size() {
    let mut budget = Budget::new(Some(100));
    assert_eq!(budget.claim_container(12, 8), Ok(()));
    assert_eq!(budget.remaining(), Some(4));
    assert_eq!(budget.claim_container(1, 8), Err(DecodeError::LimitExceeded));
    assert_eq!(budget.remaining(), Some(4));
    assert_eq!(budget.claim_container(4, 1), Ok(()));
    assert_eq!(budget.remaining(), Some(0));
    assert_eq!(budget.claim_container(7, 0), Ok(()));
}

#[test]
fn container_claim_that_overflows_is_refused() {
    let mut budget = Budget::new(Some(usize::MAX));
    assert_eq!(budget.claim_container(1usize << 32, 1usize << 32), Err(DecodeError::LimitExceeded));
    assert_eq!(budget.claim_container(usize::MAX, 2), Err(DecodeError::LimitExceeded));
    assert_eq!(budget.remaining(), Some(usize::MAX));
}

#[test]
fn without_a_limit_nothing_is_counted() {
    let mut budget = Budget::new(None);
    assert_eq!(budget.remaining(), None);
    assert_eq!(budget.claim(usize::MAX), Ok(()));
    assert_eq!(budget.claim(usize::MAX), Ok(()));
    assert_eq!(budget.claim_container(usize::MAX, usize::MAX), Ok(()));
    budget.release(17);
    assert_eq!(budget.remaining(), None);
}

#[test]
fn session_claims_against_its_settings() {
    let input = [1u8, 2, 3];
    let mut decoder = Decoder::new(&input, Config::standard().with_limit(64));
    assert_eq!(decoder.claim_container_read::<u64>(8), Ok(()));
    assert_eq!(decoder.claim_bytes_read(1), Err(DecodeError::LimitExceeded));
    decoder.unclaim_bytes_read(8);
    assert_eq!(decoder.claim_bytes_read(8), Ok(()));
    assert_eq!(decoder.claim_container_read::<u8>(1), Err(DecodeError::LimitExceeded));
    assert_eq!(decoder.remaining_len(), 3);
}

#[test]
fn session_claim_of_a_forged_count_is_refused_at_once() {
    let input: [u8; 0] = [];
    let mut decoder = Decoder::new(&input, Config::standard().with_limit(1 << 20));
    assert_eq!(decoder.claim_container_read::<u64>(1 << 32), Err(DecodeError::LimitExceeded));
    assert_eq!(decoder.claim_container_read::<u64>(1 << 17), Ok(()));
}

#[test]
fn session_reads_bytes_in_order() {
    let input = [1u8, 2, 3, 4, 5];
    let mut decoder = Decoder::new(&input, Config::standard());
    assert_eq!(decoder.settings(), Config::standard());
    assert_eq!(decoder.read(2), Ok(&input[0..2]));
    assert_eq!(decoder.remaining_len(), 3);
    assert_eq!(decoder.read(4), Err(DecodeError::UnexpectedEnd { additional: 1 }));
    assert_eq!(decoder.remaining_len(), 3);
    assert_eq!(decoder.read(3), Ok(&input[2..5]));
    assert_eq!(decoder.read(0), Ok(&input[5..5]));
    assert_eq!(decoder.read(1), Err(DecodeError::UnexpectedEnd { additional: 1 }));
}
