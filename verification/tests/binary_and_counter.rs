use sysmon::binary::{decimal_binary, BinaryForm};
use sysmon::counter::{counter_step, pick_sleep_secs, COUNTER_LIMIT, SLEEP_MAX_SECS, SLEEP_MIN_SECS};
use sysmon::memory::{fill_memory, CELL_END, CELL_MIN, N};

fn bits_of(n: i32) -> Vec<i32> {
    match decimal_binary(n) {
        BinaryForm::Bits(b) => b,
        BinaryForm::Zero => panic!("zero form for {}", n),
    }
}

fn value_of(bits: &[i32]) -> i64 {
    bits.iter().fold(0i64, |acc, b| acc * 2 + *b as i64)
}

#[test]
fn zero_has_its_own_form() {
    assert!(matches!(decimal_binary(0), BinaryForm::Zero));
}

#[test]
fn small_numbers_in_binary() {
    assert_eq!(bits_of(1), vec![1]);
    assert_eq!(bits_of(2), vec![1, 0]);
    assert_eq!(bits_of(5), vec![1, 0, 1]);
    assert_eq!(bits_of(10), vec![1, 0, 1, 0]);
    assert_eq!(bits_of(255), vec![1, 1, 1, 1, 1, 1, 1, 1]);
}

#[test]
fn largest_i32_in_binary() {
    let bits = bits_of(i32::MAX);
    assert_eq!(bits.len(), 31);
    assert!(bits.iter().all(|b| *b == 1));
}

#[test]
fn negative_numbers_give_no_digits() {
    assert_eq!(bits_of(-1), Vec::<i32>::new());
    assert_eq!(bits_of(i32::MIN), Vec::<i32>::new());
}

#[test]
fn binary_digits_read_back_to_the_number() {
    for n in [1, 3, 7, 8, 100, 1023, 1024, 65535, 123456789] {
        let bits = bits_of(n);
        assert_eq!(bits[0], 1);
        assert_eq!(value_of(&bits), n as i64);
    }
}

#[test]
fn counter_steps_up_to_the_limit() {
    assert_eq!(counter_step(0), Some(1));
    assert_eq!(counter_step(29), Some(30));
    assert_eq!(counter_step(30), None);
    assert_eq!(counter_step(31), None);
}

#[test]
fn counter_from_zero_ends_at_limit() {
    let mut counter = 0u32;
    let mut increments = 0u32;
    while let Some(next) = counter_step(counter) {
        assert!(next <= COUNTER_LIMIT);
        counter = next;
        increments += 1;
    }
    assert_eq!(counter, COUNTER_LIMIT);
    assert_eq!(increments, 30);
}

#[test]
fn sleep_is_one_to_three_seconds() {
    let mut seen = [false; 4];
    for _ in 0..300 {
        let secs = pick_sleep_secs();
        assert!(SLEEP_MIN_SECS <= secs && secs <= SLEEP_MAX_SECS);
        seen[secs as usize] = true;
    }
    assert!(seen[1] && seen[2] && seen[3]);
}

#[test]
fn memory_block_is_filled_in_range() {
    let block = fill_memory(N);
    assert_eq!(block.len(), 10);
    assert!(block.iter().all(|v| CELL_MIN <= *v && *v < CELL_END));
    assert_eq!(fill_memory(0).len(), 0);
}

#[test]
fn memory_block_draws_vary() {
    let block = fill_memory(200);
    let first = block[0];
    assert!(block.iter().any(|v| *v != first));
}
