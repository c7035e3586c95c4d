use prawnd::codec::{decode_store, encode_store};
use prawnd::task::Task;
use prawnd::tasks::Tasks;

fn mk(title: &str, desc: &str, deadline: i64, pre: i64, post: i64) -> Task {
    Task::new(
        String::from(title),
        String::from(desc),
        deadline,
        pre,
        post,
    )
    .unwrap()
}

#[test]
fn empty_store_encodes_to_a_zero_count() {
    let s = Tasks::new();
    let bytes = encode_store(&s);
    assert_eq!(bytes, vec![0u8; 8]);
}

#[test]
fn round_trip_reproduces_ids_and_field_values() {
    let mut s = Tasks::new();
    s.add_task(mk("pay rent", "wire the landlord", 1_700_000_000, 172_800, 86_400));
    let b = s.add_task(mk("tax return", "", 1_712_345_678, 604_800, 0));
    s.add_task(mk("water plants", "all of them", -12_345, 0, 3_600));
    s.disable_task(b);
    let bytes = encode_store(&s);
    let back = decode_store(&bytes).unwrap();
    assert_eq!(back.entries(), s.entries());
}

#[test]
fn round_trip_keeps_non_ascii_text() {
    let mut s = Tasks::new();
    s.add_task(mk("zahle Miete \u{20ac} \u{1f600}", "\u{e9}t\u{e9} caf\u{e9}", 0, 1, 2));
    let bytes = encode_store(&s);
    let back = decode_store(&bytes).unwrap();
    assert_eq!(back.entries(), s.entries());
}

#[test]
fn round_trip_of_empty_store() {
    let s = Tasks::new();
    let back = decode_store(&encode_store(&s)).unwrap();
    assert_eq!(back.len(), 0);
}

#[test]
fn round_trip_keeps_extreme_instants() {
    let mut s = Tasks::new();
    s.add_task(mk("min", "", i64::MIN, 0, 0));
    s.add_task(mk("max", "", i64::MAX, 0, 0));
    let back = decode_store(&encode_store(&s)).unwrap();
    assert_eq!(back.entries(), s.entries());
}

#[test]
fn decode_rejects_ragged_lengths() {
    assert!(decode_store(&vec![1u8, 2, 3]).is_none());
    assert!(decode_store(&vec![0u8; 12]).is_none());
}

#[test]
fn decode_rejects_truncated_input() {
    let mut s = Tasks::new();
    s.add_task(mk("a", "b", 100, 1, 2));
    let mut bytes = encode_store(&s);
    bytes.truncate(bytes.len() - 8);
    assert!(decode_store(&bytes).is_none());
}

#[test]
fn decode_rejects_trailing_garbage() {
    let s = Tasks::new();
    let mut bytes = encode_store(&s);
    bytes.extend_from_slice(&[0u8; 8]);
    assert!(decode_store(&bytes).is_none());
}

#[test]
fn decode_rejects_an_invalid_enable_flag() {
    let mut s = Tasks::new();
    s.add_task(mk("", "", 0, 0, 0));
    let mut bytes = encode_store(&s);
    // words: count, id, title len, desc len, flag, deadline, pre, post
    // the flag is the 5th word; make it 2
    let flag_byte = 4 * 8;
    bytes[flag_byte] = 2;
    assert!(decode_store(&bytes).is_none());
}

#[test]
fn decode_rejects_duplicate_ids() {
    let mut s = Tasks::new();
    s.add_task(mk("", "", 0, 0, 0));
    s.add_task(mk("", "", 0, 0, 0));
    let mut bytes = encode_store(&s);
    // entry layout: id, title len, desc len, flag, deadline, pre, post
    // (7 words each after the count); rewrite the second id to equal the first
    let second_id_byte = 8 * (1 + 7);
    bytes[second_id_byte] = 0;
    assert!(decode_store(&bytes).is_none());
}

#[test]
fn decode_rejects_a_negative_period() {
    let mut s = Tasks::new();
    s.add_task(mk("", "", 0, 5, 0));
    let mut bytes = encode_store(&s);
    // the pre period is the 7th word; bias of -1 is u64::MAX - ... make the
    // biased word one below the bias of zero, i.e. pre period = -1
    let pre_word_byte = 8 * 6;
    let biased_minus_one = (-1i64 as i128 - i64::MIN as i128) as u64;
    bytes[pre_word_byte..pre_word_byte + 8].copy_from_slice(&biased_minus_one.to_le_bytes());
    assert!(decode_store(&bytes).is_none());
}
