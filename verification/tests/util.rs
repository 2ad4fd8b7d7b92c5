use imperium::util::bitset::BitSet;
use imperium::util::decimal::{format_u64, parse_u64};
use imperium::util::rng::Rng;
use imperium::util::span::Span;
use imperium::util::strings::{Span as StrSpan, StrBuf};

#[test]
fn default_is_empty_and_bits_set_and_clear() {
    let mut bits = BitSet::<2>::default();
    assert_eq!(BitSet::<2>::capacity(), 128);
    assert!(!bits.get(0));
    assert!(!bits.get(127));

    bits.set(0, true);
    bits.set(63, true);
    bits.set(64, true);
    assert!(bits.get(0));
    assert!(bits.get(63));
    assert!(bits.get(64));
    assert!(!bits.get(1));

    bits.set(63, false);
    assert!(!bits.get(63));
    assert!(bits.get(0));
    assert!(bits.get(64));
}

#[test]
fn fixed_seed_gives_a_fixed_sequence() {
    let mut a = Rng(42);
    let mut b = Rng(42);
    let first: Vec<u64> = (0..8).map(|_| a.next_u64()).collect();
    let second: Vec<u64> = (0..8).map(|_| b.next_u64()).collect();
    assert_eq!(first, second);
    // And actually varies.
    assert!(first.windows(2).any(|w| w[0] != w[1]));
}

#[test]
fn zero_state_is_a_valid_seed() {
    let mut zeroed = Rng::default();
    let mut remapped = Rng(0x9E37_79B9_7F4A_7C15);
    assert_eq!(zeroed.next_u64(), remapped.next_u64());
    assert_eq!(zeroed.next_u64(), remapped.next_u64());
    // The state never returns to 0, so the stream never restarts.
    assert_ne!(zeroed.0, 0);
}

#[test]
fn rng_steps_by_xorshift_and_scrambles_its_output() {
    // One step from state 1: x ^= x >> 12; x ^= x << 25; x ^= x >> 27.
    let mut x: u64 = 1;
    x ^= x >> 12;
    x ^= x << 25;
    x ^= x >> 27;
    let mut rng = Rng(1);
    let out = rng.next_u64();
    assert_eq!(rng.0, x);
    assert_eq!(out, x.wrapping_mul(0x2545_F491_4F6C_DD1D));
}

#[test]
fn push_str_and_read_roundtrip() {
    let mut buf = String::new();
    let one = Span::push_str(&mut buf, "hello");
    let two = Span::push_str(&mut buf, "");
    let three = Span::push_str(&mut buf, "world");
    assert_eq!(one.str(&buf), "hello");
    assert_eq!(two.str(&buf), "");
    assert_eq!(three.str(&buf), "world");
    assert!(two.is_empty() && !three.is_empty());
    one.str_mut(&mut buf).make_ascii_uppercase();
    assert_eq!(one.str(&buf), "HELLO");
}

#[test]
fn spans_slice_flat_vecs() {
    let mut table = vec![10, 20, 30];
    let span = Span { start: 1, len: 2 };
    assert_eq!(span.slice(&table), [20, 30]);
    span.slice_mut(&mut table)[0] = 25;
    assert_eq!(table, [10, 25, 30]);

    let mut one = Span::push(&mut table, 40);
    assert_eq!(one.slice(&table), [40]);
    // Contiguous pushes widen into one span.
    Span::push(&mut table, 50);
    one.len += 1;
    assert_eq!(one.slice(&table), [40, 50]);
}

#[test]
fn zii_zero_span_reads_empty_even_on_empty_buffers() {
    assert_eq!(Span::default().str(""), "");
    assert_eq!(Span::default().slice(&[] as &[i32]), []);
}

#[test]
fn span_clear_recycles() {
    let mut buf = String::new();
    Span::push_str(&mut buf, "stale");
    buf.clear();
    assert!(buf.is_empty());
    let fresh = Span::push_str(&mut buf, "fresh");
    assert_eq!(fresh.str(&buf), "fresh");
    assert_eq!(fresh.start, 0);
}

#[test]
fn span_range_covers_start_to_end() {
    let span = Span { start: 3, len: 4 };
    assert_eq!(span.range(), 3..7);
    let text = StrSpan { start: 2, len: 1 };
    assert_eq!(text.range(), 2..3);
}

#[test]
fn push_and_get_roundtrip() {
    let mut buf = StrBuf::default();
    let one = buf.push("hello");
    let two = buf.push("");
    let three = buf.push("world");
    assert_eq!(buf.get(one), "hello");
    assert_eq!(buf.get(two), "");
    assert_eq!(buf.get(three), "world");
    assert!(two.is_empty() && !three.is_empty());
    assert_eq!(buf.len(), 10);
}

#[test]
fn zii_zero_span_reads_empty_even_on_empty_buffer() {
    let buf = StrBuf::default();
    assert_eq!(buf.get(StrSpan::default()), "");
    assert!(buf.is_empty());
}

#[test]
fn strings_clear_recycles() {
    let mut buf = StrBuf::default();
    buf.push("stale");
    buf.clear();
    assert!(buf.is_empty());
    let fresh = buf.push("fresh");
    assert_eq!(buf.get(fresh), "fresh");
    assert_eq!(fresh.start, 0);
}

#[test]
fn decimal_text_round_trips_like_std() {
    assert_eq!(format_u64(0), "0");
    assert_eq!(format_u64(1234567890), "1234567890");
    assert_eq!(format_u64(u64::MAX), u64::MAX.to_string());
    let digits: Vec<char> = "+42".chars().collect();
    assert_eq!(parse_u64(&digits), Some(42));
    let too_big: Vec<char> = "18446744073709551616".chars().collect();
    assert_eq!(parse_u64(&too_big), None);
    let empty: Vec<char> = Vec::new();
    assert_eq!(parse_u64(&empty), None);
    let junk: Vec<char> = "4x".chars().collect();
    assert_eq!(parse_u64(&junk), None);
}
