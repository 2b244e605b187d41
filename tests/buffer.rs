use circular_buffer::CircularBuffer;
use whiplash::buffer::{calc_volume_delta, BufferNode, DecodeError};
use whiplash::event::{Event, Kline};
use whiplash::fixed::{parse_fixed, SCALE};

fn fx(x: f64) -> u64 {
    (x * SCALE as f64).round() as u64
}

fn node(ts: i64, value: f64, confirmed: bool) -> BufferNode {
    BufferNode { ts, value: fx(value), confirmed, close_price: fx(42.) }
}

fn event(e: u64, h: &str, l: &str, c: &str, v: &str, x: bool) -> Event {
    Event {
        E: e,
        k: Kline { c: c.to_string(), h: h.to_string(), l: l.to_string(), v: v.to_string(), x },
    }
}

#[test]
fn test_calc_volume_data() {
    let latest_timestamp = chrono::Utc::now().timestamp_millis();

    // this node is outside the two-second window
    let node0 = node(latest_timestamp - 2050, 0.1, false);
    let node1 = node(latest_timestamp - 1550, 1.0, false);
    let node2 = node(latest_timestamp - 1300, 2.0, false);
    let node3 = node(latest_timestamp - 1050, 3.0, false);
    let node4 = node(latest_timestamp - 800, 4.0, true);
    let node5 = node(latest_timestamp - 550, 1.0, false);
    let node6 = node(latest_timestamp - 300, 2.0, false);
    let node7 = node(latest_timestamp - 50, 3.0, false);

    let nodes = vec![node0, node1, node2, node3, node4, node5, node6, node7];
    let mut buffer = CircularBuffer::<244, BufferNode>::new();
    for node in nodes {
        buffer.push_back(node)
    }
    let buffer_backup = buffer.clone();
    let volume_delta_over_2_seconds = calc_volume_delta(&mut buffer, 2);
    assert_eq!(volume_delta_over_2_seconds, fx(6.0) as i128);
    assert_eq!(buffer, buffer_backup);
    // over three seconds the oldest node counts too
    let volume_delta_over_3_seconds = calc_volume_delta(&mut buffer, 3);
    assert_eq!(volume_delta_over_3_seconds, fx(6.9) as i128);
    assert_eq!(buffer, buffer_backup);
}

#[test]
fn volume_delta_of_empty_and_single_node_rings_is_zero() {
    let mut buffer = CircularBuffer::<244, BufferNode>::new();
    assert_eq!(calc_volume_delta(&buffer, 1), 0);
    buffer.push_back(node(1_000, 5.0, false));
    assert_eq!(calc_volume_delta(&buffer, 1), 0);
}

#[test]
fn volume_delta_stops_at_repeated_latest_timestamp() {
    let mut buffer = CircularBuffer::<244, BufferNode>::new();
    buffer.push_back(node(10_000, 1.0, false));
    buffer.push_back(node(10_000, 2.0, false));
    buffer.push_back(node(10_000, 4.0, false));
    // the first pair counts, the walk then halts on the equal timestamp
    assert_eq!(calc_volume_delta(&buffer, 5), fx(2.0) as i128);
}

#[test]
fn volume_delta_can_be_negative_on_shrinking_revision() {
    let mut buffer = CircularBuffer::<244, BufferNode>::new();
    buffer.push_back(node(10_000, 3.0, false));
    buffer.push_back(node(10_400, 1.0, false));
    assert_eq!(calc_volume_delta(&buffer, 1), -(fx(2.0) as i128));
}

#[test]
fn decodes_kline_event() {
    let e = event(1_700_000_000_123, "101.5", "99.5", "100.25", "2", false);
    let n = BufferNode::from_kline_event(&e).unwrap();
    assert_eq!(n.ts, 1_700_000_000_123);
    assert_eq!(n.close_price, fx(100.25));
    assert!(!n.confirmed);
    // ((101.5 + 99.5) / 2) * 2 = 201
    assert_eq!(n.value, fx(201.0));
    let confirmed = event(1_700_000_000_999, "1", "1", "1", "0.5", true);
    assert!(BufferNode::from_kline_event(&confirmed).unwrap().confirmed);
}

#[test]
fn decode_rejects_bad_numbers() {
    for bad in ["abc", "", ".", "1.2.3", "-1", "1e", "1e+", "e5", "inf", "NaN", "1e12345", "1 "] {
        let e = event(1_700_000_000_000, bad, "1", "1", "1", false);
        assert_eq!(BufferNode::from_kline_event(&e), Err(DecodeError::InvalidNumber));
    }
}

#[test]
fn decode_rejects_oversized_notional() {
    let e = event(1_700_000_000_000, "99999999999", "99999999999", "1", "99999999999", false);
    assert_eq!(BufferNode::from_kline_event(&e), Err(DecodeError::NotionalTooLarge));
}

#[test]
fn decode_rejects_bad_timestamps() {
    let beyond_i64 = event(u64::MAX, "1", "1", "1", "1", false);
    assert_eq!(BufferNode::from_kline_event(&beyond_i64), Err(DecodeError::InvalidTimestamp));
    let beyond_calendar = event(9_000_000_000_000_000_000, "1", "1", "1", "1", false);
    assert_eq!(BufferNode::from_kline_event(&beyond_calendar), Err(DecodeError::InvalidTimestamp));
}

#[test]
fn parses_fixed_point_decimals() {
    assert_eq!(parse_fixed("27123.45"), Some(2_712_345_000_000));
    assert_eq!(parse_fixed("1."), Some(SCALE));
    assert_eq!(parse_fixed(".5"), Some(SCALE / 2));
    assert_eq!(parse_fixed("0.00000001"), Some(1));
    assert_eq!(parse_fixed("007"), Some(7 * SCALE));
    assert_eq!(parse_fixed("184467440737.09551615"), Some(u64::MAX));
    assert_eq!(parse_fixed("184467440737.09551616"), None);
    assert_eq!(parse_fixed("abc"), None);
    assert_eq!(parse_fixed(" 1"), None);
    // exponents, a leading plus, and digits below the grid dropped
    assert_eq!(parse_fixed("1e5"), Some(100_000 * SCALE));
    assert_eq!(parse_fixed("1E-3"), Some(SCALE / 1000));
    assert_eq!(parse_fixed("+2"), Some(2 * SCALE));
    assert_eq!(parse_fixed("2.5e+2"), Some(250 * SCALE));
    assert_eq!(parse_fixed("0.123456789"), Some(12_345_678));
    assert_eq!(parse_fixed("1e-9"), Some(0));
    assert_eq!(parse_fixed("1e-400"), Some(0));
    assert_eq!(parse_fixed("1e20"), None);
    assert_eq!(parse_fixed("0e9999"), Some(0));
}

#[test]
fn decodes_exponent_fields() {
    let e = event(1_700_000_000_000, "1e5", "1", "1", "1", false);
    let n = BufferNode::from_kline_event(&e).unwrap();
    // ((100000 + 1) / 2) * 1
    assert_eq!(n.value, fx(50_000.5));
    let e = event(1_700_000_000_000, "+2", "1E-3", "0.123456789", "1", false);
    let n = BufferNode::from_kline_event(&e).unwrap();
    assert_eq!(n.close_price, 12_345_678);
}

#[test]
fn snapshot_written_back_decodes_to_itself() {
    let e = event(1_700_000_000_250, "101.5", "99.5", "100.25", "2", true);
    let n = BufferNode::from_kline_event(&e).unwrap();
    let render = |x: u64| format!("{}e-8", x);
    let e2 = event(
        n.ts as u64,
        &render(fx(101.5)),
        &render(fx(99.5)),
        &render(n.close_price),
        &render(fx(2.0)),
        n.confirmed,
    );
    assert_eq!(BufferNode::from_kline_event(&e2), Ok(n));
}
