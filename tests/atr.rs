use circular_buffer::CircularBuffer;
use whiplash::atr::{atr_ema, check_atr_condition, get_atr_data, true_range, AtrError};
use whiplash::buffer::BufferNode;
use whiplash::fixed::SCALE;

fn fx(x: f64) -> u64 {
    (x * SCALE as f64).round() as u64
}

fn now_millis() -> i64 {
    chrono::Utc::now().timestamp_millis()
}

fn node(value: f64, ts: i64, confirmed: bool, close_price: f64) -> BufferNode {
    BufferNode { value: fx(value), ts, confirmed, close_price: fx(close_price) }
}

fn ring_of(nodes: Vec<BufferNode>) -> CircularBuffer<244, BufferNode> {
    let mut buffer = CircularBuffer::<244, BufferNode>::new();
    for n in nodes {
        buffer.push_back(n);
    }
    buffer
}

#[test]
fn test_get_atr_data() {
    // whole second, so that the nodes sit in known seconds
    let now = now_millis();
    let start_time = now - now % 1000;
    let node1 = node(45., start_time - 50, true, 55.);
    let node2 = node(44., start_time - 250, false, 59.);
    let node3 = node(43., start_time - 450, false, 53.);
    let node4 = node(42., start_time - 650, false, 52.);
    let node5 = node(41., start_time - 1050, true, 51.);
    let mut buffer = ring_of(vec![node5, node4, node3, node2, node1]);

    let recv_atr_data = get_atr_data(&mut buffer, 1).unwrap();

    assert!(recv_atr_data.closes.len() == 1);
    assert!(recv_atr_data.closes == vec![fx(55.)]);
    assert!(recv_atr_data.highs == vec![fx(59.)]);
    assert!(recv_atr_data.lows == vec![fx(52.)]);
}

#[test]
fn test_get_atr_data_cross() {
    let now = now_millis();
    let start_time = now - now % 1000 + 500;
    let node1 = node(45., start_time - 50, false, 55.);
    let node2 = node(44., start_time - 250, false, 59.);
    // previous second, still inside the window
    let node3 = node(43., start_time - 550, true, 53.);
    let node4 = node(42., start_time - 650, false, 52.);
    // previous second, outside the window
    let node5 = node(42., start_time - 1050, false, 52.);
    let node6 = node(41., start_time - 1550, true, 51.);
    let mut buffer = ring_of(vec![node6, node5, node4, node3, node2, node1]);

    let recv_atr_data = get_atr_data(&mut buffer, 1).unwrap();

    assert!(recv_atr_data.closes.len() == 2);
    assert!(recv_atr_data.closes == vec![fx(53.), fx(55.0)]);
    assert!(recv_atr_data.highs == vec![fx(53.), fx(59.)]);
    assert!(recv_atr_data.lows == vec![fx(52.), fx(55.)]);
}

#[test]
fn test_atr_ema() {
    let highs = vec![fx(100.5); 10];
    let lows = vec![fx(99.5); 10];
    let closes = vec![fx(100.); 10];

    let result = atr_ema(highs.as_slice(), lows.as_slice(), closes.as_slice(), 5);
    let last = result[result.len() - 1] as f64 / SCALE as f64;
    let rounded_result = (last * 1000.).round() / 1000.;

    assert!(result.len() == 10);
    assert!(rounded_result == 0.945);
}

#[test]
fn atr_ema_exact_values_on_flat_rows() {
    let highs = vec![fx(100.5); 10];
    let lows = vec![fx(99.5); 10];
    let closes = vec![fx(100.); 10];
    let result = atr_ema(&highs, &lows, &closes, 5);
    assert_eq!(
        result,
        vec![0, 0, 0, 0, 0, 86_666_666, 89_333_332, 91_466_665, 93_173_332, 94_538_665]
    );
}

#[test]
fn atr_ema_period_one_is_true_range_and_zero_period_is_zeros() {
    let h = vec![fx(10.), fx(12.), fx(11.)];
    let l = vec![fx(9.), fx(10.), fx(8.)];
    let c = vec![fx(9.5), fx(11.), fx(9.)];
    assert_eq!(atr_ema(&h, &l, &c, 1), true_range(&h, &l, &c));
    assert_eq!(atr_ema(&h, &l, &c, 0), vec![0, 0, 0]);
    // a series no longer than the period gives zeros
    assert_eq!(atr_ema(&h, &l, &c, 3), vec![0, 0, 0]);
}

#[test]
fn true_range_values() {
    let h = vec![fx(10.), fx(12.), fx(11.), fx(20.)];
    let l = vec![fx(9.), fx(10.), fx(8.), fx(19.)];
    let c = vec![fx(9.5), fx(11.), fx(9.), fx(19.5)];
    let tr = true_range(&h, &l, &c);
    // span 2, gap up 2.5 from 9.5, gap up to 11 - 8 = 3, then 20 - 9 = 11
    assert_eq!(tr, vec![0, fx(2.5), fx(3.), fx(11.)]);
    assert_eq!(tr[0], 0);
    for i in 1..tr.len() {
        assert!(tr[i] >= h[i] - l[i]);
    }
}

#[test]
fn flat_rows_true_range_is_span() {
    let h = vec![fx(100.5); 12];
    let l = vec![fx(99.5); 12];
    let c = vec![fx(100.); 12];
    let tr = true_range(&h, &l, &c);
    assert!(tr[1..].iter().all(|&v| v == fx(1.0)));
    let atr = atr_ema(&h, &l, &c, 3);
    assert!(*atr.last().unwrap() <= fx(1.0));
}

#[test]
fn window_of_sixty_is_accepted_and_sixty_one_refused() {
    let now = now_millis();
    let mut buffer = ring_of(vec![node(1., now - 500, false, 10.), node(2., now, false, 11.)]);
    assert!(get_atr_data(&mut buffer, 60).is_ok());
    assert!(matches!(get_atr_data(&mut buffer, 61), Err(AtrError::WindowTooLarge)));
    let symbol = "BTCUSDT".to_string();
    assert_eq!(
        check_atr_condition(&symbol, &mut buffer, 61, fx(0.35), fx(0.8)),
        Err(AtrError::WindowTooLarge)
    );
    assert!(check_atr_condition(&symbol, &mut buffer, 60, fx(0.35), fx(0.8)).is_ok());
}

#[test]
fn empty_ring_gives_no_rows_and_no_signal() {
    let mut buffer = CircularBuffer::<244, BufferNode>::new();
    let data = get_atr_data(&mut buffer, 1).unwrap();
    assert!(data.closes.is_empty() && data.highs.is_empty() && data.lows.is_empty());
    let symbol = "BTCUSDT".to_string();
    assert_eq!(check_atr_condition(&symbol, &mut buffer, 1, fx(0.35), fx(0.8)), Ok((false, 0)));
}

#[test]
fn full_coverage_needed_when_fraction_is_one() {
    let now = now_millis();
    let base = now - now % 1000;
    // two rows (two seconds) but a window of five seconds
    let mut buffer = ring_of(vec![
        node(1., base - 900, false, 10.),
        node(2., base - 100, false, 12.),
        node(3., base + 100, false, 15.),
    ]);
    let symbol = "ETHUSDT".to_string();
    assert_eq!(check_atr_condition(&symbol, &mut buffer, 5, fx(0.01), fx(1.0)), Ok((false, 0)));
}

#[test]
fn zero_atr_gives_no_signal_whatever_the_threshold() {
    let now = now_millis();
    let base = now - now % 1000;
    let mut buffer = ring_of(vec![
        node(1., base - 1500, false, 10.),
        node(2., base - 500, false, 10.),
        node(3., base + 200, false, 10.),
    ]);
    let symbol = "ETHUSDT".to_string();
    assert_eq!(check_atr_condition(&symbol, &mut buffer, 1, 0, fx(0.5)), Ok((false, 0)));
    assert_eq!(check_atr_condition(&symbol, &mut buffer, 1, fx(50.), fx(0.5)), Ok((false, 0)));
}

#[test]
fn atr_condition_compares_against_percent_threshold() {
    let now = now_millis();
    let base = now - now % 1000 + 500;
    // rows of the last second: previous second closes at 100, this one spans 100..101
    let nodes = vec![
        node(1., base - 600, false, 100.),
        node(2., base - 200, false, 101.),
        node(3., base - 100, false, 100.5),
    ];
    let mut buffer = ring_of(nodes);
    let backup = buffer.clone();
    let symbol = "ETHUSDT".to_string();
    // two rows, period 1: the true range of the newest row is 1.0 against a close of 100.5
    assert_eq!(check_atr_condition(&symbol, &mut buffer, 1, fx(0.5), fx(0.8)), Ok((true, fx(1.0))));
    assert_eq!(check_atr_condition(&symbol, &mut buffer, 1, fx(1.0), fx(0.8)), Ok((false, fx(1.0))));
    assert_eq!(buffer, backup);
}

#[test]
fn row_count_can_reach_window_plus_one() {
    let now = now_millis();
    let base = now - now % 1000 + 500;
    let mut buffer = ring_of(vec![node(1., base - 700, false, 10.), node(2., base - 100, false, 11.)]);
    let data = get_atr_data(&mut buffer, 1).unwrap();
    assert_eq!(data.closes.len(), 2);
}
