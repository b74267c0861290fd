use cursed_telemetry::codec::{DataPoint, EncodeError};
use cursed_telemetry::session::{Outgoing, StreamingSession};
use cursed_telemetry::value::{CursedValue, RecordField};

fn field(path: &str, x: f64) -> RecordField {
    RecordField { path: path.to_string(), bits: x.to_bits() }
}

fn schema() -> Vec<String> {
    vec!["a".to_string(), "b".to_string()]
}

#[test]
fn ten_hertz_over_one_second_sends_about_ten_frames() {
    let interval = StreamingSession::interval_for_rate(10).unwrap();
    assert_eq!(interval, 100);
    let mut s = StreamingSession::new(interval, false, "t".to_string(), vec![]);
    let mut sent: Vec<u64> = Vec::new();
    let mut elapsed: u64 = 0;
    while elapsed <= 1000 {
        if let Some(t) = s.poll(elapsed) {
            sent.push(t);
        }
        elapsed += 7;
    }
    assert!(sent.len() >= 9 && sent.len() <= 11, "sent {} frames", sent.len());
    for w in sent.windows(2) {
        assert!(w[0] < w[1]);
    }
}

#[test]
fn poll_fires_at_elapsed_time_once_an_interval_has_passed() {
    let mut s = StreamingSession::new(100, false, "t".to_string(), vec![]);
    assert_eq!(s.poll(0), None);
    assert_eq!(s.poll(99), None);
    assert_eq!(s.poll(105), Some(105));
    assert_eq!(s.last_send_time, 105);
    assert_eq!(s.poll(150), None);
    assert_eq!(s.poll(204), None);
    assert_eq!(s.poll(205), Some(205));
    assert_eq!(s.poll(450), Some(450));
    assert_eq!(s.poll(549), None);
    assert_eq!(s.poll(550), Some(550));
    assert_eq!(s.poll(10), None);
    assert_eq!(s.last_send_time, 550);
}

#[test]
fn frequent_polls_over_one_second_at_ten_hertz() {
    let mut s = StreamingSession::new(100, false, "t".to_string(), vec![]);
    let mut sent: Vec<u64> = Vec::new();
    for elapsed in (0..=1000u64).step_by(10) {
        if let Some(t) = s.poll(elapsed) {
            sent.push(t);
        }
    }
    assert_eq!(sent, vec![100, 200, 300, 400, 500, 600, 700, 800, 900, 1000]);
}

#[test]
fn rate_to_interval() {
    assert_eq!(StreamingSession::interval_for_rate(0), None);
    assert_eq!(StreamingSession::interval_for_rate(1), Some(1000));
    assert_eq!(StreamingSession::interval_for_rate(3), Some(333));
    assert_eq!(StreamingSession::interval_for_rate(1000), Some(1));
    assert_eq!(StreamingSession::interval_for_rate(1001), None);
}

#[test]
fn sleep_is_the_rest_of_the_interval() {
    let s = StreamingSession::new(100, false, "t".to_string(), vec![]);
    assert_eq!(s.sleep_ms(0), 100);
    assert_eq!(s.sleep_ms(30), 70);
    assert_eq!(s.sleep_ms(100), 0);
    assert_eq!(s.sleep_ms(250), 0);
}

#[test]
fn malformed_record_falls_back_to_plain_for_that_tick() {
    let s = StreamingSession::new(100, true, "pose".to_string(), schema());
    let bad = CursedValue::Record(vec![field("a", 1.0)]);
    let point = DataPoint::new("pose".to_string(), 300, bad.clone());
    assert_eq!(point.to_record_batch(&schema()), Err(EncodeError::MissingLeaf));
    match s.encode(300, bad.clone()) {
        Outgoing::Plain(p) => {
            assert_eq!(p.topic, "pose");
            assert_eq!(p.time, 300);
            assert_eq!(p.value, bad);
        }
        other => panic!("expected a plain frame, got {:?}", other),
    }
    let good = CursedValue::Record(vec![field("a", 1.0), field("b", 2.0)]);
    match s.encode(400, good.clone()) {
        Outgoing::Columnar(f) => {
            assert_eq!(DataPoint::from_record_batch(&f).unwrap(), DataPoint::new("pose".to_string(), 400, good));
        }
        other => panic!("expected a columnar frame, got {:?}", other),
    }
}

#[test]
fn plain_encoding_when_binary_is_off() {
    let s = StreamingSession::new(100, false, "n".to_string(), vec![]);
    let v = CursedValue::Number(3.5f64.to_bits());
    match s.encode(100, v.clone()) {
        Outgoing::Plain(p) => assert_eq!(p, DataPoint::new("n".to_string(), 100, v)),
        other => panic!("expected a plain frame, got {:?}", other),
    }
}
