use cursed_telemetry::codec::{Cell, ColumnFrame, ColumnSpec, ColumnType, DataPoint, DecodeError, EncodeError};
use cursed_telemetry::flatten::{flatten_record, NamedNode, RecordNode};
use cursed_telemetry::value::{CursedValue, RecordField};

fn leaf(x: f64) -> RecordNode {
    RecordNode::Leaf(x.to_bits())
}

fn group(children: Vec<(&str, RecordNode)>) -> RecordNode {
    RecordNode::Group(
        children
            .into_iter()
            .map(|(name, node)| NamedNode { name: name.to_string(), node })
            .collect(),
    )
}

fn vec3(x: f64, y: f64, z: f64) -> RecordNode {
    group(vec![("x", leaf(x)), ("y", leaf(y)), ("z", leaf(z))])
}

fn telemetry(v: f64) -> RecordNode {
    group(vec![
        ("pose", group(vec![("position", vec3(v, -v, v + 0.5)), ("rotation", vec3(v, -v, v + 0.5))])),
        ("velocity", vec3(v, -v, v + 0.5)),
        ("acceleration", vec3(v, -v, v + 0.5)),
    ])
}

fn paths(fs: &[RecordField]) -> Vec<String> {
    fs.iter().map(|f| f.path.clone()).collect()
}

fn field(path: &str, x: f64) -> RecordField {
    RecordField { path: path.to_string(), bits: x.to_bits() }
}

fn strings(v: &[&str]) -> Vec<String> {
    v.iter().map(|s| s.to_string()).collect()
}

#[test]
fn flatten_names_leaves_by_dotted_path() {
    let fs = flatten_record(&telemetry(0.25));
    assert_eq!(
        paths(&fs),
        strings(&[
            "pose.position.x", "pose.position.y", "pose.position.z",
            "pose.rotation.x", "pose.rotation.y", "pose.rotation.z",
            "velocity.x", "velocity.y", "velocity.z",
            "acceleration.x", "acceleration.y", "acceleration.z",
        ])
    );
    assert_eq!(fs[0].bits, 0.25f64.to_bits());
    assert_eq!(fs[1].bits, (-0.25f64).to_bits());
    assert_eq!(fs[2].bits, 0.75f64.to_bits());
}

#[test]
fn flatten_of_bare_leaf_and_empty_group() {
    let fs = flatten_record(&leaf(1.0));
    assert_eq!(fs, vec![field("", 1.0)]);
    assert!(flatten_record(&group(vec![])).is_empty());
}

#[test]
fn flatten_is_stable_across_records_of_one_shape() {
    let a = flatten_record(&telemetry(0.1));
    let b = flatten_record(&telemetry(7.0));
    assert_eq!(paths(&a), paths(&b));
    assert_ne!(a, b);
    assert_eq!(flatten_record(&telemetry(0.1)), a);
}

#[test]
fn number_frame_has_topic_time_data() {
    let p = DataPoint::new("temp".to_string(), 100, CursedValue::Number(20.5f64.to_bits()));
    let f = p.to_record_batch(&vec![]).unwrap();
    assert_eq!(
        f.schema,
        vec![
            ColumnSpec { name: "topic".to_string(), kind: ColumnType::Utf8 },
            ColumnSpec { name: "time".to_string(), kind: ColumnType::UInt64 },
            ColumnSpec { name: "data".to_string(), kind: ColumnType::Float64 },
        ]
    );
    assert_eq!(
        f.row,
        vec![Cell::Utf8("temp".to_string()), Cell::UInt64(100), Cell::Float64(20.5f64.to_bits())]
    );
}

#[test]
fn text_frame_has_text_data_column() {
    let p = DataPoint::new("log".to_string(), 7, CursedValue::String("hi".to_string()));
    let f = p.to_record_batch(&vec![]).unwrap();
    assert_eq!(f.schema[2], ColumnSpec { name: "data".to_string(), kind: ColumnType::Utf8 });
    assert_eq!(f.row[2], Cell::Utf8("hi".to_string()));
    assert_eq!(DataPoint::from_record_batch(&f).unwrap(), p);
}

#[test]
fn number_round_trips() {
    for x in [0.0f64, -1.5, 20.5, f64::MAX, f64::MIN_POSITIVE] {
        let p = DataPoint::new("n".to_string(), 42, CursedValue::Number(x.to_bits()));
        let f = p.to_record_batch(&vec![]).unwrap();
        assert_eq!(DataPoint::from_record_batch(&f).unwrap(), p);
    }
}

#[test]
fn record_round_trips() {
    let fs = flatten_record(&telemetry(1.25));
    let expected = paths(&fs);
    let p = DataPoint::new("test/topic".to_string(), 1000, CursedValue::Record(fs));
    let f = p.to_record_batch(&expected).unwrap();
    assert_eq!(f.schema.len(), 14);
    assert_eq!(f.schema[2], ColumnSpec { name: "pose.position.x".to_string(), kind: ColumnType::Float64 });
    assert_eq!(f.row[13], Cell::Float64(1.75f64.to_bits()));
    assert_eq!(DataPoint::from_record_batch(&f).unwrap(), p);
}

#[test]
fn record_missing_an_expected_leaf_is_refused() {
    let p = DataPoint::new(
        "r".to_string(),
        1,
        CursedValue::Record(vec![field("a", 1.0)]),
    );
    assert_eq!(p.to_record_batch(&strings(&["a", "b"])), Err(EncodeError::MissingLeaf));
}

#[test]
fn record_with_extra_or_reordered_leaves_is_refused() {
    let p = DataPoint::new(
        "r".to_string(),
        1,
        CursedValue::Record(vec![field("b", 1.0), field("a", 2.0)]),
    );
    assert_eq!(p.to_record_batch(&strings(&["a", "b"])), Err(EncodeError::ShapeMismatch));
    assert_eq!(p.to_record_batch(&strings(&["a"])), Err(EncodeError::ShapeMismatch));
    assert!(p.to_record_batch(&strings(&["b", "a"])).is_ok());
}

fn head() -> (Vec<ColumnSpec>, Vec<Cell>) {
    (
        vec![
            ColumnSpec { name: "topic".to_string(), kind: ColumnType::Utf8 },
            ColumnSpec { name: "time".to_string(), kind: ColumnType::UInt64 },
        ],
        vec![Cell::Utf8("t".to_string()), Cell::UInt64(5)],
    )
}

#[test]
fn decode_refuses_bad_layouts() {
    let (schema, mut row) = head();
    row.pop();
    let f = ColumnFrame { schema, row };
    assert_eq!(DataPoint::from_record_batch(&f), Err(DecodeError::BadLayout));

    let (mut schema, row) = head();
    schema[0].name = "name".to_string();
    assert_eq!(DataPoint::from_record_batch(&ColumnFrame { schema, row }), Err(DecodeError::BadLayout));

    let (schema, mut row) = head();
    row[1] = Cell::Float64(5);
    assert_eq!(DataPoint::from_record_batch(&ColumnFrame { schema, row }), Err(DecodeError::BadLayout));

    let f = ColumnFrame { schema: vec![], row: vec![] };
    assert_eq!(DataPoint::from_record_batch(&f), Err(DecodeError::BadLayout));
}

#[test]
fn decode_refuses_unsupported_columns() {
    let (mut schema, mut row) = head();
    schema.push(ColumnSpec { name: "a".to_string(), kind: ColumnType::Float64 });
    row.push(Cell::Float64(1));
    schema.push(ColumnSpec { name: "count".to_string(), kind: ColumnType::UInt64 });
    row.push(Cell::UInt64(3));
    assert_eq!(DataPoint::from_record_batch(&ColumnFrame { schema, row }), Err(DecodeError::UnsupportedColumn));
}

#[test]
fn record_with_only_a_data_leaf_reads_back_as_number() {
    let p = DataPoint::new("r".to_string(), 1, CursedValue::Record(vec![field("data", 2.0)]));
    let f = p.to_record_batch(&strings(&["data"])).unwrap();
    let back = DataPoint::from_record_batch(&f).unwrap();
    assert_eq!(back.value, CursedValue::Number(2.0f64.to_bits()));
}

#[test]
fn empty_record_round_trips() {
    let p = DataPoint::new("r".to_string(), 9, CursedValue::Record(vec![]));
    let f = p.to_record_batch(&vec![]).unwrap();
    assert_eq!(f.schema.len(), 2);
    assert_eq!(DataPoint::from_record_batch(&f).unwrap(), p);
}
