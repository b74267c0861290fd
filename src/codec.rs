use vstd::prelude::*;
use crate::flatten::path_names;
use crate::value::{CursedValue, RecordField, ValueModel, fields_model};

verus! {

/// The primitive type of a column.
#[derive(Clone, Copy, Debug, PartialEq, Eq, Structural)]
pub enum ColumnType {
    UInt64,
    Float64,
    Utf8,
}

/// One entry of a frame's schema: the column's name and type.
#[derive(Clone, Debug, PartialEq)]
pub struct ColumnSpec {
    pub name: String,
    pub kind: ColumnType,
}

/// One value of the frame's single row; a float is held as its IEEE-754 bits.
#[derive(Clone, Debug, PartialEq)]
pub enum Cell {
    UInt64(u64),
    Float64(u64),
    Utf8(String),
}

pub ghost enum CellModel {
    UInt64(u64),
    Float64(u64),
    Utf8(Seq<char>),
}

impl View for Cell {
    type V = CellModel;

    open spec fn view(&self) -> CellModel {
        match self {
            Cell::UInt64(v) => CellModel::UInt64(*v),
            Cell::Float64(b) => CellModel::Float64(*b),
            Cell::Utf8(s) => CellModel::Utf8(s@),
        }
    }
}

/// A self-describing columnar frame: an explicit schema followed by exactly
/// one row of values in schema order.
#[derive(Clone, Debug, PartialEq)]
pub struct ColumnFrame {
    pub schema: Vec<ColumnSpec>,
    pub row: Vec<Cell>,
}

/// A frame as its schema `(name, type)` and its row.
pub type FrameModel = (Seq<(Seq<char>, ColumnType)>, Seq<CellModel>);

/// A schema as `(name, type)` pairs.
pub open spec fn schema_model(s: Seq<ColumnSpec>) -> Seq<(Seq<char>, ColumnType)> {
    s.map_values(|c: ColumnSpec| (c.name@, c.kind))
}

/// A row as the models of its values.
pub open spec fn row_model(r: Seq<Cell>) -> Seq<CellModel> {
    r.map_values(|c: Cell| c@)
}

impl View for ColumnFrame {
    type V = FrameModel;

    open spec fn view(&self) -> FrameModel {
        (schema_model(self.schema@), row_model(self.row@))
    }
}

/// One sample: a topic, a time in milliseconds and a value.
#[derive(Clone, Debug, PartialEq)]
pub struct DataPoint {
    pub topic: String,
    pub time: u64,
    pub value: CursedValue,
}

/// A sample as topic, time and value model.
pub type SampleModel = (Seq<char>, u64, ValueModel);

impl View for DataPoint {
    type V = SampleModel;

    open spec fn view(&self) -> SampleModel {
        (self.topic@, self.time, self.value@)
    }
}

/// Why a sample has no columnar form.
#[derive(Clone, Copy, Debug, PartialEq, Eq, Structural)]
pub enum EncodeError {
    /// The record lacks a leaf that the expected shape names.
    MissingLeaf,
    /// The record has every expected leaf, but also others, or in another order.
    ShapeMismatch,
}

/// Why a frame does not read back as a sample.
#[derive(Clone, Copy, Debug, PartialEq, Eq, Structural)]
pub enum DecodeError {
    /// Schema and row differ in length, a value's type differs from its
    /// column's, or the leading `topic` and `time` columns are not there.
    BadLayout,
    /// A column after `time` has a type that no value encodes to.
    UnsupportedColumn,
}

pub open spec fn topic_name() -> Seq<char> {
    seq!['t', 'o', 'p', 'i', 'c']
}

pub open spec fn time_name() -> Seq<char> {
    seq!['t', 'i', 'm', 'e']
}

pub open spec fn data_name() -> Seq<char> {
    seq!['d', 'a', 't', 'a']
}

/// Strings as their characters.
pub open spec fn names_model(v: Seq<String>) -> Seq<Seq<char>> {
    v.map_values(|s: String| s@)
}

/// Some leaf that `expected` names is not among the record's paths.
pub open spec fn missing_leaf(fs: Seq<(Seq<char>, u64)>, expected: Seq<Seq<char>>) -> bool {
    exists|j: int| 0 <= j < expected.len() && !path_names(fs).contains(#[trigger] expected[j])
}

/// The two columns that lead every frame.
pub open spec fn head_schema() -> Seq<(Seq<char>, ColumnType)> {
    seq![(topic_name(), ColumnType::Utf8), (time_name(), ColumnType::UInt64)]
}

/// The values of the two leading columns.
pub open spec fn head_row(topic: Seq<char>, time: u64) -> Seq<CellModel> {
    seq![CellModel::Utf8(topic), CellModel::UInt64(time)]
}

/// The columnar form of a sample. A number or text becomes one `data` column
/// after `topic` and `time`; a record becomes one float column per leaf,
/// named by its path, provided its paths are exactly `expected`.
pub open spec fn encode_model(d: SampleModel, expected: Seq<Seq<char>>) -> Result<FrameModel, EncodeError> {
    match d.2 {
        ValueModel::Number(b) => Ok(
            (
                head_schema().push((data_name(), ColumnType::Float64)),
                head_row(d.0, d.1).push(CellModel::Float64(b)),
            ),
        ),
        ValueModel::Text(s) => Ok(
            (head_schema().push((data_name(), ColumnType::Utf8)), head_row(d.0, d.1).push(CellModel::Utf8(s))),
        ),
        ValueModel::Record(fs) => if missing_leaf(fs, expected) {
            Err(EncodeError::MissingLeaf)
        } else if path_names(fs) != expected {
            Err(EncodeError::ShapeMismatch)
        } else {
            Ok(
                (
                    head_schema() + fs.map_values(|f: (Seq<char>, u64)| (f.0, ColumnType::Float64)),
                    head_row(d.0, d.1) + fs.map_values(|f: (Seq<char>, u64)| CellModel::Float64(f.1)),
                ),
            )
        },
    }
}

/// The column type that a value belongs in.
pub open spec fn cell_kind(c: CellModel) -> ColumnType {
    match c {
        CellModel::UInt64(_) => ColumnType::UInt64,
        CellModel::Float64(_) => ColumnType::Float64,
        CellModel::Utf8(_) => ColumnType::Utf8,
    }
}

/// The text of a text value.
pub open spec fn cell_text(c: CellModel) -> Seq<char> {
    match c {
        CellModel::Utf8(s) => s,
        _ => Seq::empty(),
    }
}

/// The number of an integer or float value.
pub open spec fn cell_bits(c: CellModel) -> u64 {
    match c {
        CellModel::UInt64(v) => v,
        CellModel::Float64(b) => b,
        CellModel::Utf8(_) => 0,
    }
}

/// Schema and row agree in length and type, and begin with `topic` and `time`.
pub open spec fn layout_ok(f: FrameModel) -> bool {
    &&& f.0.len() == f.1.len()
    &&& f.0.len() >= 2
    &&& f.0[0] == (topic_name(), ColumnType::Utf8)
    &&& f.0[1] == (time_name(), ColumnType::UInt64)
    &&& forall|i: int| 0 <= i < f.0.len() ==> cell_kind(#[trigger] f.1[i]) == f.0[i].1
}

/// The frame carries a plain number or text: one `data` column after `time`.
pub open spec fn single_data(f: FrameModel) -> bool {
    f.0.len() == 3 && f.0[2].0 == data_name() && f.0[2].1 != ColumnType::UInt64
}

/// Every column after `time` holds floats.
pub open spec fn floats_after_head(f: FrameModel) -> bool {
    forall|i: int| 2 <= i < f.0.len() ==> (#[trigger] f.0[i]).1 == ColumnType::Float64
}

/// The sample that a frame holds.
pub open spec fn decode_model(f: FrameModel) -> Result<SampleModel, DecodeError> {
    if !layout_ok(f) {
        Err(DecodeError::BadLayout)
    } else if single_data(f) {
        Ok(
            (
                cell_text(f.1[0]),
                cell_bits(f.1[1]),
                if f.0[2].1 == ColumnType::Float64 {
                    ValueModel::Number(cell_bits(f.1[2]))
                } else {
                    ValueModel::Text(cell_text(f.1[2]))
                },
            ),
        )
    } else if floats_after_head(f) {
        Ok(
            (
                cell_text(f.1[0]),
                cell_bits(f.1[1]),
                ValueModel::Record(
                    Seq::new((f.0.len() - 2) as nat, |i: int| (f.0[i + 2].0, cell_bits(f.1[i + 2]))),
                ),
            ),
        )
    } else {
        Err(DecodeError::UnsupportedColumn)
    }
}

/// A record whose only leaf is named `data` reads back as a plain number.
pub open spec fn is_bare_data_record(v: ValueModel) -> bool {
    v is Record && path_names(v->Record_0) == seq![data_name()]
}

/// Encoding a sample in columnar form and decoding the frame gives back the
/// sample, bit for bit. The one exception is a record whose only leaf is named
/// `data`, whose frame cannot be told from that of a plain number.
pub proof fn lemma_round_trip(d: SampleModel, expected: Seq<Seq<char>>)
    requires
        encode_model(d, expected) is Ok,
        !is_bare_data_record(d.2),
    ensures
        decode_model(encode_model(d, expected)->Ok_0) == Ok::<SampleModel, DecodeError>(d),
{
    let f = encode_model(d, expected)->Ok_0;
    match d.2 {
        ValueModel::Number(b) => {
            assert(layout_ok(f));
            assert(single_data(f));
        },
        ValueModel::Text(t) => {
            assert(layout_ok(f));
            assert(single_data(f));
        },
        ValueModel::Record(fs) => {
            let n = fs.len();
            assert(f.0.len() == n + 2);
            assert forall|i: int| 0 <= i < f.0.len() implies cell_kind(#[trigger] f.1[i]) == f.0[i].1 by {
                if i >= 2 {
                    assert(f.0[i] == (fs[i - 2].0, ColumnType::Float64));
                    assert(f.1[i] == CellModel::Float64(fs[i - 2].1));
                }
            }
            assert(layout_ok(f));
            if single_data(f) {
                assert(f.0[2] == (fs[0].0, ColumnType::Float64));
                assert(path_names(fs) =~= seq![data_name()]);
            }
            assert forall|i: int| 2 <= i < f.0.len() implies (#[trigger] f.0[i]).1 == ColumnType::Float64 by {
                assert(f.0[i] == (fs[i - 2].0, ColumnType::Float64));
            }
            let back = Seq::new((f.0.len() - 2) as nat, |i: int| (f.0[i + 2].0, cell_bits(f.1[i + 2])));
            assert forall|i: int| 0 <= i < n implies back[i] == fs[i] by {
                assert(f.0[i + 2] == (fs[i].0, ColumnType::Float64));
                assert(f.1[i + 2] == CellModel::Float64(fs[i].1));
            }
            assert(back =~= fs);
        },
    }
}

fn column_name(lit: &str) -> (r: String)
    ensures
        r@ == lit@,
{
    lit.to_string()
}

fn head_frame(topic: &String, time: u64) -> (r: ColumnFrame)
    ensures
        r@.0 == head_schema(),
        r@.1 == head_row(topic@, time),
{
    proof {
        reveal_strlit("topic");
        reveal_strlit("time");
        assert("topic"@ =~= topic_name());
        assert("time"@ =~= time_name());
    }
    let mut schema: Vec<ColumnSpec> = Vec::new();
    schema.push(ColumnSpec { name: column_name("topic"), kind: ColumnType::Utf8 });
    schema.push(ColumnSpec { name: column_name("time"), kind: ColumnType::UInt64 });
    let mut row: Vec<Cell> = Vec::new();
    row.push(Cell::Utf8(topic.clone()));
    row.push(Cell::UInt64(time));
    let r = ColumnFrame { schema, row };
    assert(r@.0 =~= head_schema());
    assert(r@.1 =~= head_row(topic@, time));
    r
}

fn find_missing(fs: &Vec<RecordField>, expected: &Vec<String>) -> (r: bool)
    ensures
        r == missing_leaf(fields_model(fs@), names_model(expected@)),
{
    let ghost names = path_names(fields_model(fs@));
    let mut j: usize = 0;
    while j < expected.len()
        invariant
            j <= expected@.len(),
            names == path_names(fields_model(fs@)),
            forall|q: int| 0 <= q < j ==> names.contains(#[trigger] names_model(expected@)[q]),
        decreases expected.len() - j,
    {
        let mut found = false;
        let mut i: usize = 0;
        while i < fs.len()
            invariant
                i <= fs@.len(),
                j < expected@.len(),
                names == path_names(fields_model(fs@)),
                found ==> names.contains(expected@[j as int]@),
                !found ==> forall|q: int| 0 <= q < i ==> (#[trigger] fs@[q]).path@ != expected@[j as int]@,
            decreases fs.len() - i,
        {
            if fs[i].path == expected[j] {
                assert(names[i as int] == expected@[j as int]@);
                found = true;
            }
            i += 1;
        }
        if !found {
            proof {
                assert(names_model(expected@)[j as int] == expected@[j as int]@);
                assert(!names.contains(names_model(expected@)[j as int])) by {
                    if names.contains(names_model(expected@)[j as int]) {
                        let q = choose|q: int| 0 <= q < names.len() && names[q] == expected@[j as int]@;
                        assert(fs@[q].path@ == expected@[j as int]@);
                    }
                }
            }
            return true;
        }
        j += 1;
    }
    false
}

fn same_names(fs: &Vec<RecordField>, expected: &Vec<String>) -> (r: bool)
    ensures
        r == (path_names(fields_model(fs@)) == names_model(expected@)),
{
    let ghost names = path_names(fields_model(fs@));
    let ghost want = names_model(expected@);
    if fs.len() != expected.len() {
        assert(names.len() != want.len());
        return false;
    }
    let mut i: usize = 0;
    while i < fs.len()
        invariant
            i <= fs@.len(),
            fs@.len() == expected@.len(),
            names == path_names(fields_model(fs@)),
            want == names_model(expected@),
            forall|q: int| 0 <= q < i ==> #[trigger] names[q] == want[q],
        decreases fs.len() - i,
    {
        if fs[i].path != expected[i] {
            assert(names[i as int] != want[i as int]);
            return false;
        }
        i += 1;
    }
    assert(names =~= want);
    true
}

impl DataPoint {
    /// The sample of `value` for `topic` at `time`.
    pub fn new(topic: String, time: u64, value: CursedValue) -> (r: DataPoint)
        ensures
            r@ == (topic@, time, value@),
    {
        DataPoint { topic, time, value }
    }

    /// A copy of this sample with the same model.
    pub fn copy(&self) -> (r: DataPoint)
        ensures
            r@ == self@,
    {
        DataPoint { topic: self.topic.clone(), time: self.time, value: self.value.copy() }
    }

    /// The columnar frame of this sample: `topic` and `time`, then one `data`
    /// column for a number or text, or one float column per leaf of a record,
    /// whose paths must be exactly `expected`, in order.
    pub fn to_record_batch(&self, expected: &Vec<String>) -> (r: Result<ColumnFrame, EncodeError>)
        ensures
            match r {
                Ok(f) => encode_model(self@, names_model(expected@)) == Ok::<FrameModel, EncodeError>(f@),
                Err(e) => encode_model(self@, names_model(expected@)) == Err::<FrameModel, _>(e),
            },
    {
        let mut frame = head_frame(&self.topic, self.time);
        proof {
            reveal_strlit("data");
            assert("data"@ =~= data_name());
        }
        match &self.value {
            CursedValue::Number(b) => {
                frame.schema.push(ColumnSpec { name: column_name("data"), kind: ColumnType::Float64 });
                frame.row.push(Cell::Float64(*b));
                assert(frame@.0 =~= head_schema().push((data_name(), ColumnType::Float64)));
                assert(frame@.1 =~= head_row(self.topic@, self.time).push(CellModel::Float64(*b)));
                Ok(frame)
            },
            CursedValue::String(t) => {
                frame.schema.push(ColumnSpec { name: column_name("data"), kind: ColumnType::Utf8 });
                frame.row.push(Cell::Utf8(t.clone()));
                assert(frame@.0 =~= head_schema().push((data_name(), ColumnType::Utf8)));
                assert(frame@.1 =~= head_row(self.topic@, self.time).push(CellModel::Utf8(t@)));
                Ok(frame)
            },
            CursedValue::Record(fs) => {
                if find_missing(fs, expected) {
                    return Err(EncodeError::MissingLeaf);
                }
                if !same_names(fs, expected) {
                    return Err(EncodeError::ShapeMismatch);
                }
                let ghost fm = fields_model(fs@);
                let ghost hs = head_schema();
                let ghost hr = head_row(self.topic@, self.time);
                let mut schema = frame.schema;
                let mut row = frame.row;
                assert(schema@[0].name@ == hs[0].0 && schema@[1].name@ == hs[1].0);
                assert(row@[0]@ == hr[0] && row@[1]@ == hr[1]);
                let mut i: usize = 0;
                while i < fs.len()
                    invariant
                        i <= fs@.len(),
                        fm == fields_model(fs@),
                        schema@.len() == 2 + i,
                        row@.len() == 2 + i,
                        forall|q: int| 0 <= q < 2 ==> (#[trigger] schema@[q]).name@ == hs[q].0 && schema@[q].kind == hs[q].1,
                        forall|q: int| 0 <= q < 2 ==> (#[trigger] row@[q])@ == hr[q],
                        forall|q: int| 0 <= q < i ==> (#[trigger] schema@[q + 2]).name@ == fm[q].0
                            && schema@[q + 2].kind == ColumnType::Float64,
                        forall|q: int| 0 <= q < i ==> (#[trigger] row@[q + 2])@ == CellModel::Float64(fm[q].1),
                    decreases fs.len() - i,
                {
                    schema.push(ColumnSpec { name: fs[i].path.clone(), kind: ColumnType::Float64 });
                    row.push(Cell::Float64(fs[i].bits));
                    i += 1;
                }
                let frame = ColumnFrame { schema, row };
                let ghost ts = hs + fm.map_values(|f: (Seq<char>, u64)| (f.0, ColumnType::Float64));
                let ghost tr = hr + fm.map_values(|f: (Seq<char>, u64)| CellModel::Float64(f.1));
                assert forall|q: int| 0 <= q < ts.len() implies frame@.0[q] == ts[q] && frame@.1[q] == tr[q] by {
                    if q >= 2 {
                        let q2 = q - 2;
                        assert(schema@[q2 + 2].name@ == fm[q2].0);
                        assert(row@[q2 + 2]@ == CellModel::Float64(fm[q2].1));
                    } else {
                        assert(schema@[q].name@ == hs[q].0);
                        assert(row@[q]@ == hr[q]);
                    }
                }
                assert(frame@.0 =~= ts);
                assert(frame@.1 =~= tr);
                Ok(frame)
            },
        }
    }

    /// The sample that a columnar frame holds: `topic` and `time` first, then
    /// one `data` column for a number or text, or float columns that become a
    /// record's leaves, in column order.
    pub fn from_record_batch(frame: &ColumnFrame) -> (r: Result<DataPoint, DecodeError>)
        ensures
            match r {
                Ok(d) => decode_model(frame@) == Ok::<SampleModel, DecodeError>(d@),
                Err(e) => decode_model(frame@) == Err::<SampleModel, _>(e),
            },
    {
        let ghost f = frame@;
        let n = frame.schema.len();
        if n != frame.row.len() || n < 2 {
            return Err(DecodeError::BadLayout);
        }
        proof {
            reveal_strlit("topic");
            reveal_strlit("time");
            reveal_strlit("data");
            assert("topic"@ =~= topic_name());
            assert("time"@ =~= time_name());
            assert("data"@ =~= data_name());
        }
        let topic_col = column_name("topic");
        let time_col = column_name("time");
        let data_col = column_name("data");
        if frame.schema[0].name != topic_col || frame.schema[0].kind != ColumnType::Utf8
            || frame.schema[1].name != time_col || frame.schema[1].kind != ColumnType::UInt64 {
            return Err(DecodeError::BadLayout);
        }
        assert(f.0[0] == (topic_name(), ColumnType::Utf8));
        assert(f.0[1] == (time_name(), ColumnType::UInt64));
        let mut i: usize = 0;
        while i < n
            invariant
                i <= n,
                n == frame.schema@.len(),
                n == frame.row@.len(),
                f == frame@,
                forall|q: int| 0 <= q < i ==> cell_kind(#[trigger] f.1[q]) == f.0[q].1,
            decreases n - i,
        {
            if cell_type(&frame.row[i]) != frame.schema[i].kind {
                assert(cell_kind(f.1[i as int]) != f.0[i as int].1);
                return Err(DecodeError::BadLayout);
            }
            i += 1;
        }
        assert(layout_ok(f));
        let topic = match &frame.row[0] {
            Cell::Utf8(t) => t.clone(),
            _ => {
                assert(cell_kind(f.1[0]) == ColumnType::Utf8);
                return Err(DecodeError::BadLayout);
            },
        };
        let time = match &frame.row[1] {
            Cell::UInt64(v) => *v,
            _ => {
                assert(cell_kind(f.1[1]) == ColumnType::UInt64);
                return Err(DecodeError::BadLayout);
            },
        };
        if n == 3 && frame.schema[2].name == data_col && frame.schema[2].kind != ColumnType::UInt64 {
            assert(single_data(f));
            assert(cell_kind(f.1[2]) == f.0[2].1);
            let value = match &frame.row[2] {
                Cell::Float64(b) => CursedValue::Number(*b),
                Cell::Utf8(t) => CursedValue::String(t.clone()),
                Cell::UInt64(_) => {
                    return Err(DecodeError::BadLayout);
                },
            };
            return Ok(DataPoint { topic, time, value });
        }
        assert(!single_data(f));
        let mut fields: Vec<RecordField> = Vec::new();
        let mut j: usize = 2;
        while j < n
            invariant
                2 <= j <= n,
                n == frame.schema@.len(),
                n == frame.row@.len(),
                f == frame@,
                layout_ok(f),
                !single_data(f),
                fields@.len() == j - 2,
                forall|q: int| 2 <= q < j ==> (#[trigger] f.0[q]).1 == ColumnType::Float64,
                forall|q: int| 0 <= q < j - 2 ==> (#[trigger] fields@[q]).path@ == f.0[q + 2].0
                    && fields@[q].bits == cell_bits(f.1[q + 2]),
            decreases n - j,
        {
            if frame.schema[j].kind != ColumnType::Float64 {
                assert(!floats_after_head(f));
                return Err(DecodeError::UnsupportedColumn);
            }
            assert(cell_kind(f.1[j as int]) == f.0[j as int].1);
            let bits = match &frame.row[j] {
                Cell::Float64(b) => *b,
                _ => {
                    return Err(DecodeError::BadLayout);
                },
            };
            fields.push(RecordField { path: frame.schema[j].name.clone(), bits });
            j += 1;
        }
        assert(floats_after_head(f));
        let r = DataPoint { topic, time, value: CursedValue::Record(fields) };
        assert(fields_model(fields@) =~= Seq::new((f.0.len() - 2) as nat, |q: int| (f.0[q + 2].0, cell_bits(f.1[q + 2]))));
        Ok(r)
    }
}

fn cell_type(c: &Cell) -> (k: ColumnType)
    ensures
        k == cell_kind(c@),
{
    match c {
        Cell::UInt64(_) => ColumnType::UInt64,
        Cell::Float64(_) => ColumnType::Float64,
        Cell::Utf8(_) => ColumnType::Utf8,
    }
}

} // verus!
