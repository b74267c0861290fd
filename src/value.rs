use vstd::prelude::*;

verus! {

/// A field of a flattened record: its dotted path and the IEEE-754 bit
/// pattern of its number.
#[derive(Clone, Debug, PartialEq)]
pub struct RecordField {
    pub path: String,
    pub bits: u64,
}

/// What a sample carries: a number (held as its IEEE-754 bit pattern), a
/// piece of text, or a flattened record of numbers keyed by dotted path.
#[derive(Clone, Debug, PartialEq)]
pub enum CursedValue {
    Number(u64),
    String(String),
    Record(Vec<RecordField>),
}

/// The mathematical model of a value.
pub ghost enum ValueModel {
    Number(u64),
    Text(Seq<char>),
    Record(Seq<(Seq<char>, u64)>),
}

/// The model of a record's fields: path and bits, in order.
pub open spec fn fields_model(fs: Seq<RecordField>) -> Seq<(Seq<char>, u64)> {
    fs.map_values(|f: RecordField| (f.path@, f.bits))
}

impl View for CursedValue {
    type V = ValueModel;

    open spec fn view(&self) -> ValueModel {
        match self {
            CursedValue::Number(b) => ValueModel::Number(*b),
            CursedValue::String(s) => ValueModel::Text(s@),
            CursedValue::Record(fs) => ValueModel::Record(fields_model(fs@)),
        }
    }
}

impl RecordField {
    /// A copy of this field.
    pub fn copy(&self) -> (r: RecordField)
        ensures
            r.path@ == self.path@,
            r.bits == self.bits,
    {
        RecordField { path: self.path.clone(), bits: self.bits }
    }
}

/// A copy of a record's fields, in order.
pub fn copy_fields(fs: &Vec<RecordField>) -> (r: Vec<RecordField>)
    ensures
        fields_model(r@) == fields_model(fs@),
{
    let mut r: Vec<RecordField> = Vec::new();
    let mut i: usize = 0;
    while i < fs.len()
        invariant
            i <= fs.len(),
            r@.len() == i,
            forall|j: int| 0 <= j < i ==> (#[trigger] r@[j]).path@ == fs@[j].path@ && r@[j].bits
                == fs@[j].bits,
        decreases fs.len() - i,
    {
        r.push(fs[i].copy());
        i += 1;
    }
    assert(fields_model(r@) =~= fields_model(fs@));
    r
}

impl CursedValue {
    /// A copy of this value with the same model.
    pub fn copy(&self) -> (r: CursedValue)
        ensures
            r@ == self@,
    {
        match self {
            CursedValue::Number(b) => CursedValue::Number(*b),
            CursedValue::String(s) => CursedValue::String(s.clone()),
            CursedValue::Record(fs) => CursedValue::Record(copy_fields(fs)),
        }
    }
}

} // verus!
