//! Record sources: interchangeable backends that hold an ordered sequence
//! of JSON records and allow reads, in-place replacement and appends.

use vstd::prelude::*;
use vstd::string::StringExecFns;
use crate::json::{JsonValue, parsed_json, parse_json_str};

verus! {

/// What can go wrong when loading or mutating a record source.
#[derive(Debug, PartialEq, Eq)]
pub enum DataError {
    /// The source could not be read.
    Io(String),
    /// A line of text is not a valid JSON document.
    Parse(String),
    /// The backend does not implement the requested operation.
    Unsupported(String),
    /// A record index at or beyond the current length.
    IndexOutOfRange(usize),
}

/// A source of JSON records. Implementations state through `records` which
/// records they currently hold; every operation is specified against that
/// sequence.
pub trait JsonlReader: Sized {
    /// The records the source currently holds, in order.
    spec fn records(&self) -> Seq<JsonValue>;

    /// The source's human-readable name, for diagnostics only.
    spec fn name_view(&self) -> Seq<char>;

    /// Whether this backend's load succeeds. Backends below either always
    /// load (in-memory data) or never do (the network placeholder).
    spec fn loadable(&self) -> bool;

    /// The records a successful load materializes.
    spec fn loaded(&self) -> Seq<JsonValue>;

    /// Materializes the records. A backend that cannot load fails with an
    /// Unsupported error and leaves its records alone; the source's name
    /// never changes.
    fn load(&mut self) -> (r: Result<(), DataError>)
        ensures
            r is Ok <==> old(self).loadable(),
            r is Ok ==> final(self).records() == old(self).loaded(),
            final(self).name_view() == old(self).name_view(),
            final(self).loadable() == old(self).loadable(),
            final(self).loaded() == old(self).loaded(),
            r is Err ==> final(self).records() == old(self).records(),
            r is Err && !old(self).loadable() ==> r->Err_0 is Unsupported;

    /// The current record count.
    fn len(&self) -> (n: usize)
        ensures
            n == self.records().len();

    /// Whether the source holds no records.
    fn is_empty(&self) -> (b: bool)
        ensures
            b == (self.records().len() == 0),
    {
        self.len() == 0
    }

    /// Bounds-checked read access.
    fn get(&self, index: usize) -> (r: Option<&JsonValue>)
        ensures
            r is Some <==> index < self.records().len(),
            r matches Some(v) ==> *v == self.records()[index as int];

    /// Overwrites the record at `index`, or fails without any change when
    /// `index` is out of range.
    fn replace(&mut self, index: usize, value: JsonValue) -> (r: Result<(), DataError>)
        ensures
            r is Ok <==> index < old(self).records().len(),
            r is Ok ==> final(self).records() == old(self).records().update(index as int, value),
            r is Err ==> *final(self) == *old(self) && r == Err::<(), DataError>(
                DataError::IndexOutOfRange(index),
            ),
            final(self).name_view() == old(self).name_view(),
            final(self).loadable() == old(self).loadable();

    /// Appends a record at the end.
    fn push(&mut self, value: JsonValue) -> (r: Result<(), DataError>)
        ensures
            r is Ok,
            final(self).records() == old(self).records().push(value),
            final(self).name_view() == old(self).name_view(),
            final(self).loadable() == old(self).loadable();

    /// A read-only traversal of the records in their original order.
    fn iter(&self) -> (r: &Vec<JsonValue>)
        ensures
            r@ == self.records();

    /// The source's name.
    fn source_name(&self) -> (r: &str)
        ensures
            r@ == self.name_view();
}

/// An in-memory record source, constructed from already-parsed values or
/// from raw text lines.
pub struct MemoryJsonlReader {
    name: String,
    data: Vec<JsonValue>,
}

impl MemoryJsonlReader {
    /// Wraps a sequence of already-parsed records under a logical name.
    pub fn new(name: String, data: Vec<JsonValue>) -> (r: Self)
        ensures
            r.records() == data@,
            r.name_view() == name@,
            r.loadable(),
    {
        MemoryJsonlReader { name, data }
    }

    /// Parses one record from each line of text. Construction fails with a
    /// Parse error exactly when some line is not a valid JSON document, and
    /// then no reader exists.
    pub fn from_strings(name: String, json_lines: &Vec<String>) -> (r: Result<Self, DataError>)
        ensures
            r is Ok <==> (forall|x: int|
                0 <= x < json_lines@.len() ==> parsed_json((#[trigger] json_lines@[x])@) is Some),
            r matches Ok(m) ==> {
                &&& m.records().len() == json_lines@.len()
                &&& forall|x: int|
                    0 <= x < json_lines@.len() ==> Some(#[trigger] m.records()[x]) == parsed_json(
                        json_lines@[x]@,
                    )
                &&& m.name_view() == name@
                &&& m.loadable()
            },
            r is Err ==> r->Err_0 is Parse,
    {
        let mut data: Vec<JsonValue> = Vec::new();
        let mut i: usize = 0;
        while i < json_lines.len()
            invariant
                i <= json_lines@.len(),
                data@.len() == i,
                forall|x: int|
                    0 <= x < i ==> parsed_json((#[trigger] json_lines@[x])@) is Some,
                forall|x: int|
                    0 <= x < i ==> Some(#[trigger] data@[x]) == parsed_json(json_lines@[x]@),
            decreases json_lines@.len() - i,
        {
            match parse_json_str(json_lines[i].as_str()) {
                Ok(v) => {
                    data.push(v);
                }
                Err(msg) => {
                    return Err(DataError::Parse(msg));
                }
            }
            i += 1;
        }
        Ok(MemoryJsonlReader { name, data })
    }
}

/// An in-memory reader always loads, and loading leaves its records as
/// they are.
pub proof fn lemma_memory_loaded(m: &MemoryJsonlReader)
    ensures
        m.loadable(),
        m.loaded() == m.records(),
{
}

impl JsonlReader for MemoryJsonlReader {
    closed spec fn records(&self) -> Seq<JsonValue> {
        self.data@
    }

    closed spec fn name_view(&self) -> Seq<char> {
        self.name@
    }

    closed spec fn loadable(&self) -> bool {
        true
    }

    closed spec fn loaded(&self) -> Seq<JsonValue> {
        self.data@
    }

    fn load(&mut self) -> (r: Result<(), DataError>) {
        Ok(())
    }

    fn len(&self) -> (n: usize) {
        self.data.len()
    }

    fn get(&self, index: usize) -> (r: Option<&JsonValue>) {
        if index < self.data.len() {
            Some(&self.data[index])
        } else {
            None
        }
    }

    fn replace(&mut self, index: usize, value: JsonValue) -> (r: Result<(), DataError>) {
        if index < self.data.len() {
            self.data[index] = value;
            Ok(())
        } else {
            Err(DataError::IndexOutOfRange(index))
        }
    }

    fn push(&mut self, value: JsonValue) -> (r: Result<(), DataError>) {
        self.data.push(value);
        Ok(())
    }

    fn iter(&self) -> (r: &Vec<JsonValue>) {
        &self.data
    }

    fn source_name(&self) -> (r: &str) {
        self.name.as_str()
    }
}

/// A network-backed record source. Loading is not implemented: it fails
/// explicitly rather than silently succeeding, and the reader holds no
/// records until some are pushed.
pub struct HttpJsonlReader {
    url: String,
    data: Vec<JsonValue>,
}

impl HttpJsonlReader {
    /// A reader for the given URL, holding no records.
    pub fn new(url: String) -> (r: Self)
        ensures
            r.records() == Seq::<JsonValue>::empty(),
            r.name_view() == url@,
            !r.loadable(),
    {
        let r = HttpJsonlReader { url, data: Vec::new() };
        proof {
            assert(r.records() =~= Seq::<JsonValue>::empty());
        }
        r
    }
}

impl JsonlReader for HttpJsonlReader {
    closed spec fn records(&self) -> Seq<JsonValue> {
        self.data@
    }

    closed spec fn name_view(&self) -> Seq<char> {
        self.url@
    }

    closed spec fn loadable(&self) -> bool {
        false
    }

    closed spec fn loaded(&self) -> Seq<JsonValue> {
        Seq::empty()
    }

    fn load(&mut self) -> (r: Result<(), DataError>) {
        Err(DataError::Unsupported("HTTP reader not yet implemented".to_owned()))
    }

    fn len(&self) -> (n: usize) {
        self.data.len()
    }

    fn get(&self, index: usize) -> (r: Option<&JsonValue>) {
        if index < self.data.len() {
            Some(&self.data[index])
        } else {
            None
        }
    }

    fn replace(&mut self, index: usize, value: JsonValue) -> (r: Result<(), DataError>) {
        if index < self.data.len() {
            self.data[index] = value;
            Ok(())
        } else {
            Err(DataError::IndexOutOfRange(index))
        }
    }

    fn push(&mut self, value: JsonValue) -> (r: Result<(), DataError>) {
        self.data.push(value);
        Ok(())
    }

    fn iter(&self) -> (r: &Vec<JsonValue>) {
        &self.data
    }

    fn source_name(&self) -> (r: &str) {
        self.url.as_str()
    }
}

} // verus!
