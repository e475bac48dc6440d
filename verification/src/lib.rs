//! Structural profiling of JSON record collections.
//!
//! The library discovers the shape of a dataset of JSON records: every key
//! path that occurs in any record, how often each occurs, which top-level
//! key combinations are most common, and which records are missing keys that
//! appear elsewhere in the dataset.

pub mod json;
pub mod text;
pub mod analysis;
pub mod source;
pub mod dataset;

use vstd::prelude::*;
use vstd::string::{StrSliceExecFns, StringExecFns};
use crate::json::{JsonValue, parsed_json};
use crate::analysis::combo_table_ok;
use crate::dataset::{
    JsonlData, keys_found_report_view, freq_report_view, combos_report_view,
};
use crate::source::{DataError, HttpJsonlReader, JsonlReader, MemoryJsonlReader};

verus! {

/// Where the records come from: a local file, a remote location, or a named
/// in-memory set of raw lines.
#[derive(Debug, PartialEq, Eq)]
pub enum DataSource {
    File(String),
    Url(String),
    Memory(String, Vec<String>),
}

/// A whitespace character of the kind a blank line may consist of.
pub open spec fn is_space_char(c: char) -> bool {
    c == ' ' || c == '\t' || c == '\r' || c == '\n' || c == '\u{0b}' || c == '\u{0c}'
}

/// A line holding nothing but whitespace.
pub open spec fn is_blank_line(s: Seq<char>) -> bool {
    forall|i: int| 0 <= i < s.len() ==> is_space_char(#[trigger] s[i])
}

/// The lines that count as records: everything but the blank ones.
pub open spec fn keep_line() -> spec_fn(String) -> bool {
    |l: String| !is_blank_line(l@)
}

/// Whether the line holds nothing but whitespace.
fn is_blank(s: &str) -> (r: bool)
    ensures
        r == is_blank_line(s@),
{
    let len = s.unicode_len();
    let mut i: usize = 0;
    while i < len
        invariant
            len == s@.len(),
            i <= len,
            forall|j: int| 0 <= j < i ==> is_space_char(#[trigger] s@[j]),
        decreases len - i,
    {
        let c = s.get_char(i);
        if !(c == ' ' || c == '\t' || c == '\r' || c == '\n' || c == '\u{0b}' || c == '\u{0c}') {
            return false;
        }
        i += 1;
    }
    true
}

/// Drops the blank lines, keeping the rest in order.
fn drop_blank_lines(lines: &Vec<String>) -> (r: Vec<String>)
    ensures
        r@ == lines@.filter(keep_line()),
{
    let mut out: Vec<String> = Vec::new();
    let mut i: usize = 0;
    while i < lines.len()
        invariant
            i <= lines@.len(),
            out@ == lines@.take(i as int).filter(keep_line()),
        decreases lines@.len() - i,
    {
        if !is_blank(lines[i].as_str()) {
            out.push(lines[i].clone());
        }
        proof {
            let pre = lines@.take(i as int);
            let e = lines@[i as int];
            assert(lines@.take(i + 1) =~= pre.push(e));
            pre.lemma_filter_push(e, keep_line());
        }
        i += 1;
    }
    proof {
        assert(lines@.take(lines@.len() as int) =~= lines@);
    }
    out
}

/// The three standard reports -- key summary, frequency table, top `n` key
/// combinations -- of some well-formed dataset handle that holds exactly
/// `rows` under the name `name`.
pub open spec fn standard_reports(
    reps: Seq<String>,
    rows: Seq<JsonValue>,
    name: Seq<char>,
    n: nat,
) -> bool {
    exists|d: JsonlData<MemoryJsonlReader>|
        {
            &&& #[trigger] d.wf()
            &&& d.records() == rows
            &&& d.name_view() == name
            &&& reps.len() == 3
            &&& reps[0]@ == keys_found_report_view(d.keys_view().len(), name)
            &&& reps[1]@ == freq_report_view(d.table_view(), d.missing_view())
            &&& exists|full: Seq<(Seq<Seq<char>>, usize)>|
                #[trigger] combo_table_ok(full, rows) && reps[2]@ == combos_report_view(
                    n,
                    name,
                    full.take(
                        if n as int <= full.len() {
                            n as int
                        } else {
                            full.len() as int
                        },
                    ),
                )
        }
}

/// The reports describe a dataset parsed one record per line out of
/// `src_lines`, analyzed under `name`.
pub open spec fn parsed_reports(reps: Seq<String>, src_lines: Seq<String>, name: Seq<char>) -> bool {
    exists|rows: Seq<JsonValue>|
        #![trigger standard_reports(reps, rows, name, 5)]
        {
            &&& rows.len() == src_lines.len()
            &&& (forall|x: int|
                0 <= x < rows.len() ==> Some(#[trigger] rows[x]) == parsed_json(src_lines[x]@))
            &&& standard_reports(reps, rows, name, 5)
        }
}

/// Builds the three standard reports for a loaded in-memory dataset.
fn report_all(data: &JsonlData<MemoryJsonlReader>, n: usize) -> (reps: Vec<String>)
    requires
        data.wf(),
    ensures
        standard_reports(reps@, data.records(), data.name_view(), n as nat),
{
    let mut reps: Vec<String> = Vec::new();
    reps.push(data.show_keys_found_report());
    reps.push(data.show_keys_frequencies_report());
    reps.push(data.show_top_key_combinations_report(n));
    reps
}

/// Analyzes the raw text lines of a newline-delimited JSON file. Blank
/// lines are skipped; every other line must be one valid JSON document, or
/// the whole load fails with the parse error and no report is produced.
/// On success the result holds the key summary, the frequency report and
/// the top-five key-combination report.
pub fn process_file(filename: String, lines: Vec<String>) -> (r: Result<Vec<String>, DataError>)
    ensures
        r is Ok <==> (forall|x: int|
            0 <= x < lines@.filter(keep_line()).len() ==> parsed_json(
                (#[trigger] lines@.filter(keep_line())[x])@,
            ) is Some),
        r matches Ok(reps) ==> parsed_reports(reps@, lines@.filter(keep_line()), filename@),
        r matches Err(e) ==> e is Parse,
{
    let kept = drop_blank_lines(&lines);
    let reader = match MemoryJsonlReader::from_strings(filename, &kept) {
        Ok(reader) => reader,
        Err(e) => {
            return Err(e);
        }
    };
    proof {
        crate::source::lemma_memory_loaded(&reader);
    }
    match JsonlData::new(reader) {
        Ok(data) => {
            let reps = report_all(&data, 5);
            proof {
                let rows = data.records();
                assert(standard_reports(reps@, rows, filename@, 5));
                assert(parsed_reports(reps@, lines@.filter(keep_line()), filename@));
            }
            Ok(reps)
        }
        Err(e) => {
            proof {
                assert(false);
            }
            Err(e)
        }
    }
}

/// Analyzes records supplied as raw JSON lines held in memory. Every line,
/// blank or not, must be one valid JSON document, or the whole run fails
/// with the parse error. On success the result holds the three standard
/// reports.
pub fn process_memory_data(name: String, json_lines: Vec<String>) -> (r: Result<
    Vec<String>,
    DataError,
>)
    ensures
        r is Ok <==> (forall|x: int|
            0 <= x < json_lines@.len() ==> parsed_json((#[trigger] json_lines@[x])@) is Some),
        r matches Ok(reps) ==> parsed_reports(reps@, json_lines@, name@),
        r matches Err(e) ==> e is Parse,
{
    let reader = match MemoryJsonlReader::from_strings(name, &json_lines) {
        Ok(reader) => reader,
        Err(e) => {
            return Err(e);
        }
    };
    proof {
        crate::source::lemma_memory_loaded(&reader);
    }
    match JsonlData::new(reader) {
        Ok(data) => {
            let reps = report_all(&data, 5);
            proof {
                let rows = data.records();
                assert(standard_reports(reps@, rows, name@, 5));
                assert(parsed_reports(reps@, json_lines@, name@));
            }
            Ok(reps)
        }
        Err(e) => {
            proof {
                assert(false);
            }
            Err(e)
        }
    }
}

/// Attempts to analyze records behind a URL. The network backend is not
/// implemented: the run always fails with an Unsupported error, and no
/// report is produced.
pub fn process_url(url: String) -> (r: Result<Vec<String>, DataError>)
    ensures
        r is Err,
        r matches Err(e) ==> e is Unsupported,
{
    let reader = HttpJsonlReader::new(url);
    match JsonlData::new(reader) {
        Ok(_) => {
            proof {
                assert(false);
            }
            Err(DataError::Unsupported(String::new()))
        }
        Err(e) => Err(e),
    }
}

/// Whether `s` starts with `p`; if so, what follows the prefix.
fn strip_prefix_str(s: &str, p: &str) -> (r: Option<String>)
    ensures
        r is Some <==> (s@.len() >= p@.len() && s@.take(p@.len() as int) == p@),
        r matches Some(rest) ==> rest@ == s@.skip(p@.len() as int),
{
    let plen = p.unicode_len();
    let slen = s.unicode_len();
    if slen < plen {
        return None;
    }
    let mut i: usize = 0;
    while i < plen
        invariant
            plen == p@.len(),
            slen == s@.len(),
            plen <= slen,
            i <= plen,
            forall|j: int| 0 <= j < i ==> s@[j] == p@[j],
        decreases plen - i,
    {
        if s.get_char(i) != p.get_char(i) {
            proof {
                assert(s@.take(p@.len() as int)[i as int] != p@[i as int]);
            }
            return None;
        }
        i += 1;
    }
    proof {
        assert(s@.take(p@.len() as int) =~= p@);
    }
    Some(s.substring_char(plen, slen).to_owned())
}

/// An argument that selects a file source.
pub open spec fn file_arg(s: Seq<char>) -> bool {
    s.len() >= "--filename="@.len() && s.take("--filename="@.len() as int) == "--filename="@
}

/// An argument that selects a URL source.
pub open spec fn url_arg(s: Seq<char>) -> bool {
    s.len() >= "--url="@.len() && s.take("--url="@.len() as int) == "--url="@
}

/// Picks the data source out of the command-line arguments: the first
/// argument carrying a `--filename=` or `--url=` prefix decides, with the
/// file form winning within one argument; no such argument means no source.
pub fn parse_cli_arguments(args: Vec<String>) -> (r: Option<DataSource>)
    ensures
        r is None <==> (forall|x: int|
            0 <= x < args@.len() ==> !file_arg((#[trigger] args@[x])@) && !url_arg(args@[x]@)),
        r matches Some(src) ==> exists|x: int|
            {
                &&& 0 <= x < args@.len()
                &&& (forall|y: int|
                    0 <= y < x ==> !file_arg((#[trigger] args@[y])@) && !url_arg(args@[y]@))
                &&& match src {
                    DataSource::File(f) => file_arg((#[trigger] args@[x])@) && f@
                        == args@[x]@.skip("--filename="@.len() as int),
                    DataSource::Url(u) => !file_arg((#[trigger] args@[x])@) && url_arg(args@[x]@)
                        && u@ == args@[x]@.skip("--url="@.len() as int),
                    DataSource::Memory(_, _) => false,
                }
            },
{
    let mut i: usize = 0;
    while i < args.len()
        invariant
            i <= args@.len(),
            forall|y: int| 0 <= y < i ==> !file_arg((#[trigger] args@[y])@) && !url_arg(args@[y]@),
        decreases args@.len() - i,
    {
        match strip_prefix_str(args[i].as_str(), "--filename=") {
            Some(val) => {
                return Some(DataSource::File(val));
            }
            None => {}
        }
        match strip_prefix_str(args[i].as_str(), "--url=") {
            Some(val) => {
                return Some(DataSource::Url(val));
            }
            None => {}
        }
        i += 1;
    }
    None
}

} // verus!
