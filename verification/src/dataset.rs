//! The dataset handle: one record source together with the cached analysis
//! results, kept consistent across every mutation.

use vstd::prelude::*;
use vstd::relations::sorted_by;
use crate::json::{JsonValue, dataset_paths, dataset_count, row_paths, row_count, row_key_set, global_key_set, decimal};
use crate::text::{
    strings_view, pad_right, pad_left, pad_right_str, pad_left_str, dashes, make_dashes,
    grouped_decimal, format_count, index_list_view, format_index_list, joined_view, join_comma,
    usize_to_string,
};
use crate::analysis::{
    analyze_json_keys, combo_table_ok, combos_view, counts_match, entries_view,
    get_all_keys_seen_across_dataset, get_keys_in_row, identify_rows_with_missing_keys,
    lex_lt_fn, ranked_leq_fn,
};
use crate::source::{DataError, JsonlReader};

verus! {

/// A record source bound to the analysis of its current records: the
/// Frequency Table, the Global Key Set and the missing-key indices, all
/// recomputed together after every successful mutation.
pub struct JsonlData<R: JsonlReader> {
    reader: R,
    keys_seen: Vec<String>,
    key_freqs: Vec<(String, usize)>,
    rows_with_missing_keys: Vec<usize>,
}

impl<R: JsonlReader> JsonlData<R> {
    /// The records currently held.
    pub closed spec fn records(&self) -> Seq<JsonValue> {
        self.reader.records()
    }

    /// The source's name.
    pub closed spec fn name_view(&self) -> Seq<char> {
        self.reader.name_view()
    }

    /// The cached Frequency Table.
    pub closed spec fn table_view(&self) -> Seq<(Seq<char>, usize)> {
        entries_view(self.key_freqs@)
    }

    /// The cached Global Key Set, as the key list it is stored in.
    pub closed spec fn keys_view(&self) -> Seq<Seq<char>> {
        strings_view(self.keys_seen@)
    }

    /// The cached missing-key record indices.
    pub closed spec fn missing_view(&self) -> Seq<usize> {
        self.rows_with_missing_keys@
    }

    /// The cached results describe exactly the current records: the
    /// Frequency Table is the ranked tally of all key paths, the key list
    /// is the Global Key Set, and the missing list holds precisely the
    /// indices of records whose Row Key Set falls short of it.
    pub closed spec fn wf(&self) -> bool {
        &&& counts_match(self.table_view(), dataset_paths(self.records()))
        &&& sorted_by(self.table_view(), ranked_leq_fn(lex_lt_fn()))
        &&& self.keys_view().to_set() == global_key_set(self.records())
        &&& forall|x: int, y: int|
            0 <= x < y < self.keys_view().len() ==> #[trigger] self.keys_view()[x]
                != #[trigger] self.keys_view()[y]
        &&& forall|x: int|
            0 <= x < self.missing_view().len() ==> (#[trigger] self.missing_view()[x])
                < self.records().len()
        &&& forall|x: int, y: int|
            0 <= x < y < self.missing_view().len() ==> self.missing_view()[x]
                < self.missing_view()[y]
        &&& forall|i: int|
            0 <= i < self.records().len() ==> (#[trigger] self.missing_view().contains(i as usize)
                <==> row_key_set(self.records()[i]) != global_key_set(self.records()))
    }

    /// Loads the source to completion and analyzes it. On load failure no
    /// handle exists; on success the cached results match the records.
    pub fn new(reader: R) -> (r: Result<Self, DataError>)
        ensures
            r is Ok <==> reader.loadable(),
            r matches Ok(d) ==> d.wf() && d.records() == reader.loaded() && d.name_view()
                == reader.name_view(),
            r matches Err(e) ==> e is Unsupported,
    {
        let mut reader = reader;
        match reader.load() {
            Err(e) => Err(e),
            Ok(()) => {
                let keys_seen = get_all_keys_seen_across_dataset(reader.iter());
                let key_freqs = analyze_json_keys(reader.iter());
                let rows_with_missing_keys = identify_rows_with_missing_keys(reader.iter());
                Ok(JsonlData { reader, keys_seen, key_freqs, rows_with_missing_keys })
            }
        }
    }

    /// The source's name.
    pub fn filename(&self) -> (r: &str)
        ensures
            r@ == self.name_view(),
    {
        self.reader.source_name()
    }

    /// The current record count.
    pub fn len(&self) -> (n: usize)
        ensures
            n == self.records().len(),
    {
        self.reader.len()
    }

    /// Whether the dataset holds no records.
    pub fn is_empty(&self) -> (b: bool)
        ensures
            b == (self.records().len() == 0),
    {
        self.reader.is_empty()
    }

    /// Bounds-checked read access to one record.
    pub fn get(&self, index: usize) -> (r: Option<&JsonValue>)
        ensures
            r is Some <==> index < self.records().len(),
            r matches Some(v) ==> *v == self.records()[index as int],
    {
        self.reader.get(index)
    }

    /// The cached Global Key Set, one entry per distinct key path.
    pub fn keys_seen(&self) -> (r: &Vec<String>)
        ensures
            strings_view(r@) == self.keys_view(),
    {
        &self.keys_seen
    }

    /// The cached ranked Frequency Table.
    pub fn key_freqs(&self) -> (r: &Vec<(String, usize)>)
        ensures
            entries_view(r@) == self.table_view(),
    {
        &self.key_freqs
    }

    /// The cached missing-key record indices, ascending.
    pub fn rows_with_missing_keys(&self) -> (r: &Vec<usize>)
        ensures
            r@ == self.missing_view(),
    {
        &self.rows_with_missing_keys
    }

    /// The single-record detail: the keys the record at `record_id` is
    /// missing relative to the Global Key Set, or nothing when the index is
    /// out of range.
    pub fn show_record(&self, record_id: usize) -> (r: Option<Vec<String>>)
        requires
            self.wf(),
        ensures
            r is Some <==> record_id < self.records().len(),
            r matches Some(m) ==> strings_view(m@).to_set() == global_key_set(
                self.records(),
            ).difference(row_key_set(self.records()[record_id as int])),
    {
        match self.reader.get(record_id) {
            None => None,
            Some(row) => {
                let row_keys = get_keys_in_row(row);
                let mut missing: Vec<String> = Vec::new();
                let mut j: usize = 0;
                while j < self.keys_seen.len()
                    invariant
                        j <= self.keys_seen@.len(),
                        strings_view(missing@).to_set() =~= Set::new(
                            |p: Seq<char>|
                                exists|x: int|
                                    0 <= x < j && #[trigger] self.keys_view()[x] == p
                                        && !strings_view(row_keys@).to_set().contains(p),
                        ),
                        strings_view(row_keys@).to_set() == row_key_set(
                            self.records()[record_id as int],
                        ),
                    decreases self.keys_seen@.len() - j,
                {
                    let ghost before = strings_view(missing@);
                    if !crate::analysis::contains_string(&row_keys, &self.keys_seen[j]) {
                        missing.push(self.keys_seen[j].clone());
                        proof {
                            assert(strings_view(missing@) =~= before.push(self.keys_view()[j as int]));
                            before.lemma_push_to_set_commute(self.keys_view()[j as int]);
                            assert(strings_view(missing@).to_set() =~= before.to_set().insert(
                                self.keys_view()[j as int],
                            ));
                        }
                    }
                    proof {
                        assert(strings_view(missing@).to_set() =~= Set::new(
                            |p: Seq<char>|
                                exists|x: int|
                                    0 <= x < j + 1 && #[trigger] self.keys_view()[x] == p
                                        && !strings_view(row_keys@).to_set().contains(p),
                        ));
                    }
                    j += 1;
                }
                proof {
                    let global = global_key_set(self.records());
                    let rset = row_key_set(self.records()[record_id as int]);
                    assert forall|p: Seq<char>|
                        #[trigger] strings_view(missing@).to_set().contains(p) implies global.contains(
                        p,
                    ) && !rset.contains(p) by {
                        let x = choose|x: int|
                            0 <= x < self.keys_view().len() && #[trigger] self.keys_view()[x] == p
                                && !strings_view(row_keys@).to_set().contains(p);
                        assert(self.keys_view().contains(p));
                        assert(self.keys_view().to_set().contains(p));
                    }
                    assert forall|p: Seq<char>| global.contains(p) && !rset.contains(p)
                        implies #[trigger] strings_view(missing@).to_set().contains(p) by {
                        assert(self.keys_view().to_set().contains(p));
                        let x = choose|x: int|
                            0 <= x < self.keys_view().len() && #[trigger] self.keys_view()[x] == p;
                    }
                    assert(strings_view(missing@).to_set() =~= global.difference(rset));
                }
                Some(missing)
            }
        }
    }

    /// Replaces the record at `record_id` and recomputes every cached
    /// result. An out-of-range index fails with an Index error and leaves
    /// the handle, records and caches alike, exactly as it was.
    pub fn replace_record(&mut self, record_id: usize, new_json: JsonValue) -> (r: Result<
        (),
        DataError,
    >)
        ensures
            r is Ok <==> record_id < old(self).records().len(),
            r is Ok ==> final(self).records() == old(self).records().update(
                record_id as int,
                new_json,
            ) && final(self).wf(),
            r is Err ==> *final(self) == *old(self) && r == Err::<(), DataError>(
                DataError::IndexOutOfRange(record_id),
            ),
            final(self).name_view() == old(self).name_view(),
    {
        match self.reader.replace(record_id, new_json) {
            Err(e) => {
                proof {
                    assert(*final(self) =~= *old(self));
                }
                Err(e)
            }
            Ok(()) => {
                self.keys_seen = get_all_keys_seen_across_dataset(self.reader.iter());
                self.key_freqs = analyze_json_keys(self.reader.iter());
                self.rows_with_missing_keys = identify_rows_with_missing_keys(self.reader.iter());
                Ok(())
            }
        }
    }
}

/// The text of the key-summary report.
pub open spec fn keys_found_report_view(n: nat, name: Seq<char>) -> Seq<char> {
    "===============================\n"@ + "Found "@ + decimal(n)
        + " unique JSON keys in file "@ + name + "\n"@
}

/// The longest key among the table entries `t[i..]`.
pub open spec fn max_key_len_from(t: Seq<(Seq<char>, usize)>, i: int) -> nat
    decreases t.len() - i,
{
    if 0 <= i < t.len() {
        let rest = max_key_len_from(t, i + 1);
        if t[i].0.len() >= rest {
            t[i].0.len()
        } else {
            rest
        }
    } else {
        0
    }
}

/// The key column's width: the longest key, and at least twenty.
pub open spec fn freq_width(t: Seq<(Seq<char>, usize)>) -> nat {
    if max_key_len_from(t, 0) >= 20 {
        max_key_len_from(t, 0)
    } else {
        20
    }
}

/// One line per table entry: the key, then its count with thousands
/// separators, right-aligned.
pub open spec fn freq_lines_view(t: Seq<(Seq<char>, usize)>, w: nat, i: int) -> Seq<char>
    decreases t.len() - i,
{
    if 0 <= i < t.len() {
        "\t"@ + pad_right(t[i].0, w) + " "@ + pad_left(grouped_decimal(t[i].1 as nat), 12) + "\n"@
            + freq_lines_view(t, w, i + 1)
    } else {
        Seq::empty()
    }
}

/// The text of the frequency report: a header, one line per table entry,
/// and the missing-key record indices.
pub open spec fn freq_report_view(t: Seq<(Seq<char>, usize)>, missing: Seq<usize>) -> Seq<char> {
    let w = freq_width(t);
    "===============================\n"@ + pad_right("Key"@, w) + " "@ + pad_left("Count"@, 12)
        + "\n"@ + dashes(w + 14) + "\n"@ + freq_lines_view(t, w, 0) + "\n\n"@
        + "Rows with missing keys: "@ + "["@ + index_list_view(missing, 0) + "]"@ + "\n"@
}

/// One line per ranked combination: its rank, the field names, and the
/// record count with a pluralized unit.
pub open spec fn combo_lines_view(t: Seq<(Seq<Seq<char>>, usize)>, i: int) -> Seq<char>
    decreases t.len() - i,
{
    if 0 <= i < t.len() {
        decimal((i + 1) as nat) + ". ("@ + joined_view(t[i].0, 0) + ") - "@ + grouped_decimal(
            t[i].1 as nat,
        ) + " occurrence"@ + (if t[i].1 == 1 {
            Seq::<char>::empty()
        } else {
            "s"@
        }) + "\n"@ + combo_lines_view(t, i + 1)
    } else {
        Seq::empty()
    }
}

/// The text of the top-combinations report.
pub open spec fn combos_report_view(
    n: nat,
    name: Seq<char>,
    t: Seq<(Seq<Seq<char>>, usize)>,
) -> Seq<char> {
    "Top "@ + decimal(n) + " Most Frequent JSON Key combinations in "@ + name + "\n"@ + (if t.len()
        == 0 {
        "No JSON key combinations found.\n"@
    } else {
        combo_lines_view(t, 0)
    })
}

impl<R: JsonlReader> JsonlData<R> {
    /// The `n` most frequent top-level key combinations of the current
    /// records, recomputed from the source.
    pub fn get_top_key_combinations(&self, n: usize) -> (r: Vec<(Vec<String>, usize)>)
        ensures
            exists|full: Seq<(Seq<Seq<char>>, usize)>|
                #[trigger] combo_table_ok(full, self.records()) && combos_view(r@) == full.take(
                    if n as int <= full.len() {
                        n as int
                    } else {
                        full.len() as int
                    },
                ),
    {
        let rows = self.reader.iter();
        let r = crate::analysis::get_top_key_combinations(rows, n);
        proof {
            let full = choose|full: Seq<(Seq<Seq<char>>, usize)>|
                #[trigger] combo_table_ok(full, rows@) && combos_view(r@) == full.take(
                    if n as int <= full.len() {
                        n as int
                    } else {
                        full.len() as int
                    },
                );
            assert(combo_table_ok(full, self.records()));
        }
        r
    }

    /// The key-summary report: how many distinct key paths the dataset
    /// holds, and where the records came from.
    pub fn show_keys_found_report(&self) -> (r: String)
        ensures
            r@ == keys_found_report_view(self.keys_view().len(), self.name_view()),
    {
        let mut s = String::new();
        s.append("===============================\n");
        s.append("Found ");
        s.append(usize_to_string(self.keys_seen.len()).as_str());
        s.append(" unique JSON keys in file ");
        s.append(self.reader.source_name());
        s.append("\n");
        proof {
            assert(s@ =~= keys_found_report_view(self.keys_view().len(), self.name_view()));
        }
        s
    }

    /// The frequency report: the ranked Frequency Table as an aligned text
    /// table, followed by the indices of the records with missing keys.
    pub fn show_keys_frequencies_report(&self) -> (r: String)
        ensures
            r@ == freq_report_view(self.table_view(), self.missing_view()),
    {
        let ghost t = self.table_view();
        let mut m: usize = 0;
        let mut i: usize = self.key_freqs.len();
        while i > 0
            invariant
                i <= self.key_freqs@.len(),
                t == self.table_view(),
                m as nat == max_key_len_from(t, i as int),
            decreases i,
        {
            i -= 1;
            let klen = self.key_freqs[i].0.as_str().unicode_len();
            if klen > m {
                m = klen;
            }
        }
        let w: usize = if m >= 20 {
            m
        } else {
            20
        };
        proof {
            assert(w as nat == freq_width(t));
        }
        let mut s = String::new();
        s.append("===============================\n");
        s.append(pad_right_str("Key", w).as_str());
        s.append(" ");
        s.append(pad_left_str("Count", 12).as_str());
        s.append("\n");
        s.append(make_dashes(w).as_str());
        s.append(make_dashes(14).as_str());
        s.append("\n");
        proof {
            lemma_dashes_add(w as nat, 14);
        }
        let ghost header = s@;
        let mut i: usize = 0;
        while i < self.key_freqs.len()
            invariant
                i <= self.key_freqs@.len(),
                t == self.table_view(),
                w as nat == freq_width(t),
                s@ + freq_lines_view(t, w as nat, i as int) == header + freq_lines_view(
                    t,
                    w as nat,
                    0,
                ),
            decreases self.key_freqs@.len() - i,
        {
            s.append("\t");
            s.append(pad_right_str(self.key_freqs[i].0.as_str(), w).as_str());
            s.append(" ");
            s.append(pad_left_str(format_count(self.key_freqs[i].1).as_str(), 12).as_str());
            s.append("\n");
            proof {
                assert(s@ + freq_lines_view(t, w as nat, i + 1) =~= header + freq_lines_view(
                    t,
                    w as nat,
                    0,
                ));
            }
            i += 1;
        }
        s.append("\n\n");
        s.append("Rows with missing keys: ");
        s.append(format_index_list(&self.rows_with_missing_keys).as_str());
        s.append("\n");
        proof {
            assert(s@ =~= freq_report_view(t, self.missing_view()));
        }
        s
    }

    /// The top-combinations report: the `n` most frequent top-level key
    /// combinations, ranked, or a note that there are none.
    pub fn show_top_key_combinations_report(&self, n: usize) -> (r: String)
        ensures
            exists|full: Seq<(Seq<Seq<char>>, usize)>|
                #[trigger] combo_table_ok(full, self.records()) && r@ == combos_report_view(
                    n as nat,
                    self.name_view(),
                    full.take(
                        if n as int <= full.len() {
                            n as int
                        } else {
                            full.len() as int
                        },
                    ),
                ),
    {
        let combos = self.get_top_key_combinations(n);
        let ghost full = choose|full: Seq<(Seq<Seq<char>>, usize)>|
            #[trigger] combo_table_ok(full, self.records()) && combos_view(combos@) == full.take(
                if n as int <= full.len() {
                    n as int
                } else {
                    full.len() as int
                },
            );
        let ghost cv = combos_view(combos@);
        let mut s = String::new();
        s.append("Top ");
        s.append(usize_to_string(n).as_str());
        s.append(" Most Frequent JSON Key combinations in ");
        s.append(self.reader.source_name());
        s.append("\n");
        if combos.len() == 0 {
            s.append("No JSON key combinations found.\n");
            proof {
                assert(s@ =~= combos_report_view(n as nat, self.name_view(), cv));
            }
            return s;
        }
        let ghost header = s@;
        let mut i: usize = 0;
        while i < combos.len()
            invariant
                i <= combos@.len(),
                cv == combos_view(combos@),
                s@ + combo_lines_view(cv, i as int) == header + combo_lines_view(cv, 0),
            decreases combos@.len() - i,
        {
            s.append(usize_to_string(i + 1).as_str());
            s.append(". (");
            s.append(join_comma(&combos[i].0).as_str());
            s.append(") - ");
            s.append(format_count(combos[i].1).as_str());
            s.append(" occurrence");
            if combos[i].1 != 1 {
                s.append("s");
            }
            s.append("\n");
            proof {
                assert(cv[i as int].0 == strings_view(combos@[i as int].0@));
                assert(s@ + combo_lines_view(cv, i + 1) =~= header + combo_lines_view(cv, 0));
            }
            i += 1;
        }
        proof {
            assert(s@ =~= combos_report_view(n as nat, self.name_view(), cv));
        }
        s
    }
}

/// `a + b` dashes are `a` dashes then `b` dashes.
proof fn lemma_dashes_add(a: nat, b: nat)
    ensures
        dashes(a + b) == dashes(a) + dashes(b),
    decreases b,
{
    if b == 0 {
        assert(dashes(a) + dashes(0) =~= dashes(a));
    } else {
        lemma_dashes_add(a, (b - 1) as nat);
        assert(dashes(a + b) =~= dashes(a) + dashes(b));
    }
}

/// What well-formedness guarantees a reader of the handle: the cached
/// Frequency Table tallies the current records exactly and is strictly
/// ranked, the cached key list is the Global Key Set, and the missing list
/// holds exactly the indices of records whose Row Key Set falls short of
/// it.
pub proof fn lemma_wf_facts<R: JsonlReader>(d: &JsonlData<R>)
    requires
        d.wf(),
    ensures
        counts_match(d.table_view(), dataset_paths(d.records())),
        sorted_by(d.table_view(), ranked_leq_fn(lex_lt_fn())),
        forall|x: int, y: int|
            0 <= x < y < d.table_view().len() ==> crate::analysis::ranked_lt(
                lex_lt_fn(),
                #[trigger] d.table_view()[x],
                #[trigger] d.table_view()[y],
            ),
        d.keys_view().to_set() == global_key_set(d.records()),
        forall|i: int|
            0 <= i < d.records().len() ==> (#[trigger] d.missing_view().contains(i as usize)
                <==> row_key_set(d.records()[i]) != global_key_set(d.records())),
{
    crate::analysis::lemma_frequency_table_order(d.table_view(), dataset_paths(d.records()));
}

/// Replacing one record shifts each path's dataset count by exactly the
/// difference between the new and the old record's own path counts: the new
/// record's contribution enters, the old one's leaves, and nothing else
/// moves.
pub proof fn lemma_replace_contribution(rows: Seq<JsonValue>, i: int, v: JsonValue, p: Seq<char>)
    requires
        0 <= i < rows.len(),
    ensures
        dataset_count(rows.update(i, v), p) + row_count(rows[i], p) == dataset_count(rows, p)
            + row_count(v, p),
{
    lemma_replace_contribution_from(rows, i, v, p, 0);
}

proof fn lemma_replace_contribution_from(
    rows: Seq<JsonValue>,
    i: int,
    v: JsonValue,
    p: Seq<char>,
    k: int,
)
    requires
        0 <= i < rows.len(),
        0 <= k <= rows.len(),
    ensures
        k <= i ==> crate::json::dataset_paths_from(rows.update(i, v), k).to_multiset().count(p)
            + row_count(rows[i], p) == crate::json::dataset_paths_from(rows, k).to_multiset().count(
            p,
        ) + row_count(v, p),
        k > i ==> crate::json::dataset_paths_from(rows.update(i, v), k).to_multiset().count(p)
            == crate::json::dataset_paths_from(rows, k).to_multiset().count(p),
    decreases rows.len() - k,
{
    broadcast use vstd::seq_lib::group_to_multiset_ensures;

    let upd = rows.update(i, v);
    if k < rows.len() {
        lemma_replace_contribution_from(rows, i, v, p, k + 1);
        vstd::seq_lib::lemma_multiset_commutative(
            row_paths(rows[k]),
            crate::json::dataset_paths_from(rows, k + 1),
        );
        vstd::seq_lib::lemma_multiset_commutative(
            row_paths(upd[k]),
            crate::json::dataset_paths_from(upd, k + 1),
        );
    }
}

/// Reading without mutation is deterministic: any two results that the read
/// accessors' contracts admit for one and the same handle are equal.
pub proof fn lemma_reads_idempotent<R: JsonlReader>(
    d: &JsonlData<R>,
    t1: Seq<(Seq<char>, usize)>,
    t2: Seq<(Seq<char>, usize)>,
    k1: Seq<Seq<char>>,
    k2: Seq<Seq<char>>,
    m1: Seq<usize>,
    m2: Seq<usize>,
)
    requires
        t1 == d.table_view(),
        t2 == d.table_view(),
        k1 == d.keys_view(),
        k2 == d.keys_view(),
        m1 == d.missing_view(),
        m2 == d.missing_view(),
    ensures
        t1 == t2,
        k1 == k2,
        m1 == m2,
{
}

} // verus!
