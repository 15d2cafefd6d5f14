//! Dataset decoding: delimited and array-of-records text formats, label
//! parsing, and batching.

use vstd::prelude::*;
use vstd::string::StrSliceExecFns;
use vstd::string::StringExecFns;
use crate::config::BATCH_SIZE;
use crate::tokenizer::{Tokenizer, spec_token_ids, spec_padded};

verus! {

/// Why a dataset could not be decoded.
#[derive(Debug)]
pub enum DataError {
    /// The file name carries neither a `csv` nor a `json` extension.
    UnsupportedFormat,
    /// The delimited or structured text itself could not be parsed; holds the
    /// parser's message.
    Parse(String),
    /// A record has no text field.
    MissingText,
    /// A record has no label field.
    MissingLabel,
    /// A record's label is not a non-negative integer.
    BadLabel,
}

// ---------------------------------------------------------------------------
// Decimal label parsing
// ---------------------------------------------------------------------------

/// Whether `c` is a decimal digit.
pub open spec fn is_digit(c: char) -> bool {
    48 <= c as int <= 57
}

/// The value of a decimal digit.
pub open spec fn digit_val(c: char) -> int {
    c as int - 48
}

/// Every character of `s` is a decimal digit.
pub open spec fn all_digits(s: Seq<char>) -> bool {
    forall |i: int| 0 <= i < s.len() ==> is_digit(#[trigger] s[i])
}

/// The number denoted by a digit string, most significant digit first.
pub open spec fn digits_val(s: Seq<char>) -> int
    decreases s.len(),
{
    if s.len() == 0 {
        0
    } else {
        digits_val(s.drop_last()) * 10 + digit_val(s.last())
    }
}

/// What `str::parse::<usize>` accepts: an optional leading plus sign, then at
/// least one digit, denoting a value that fits the machine word.
pub open spec fn spec_parse_usize(s: Seq<char>) -> Option<usize> {
    let ds = if s.len() > 0 && s[0] == '+' {
        s.skip(1)
    } else {
        s
    };
    if ds.len() > 0 && all_digits(ds) && digits_val(ds) <= usize::MAX {
        Some(digits_val(ds) as usize)
    } else {
        None
    }
}

/// A digit string denotes a non-negative number.
proof fn lemma_digits_val_nonneg(s: Seq<char>)
    requires
        all_digits(s),
    ensures
        digits_val(s) >= 0,
    decreases s.len(),
{
    if s.len() > 0 {
        assert(all_digits(s.drop_last()));
        lemma_digits_val_nonneg(s.drop_last());
    }
}

/// Extending a digit string never shrinks its value.
proof fn lemma_digits_val_mono(s: Seq<char>, a: int)
    requires
        all_digits(s),
        0 <= a <= s.len(),
    ensures
        digits_val(s) >= digits_val(s.subrange(0, a)),
    decreases s.len(),
{
    if a < s.len() {
        let d = s.drop_last();
        assert(all_digits(d));
        assert(d.subrange(0, a) =~= s.subrange(0, a));
        lemma_digits_val_mono(d, a);
        lemma_digits_val_nonneg(d);
    } else {
        assert(s.subrange(0, a) =~= s);
    }
}

/// Parses a non-negative decimal integer exactly as the standard parser does.
pub fn parse_usize(s: &str) -> (r: Option<usize>)
    ensures
        r == spec_parse_usize(s@),
{
    let n = s.unicode_len();
    let mut i: usize = 0;
    if n > 0 && s.get_char(0) == '+' {
        i = 1;
    }
    let ghost ds = if s@.len() > 0 && s@[0] == '+' {
        s@.skip(1)
    } else {
        s@
    };
    proof {
        assert(ds =~= s@.skip(i as int));
    }
    if i >= n {
        return None;
    }
    let mut val: usize = 0;
    let mut k = i;
    while k < n
        invariant
            n == s@.len(),
            i <= k <= n,
            i <= 1,
            i < n,
            ds == s@.skip(i as int),
            ds == (if s@.len() > 0 && s@[0] == '+' {
                s@.skip(1)
            } else {
                s@
            }),
            ds.len() == n - i,
            all_digits(ds.subrange(0, k - i)),
            val == digits_val(ds.subrange(0, k - i)),
        decreases n - k,
    {
        let c = s.get_char(k);
        let u = c as u32;
        proof {
            assert(ds[k - i] == c);
        }
        if u < 48 || u > 57 {
            proof {
                assert(!is_digit(ds[k - i]));
            }
            return None;
        }
        let d = u - 48;
        proof {
            assert(ds.subrange(0, k - i + 1).drop_last() =~= ds.subrange(0, k - i));
            assert(ds.subrange(0, k - i + 1).last() == c);
        }
        let wide: u128 = (val as u128) * 10 + (d as u128);
        if wide > usize::MAX as u128 {
            proof {
                if all_digits(ds) {
                    lemma_digits_val_mono(ds, k - i + 1);
                }
            }
            return None;
        }
        val = wide as usize;
        k += 1;
    }
    proof {
        assert(ds.subrange(0, n - i) =~= ds);
        lemma_digits_val_nonneg(ds);
    }
    Some(val)
}

// ---------------------------------------------------------------------------
// File-name extensions
// ---------------------------------------------------------------------------

/// Index of the last path separator, or -1.
pub open spec fn last_slash(s: Seq<char>) -> int
    decreases s.len(),
{
    if s.len() == 0 {
        -1
    } else if s.last() == '/' {
        s.len() - 1
    } else {
        last_slash(s.drop_last())
    }
}

/// Index of the last dot, or -1.
pub open spec fn last_dot(s: Seq<char>) -> int
    decreases s.len(),
{
    if s.len() == 0 {
        -1
    } else if s.last() == '.' {
        s.len() - 1
    } else {
        last_dot(s.drop_last())
    }
}

/// The extension of the path's file name: the text after the last dot, absent
/// when the file name has no dot beyond its first character.
pub open spec fn spec_extension(path: Seq<char>) -> Option<Seq<char>> {
    if last_dot(path) > last_slash(path) + 1 {
        Some(path.skip(last_dot(path) + 1))
    } else {
        None
    }
}

/// The extension of `path`'s file name, if any.
pub fn extension_of(path: &str) -> (r: Option<String>)
    ensures
        r matches Some(e) ==> spec_extension(path@) == Some(e@),
        r is None ==> spec_extension(path@) is None,
{
    let n = path.unicode_len();
    let mut sl: Option<usize> = None;
    let mut dt: Option<usize> = None;
    let mut k: usize = 0;
    proof {
        assert(path@.subrange(0, 0) =~= Seq::<char>::empty());
    }
    while k < n
        invariant
            n == path@.len(),
            k <= n,
            sl matches Some(v) ==> v < k && v == last_slash(path@.subrange(0, k as int)),
            sl is None ==> last_slash(path@.subrange(0, k as int)) == -1,
            dt matches Some(v) ==> v < k && v == last_dot(path@.subrange(0, k as int)),
            dt is None ==> last_dot(path@.subrange(0, k as int)) == -1,
        decreases n - k,
    {
        let c = path.get_char(k);
        proof {
            assert(path@.subrange(0, k + 1).drop_last() =~= path@.subrange(0, k as int));
            assert(path@.subrange(0, k + 1).last() == c);
        }
        if c == '/' {
            sl = Some(k);
        } else if c == '.' {
            dt = Some(k);
        }
        k += 1;
    }
    proof {
        assert(path@.subrange(0, n as int) =~= path@);
    }
    let take = match (dt, sl) {
        (Some(d), Some(v)) => if d > v && d - v >= 2 { Some(d) } else { None },
        (Some(d), None) => if d >= 1 { Some(d) } else { None },
        (None, _) => None,
    };
    match take {
        Some(d) => Some(String::from_str(path.substring_char(d + 1, n))),
        None => None,
    }
}

// ---------------------------------------------------------------------------
// Records
// ---------------------------------------------------------------------------

/// The fields of raw records, as character sequences.
pub open spec fn fields_view(records: Seq<Vec<String>>) -> Seq<Seq<Seq<char>>> {
    Seq::new(
        records.len(),
        |i: int| Seq::new(records[i]@.len(), |j: int| records[i]@[j]@),
    )
}

/// A raw row can be used when it has a text field, a label field, and the
/// label denotes a non-negative integer.
pub open spec fn row_ok(row: Seq<Seq<char>>) -> bool {
    row.len() >= 2 && spec_parse_usize(row[1]) is Some
}

/// The error reported for an unusable raw row.
pub open spec fn row_error(row: Seq<Seq<char>>) -> DataError {
    if row.len() == 0 {
        DataError::MissingText
    } else if row.len() == 1 {
        DataError::MissingLabel
    } else {
        DataError::BadLabel
    }
}

/// Every raw row is usable.
pub open spec fn all_rows_ok(rows: Seq<Seq<Seq<char>>>) -> bool {
    forall |i: int| 0 <= i < rows.len() ==> row_ok(#[trigger] rows[i])
}

/// The decoded dataset matches the raw rows: one padded tokenization of the
/// text field and one parsed label per row.
pub open spec fn dataset_matches_rows(
    vocab: Map<Seq<char>, usize>,
    max: nat,
    rows: Seq<Seq<Seq<char>>>,
    pair: (Vec<Vec<usize>>, Vec<usize>),
) -> bool {
    &&& pair.0@.len() == rows.len()
    &&& pair.1@.len() == rows.len()
    &&& forall |i: int| 0 <= i < rows.len() ==> (#[trigger] pair.0@[i])@ == spec_padded(
        vocab,
        max,
        spec_token_ids(vocab, rows[i][0]),
    )
    &&& forall |i: int| 0 <= i < rows.len() ==> Some(#[trigger] pair.1@[i]) == spec_parse_usize(
        rows[i][1],
    )
}

/// `e` is the error of the first unusable row.
pub open spec fn first_row_failure(rows: Seq<Seq<Seq<char>>>, e: DataError) -> bool {
    exists |i: int| 0 <= i < rows.len() && !row_ok(#[trigger] rows[i]) && e == row_error(rows[i])
        && (forall |p: int| 0 <= p < i ==> row_ok(#[trigger] rows[p]))
}

/// Loads token sequences from a tokenizer and raw records.
pub struct DataLoader<'a> {
    pub tokenizer: &'a Tokenizer,
}

impl<'a> DataLoader<'a> {
    /// A loader around `tokenizer`.
    pub fn new(tokenizer: &'a Tokenizer) -> (r: Self)
        ensures
            r.tokenizer == tokenizer,
    {
        DataLoader { tokenizer }
    }

    /// Tokenizes raw (text, label) records into padded id sequences and label
    /// ids.  Fails exactly on the first record that lacks a field or whose
    /// label is not a non-negative integer.
    pub fn records_to_dataset(&self, records: &Vec<Vec<String>>) -> (r: Result<
        (Vec<Vec<usize>>, Vec<usize>),
        DataError,
    >)
        requires
            self.tokenizer.wf(),
        ensures
            r is Ok <==> all_rows_ok(fields_view(records@)),
            (match r {
                Ok(pair) => dataset_matches_rows(
                    self.tokenizer.vocab@,
                    self.tokenizer.max_seq_length as nat,
                    fields_view(records@),
                    pair,
                ),
                Err(e) => first_row_failure(fields_view(records@), e),
            }),
    {
        let ghost rows = fields_view(records@);
        let mut inputs: Vec<Vec<usize>> = Vec::new();
        let mut labels: Vec<usize> = Vec::new();
        let n = records.len();
        let mut i: usize = 0;
        while i < n
            invariant
                self.tokenizer.wf(),
                n == records@.len(),
                rows == fields_view(records@),
                rows.len() == n,
                i <= n,
                inputs@.len() == i,
                labels@.len() == i,
                forall |p: int| 0 <= p < i ==> row_ok(#[trigger] rows[p]),
                forall |p: int| 0 <= p < i ==> (#[trigger] inputs@[p])@ == spec_padded(
                    self.tokenizer.vocab@,
                    self.tokenizer.max_seq_length as nat,
                    spec_token_ids(self.tokenizer.vocab@, rows[p][0]),
                ),
                forall |p: int| 0 <= p < i ==> Some(#[trigger] labels@[p]) == spec_parse_usize(
                    rows[p][1],
                ),
            decreases n - i,
        {
            let rec = &records[i];
            proof {
                assert(rows[i as int].len() == rec@.len());
            }
            if rec.len() == 0 {
                proof {
                    assert(!row_ok(rows[i as int]));
                }
                return Err(DataError::MissingText);
            }
            if rec.len() == 1 {
                proof {
                    assert(!row_ok(rows[i as int]));
                }
                return Err(DataError::MissingLabel);
            }
            proof {
                assert(rows[i as int][0] == rec@[0]@);
                assert(rows[i as int][1] == rec@[1]@);
            }
            let label = match parse_usize(rec[1].as_str()) {
                Some(v) => v,
                None => {
                    proof {
                        assert(!row_ok(rows[i as int]));
                    }
                    return Err(DataError::BadLabel);
                },
            };
            let ids = self.tokenizer.tokenize(rec[0].as_str());
            let padded = self.tokenizer.pad_sequence(ids);
            inputs.push(padded);
            labels.push(label);
            i += 1;
        }
        Ok((inputs, labels))
    }

    /// Splits the examples into batches of at most `BATCH_SIZE`, pairing the
    /// inputs' chunks with the labels' chunks as long as both last.
    pub fn create_batches(&self, inputs: Vec<Vec<usize>>, labels: Vec<usize>) -> (r: Vec<
        (Vec<Vec<usize>>, Vec<usize>),
    >)
        ensures
            r@.len() == spec_num_batches(inputs@.len() as int, labels@.len() as int),
            forall |b: int| 0 <= b < r@.len() ==> (#[trigger] r@[b]).0@ == inputs@.subrange(
                b * (BATCH_SIZE as int),
                spec_chunk_end(inputs@.len() as int, b),
            ) && r@[b].1@ == labels@.subrange(
                b * (BATCH_SIZE as int),
                spec_chunk_end(labels@.len() as int, b),
            ),
    {
        let ni = inputs.len();
        let nl = labels.len();
        let nbi = ni / BATCH_SIZE + (if ni % BATCH_SIZE != 0 { 1 } else { 0 });
        let nbl = nl / BATCH_SIZE + (if nl % BATCH_SIZE != 0 { 1 } else { 0 });
        let nb = if nbi <= nbl { nbi } else { nbl };
        let ghost gin = inputs@;
        let ghost glab = labels@;
        let mut in_rest = inputs;
        let mut lab_rest = labels;
        let mut out: Vec<(Vec<Vec<usize>>, Vec<usize>)> = Vec::new();
        let mut b: usize = 0;
        let mut done_i: usize = 0;
        let mut done_l: usize = 0;
        proof {
            assert(in_rest@ =~= gin.skip(0));
            assert(lab_rest@ =~= glab.skip(0));
        }
        while b < nb
            invariant
                ni == gin.len(),
                nl == glab.len(),
                nb == spec_num_batches(ni as int, nl as int),
                b <= nb,
                done_i == if b * (BATCH_SIZE as int) <= ni { b * (BATCH_SIZE as int) } else { ni as int },
                done_l == if b * (BATCH_SIZE as int) <= nl { b * (BATCH_SIZE as int) } else { nl as int },
                in_rest@ == gin.skip(done_i as int),
                lab_rest@ == glab.skip(done_l as int),
                out@.len() == b,
                forall |q: int| 0 <= q < b ==> (#[trigger] out@[q]).0@ == gin.subrange(
                    q * (BATCH_SIZE as int),
                    spec_chunk_end(ni as int, q),
                ) && out@[q].1@ == glab.subrange(
                    q * (BATCH_SIZE as int),
                    spec_chunk_end(nl as int, q),
                ),
            decreases nb - b,
        {
            proof {
                lemma_batch_bounds(ni as int, nl as int, b as int);
            }
            let take_i = if ni - done_i >= BATCH_SIZE { BATCH_SIZE } else { ni - done_i };
            let take_l = if nl - done_l >= BATCH_SIZE { BATCH_SIZE } else { nl - done_l };
            let mut chunk_i: Vec<Vec<usize>> = Vec::new();
            let mut c: usize = 0;
            while c < take_i
                invariant
                    c <= take_i,
                    done_i + take_i <= ni,
                    ni == gin.len(),
                    in_rest@ == gin.skip(done_i + c),
                    chunk_i@ == gin.subrange(done_i as int, done_i + c),
                decreases take_i - c,
            {
                let row = in_rest.remove(0);
                chunk_i.push(row);
                proof {
                    assert(in_rest@ =~= gin.skip(done_i + c + 1));
                    assert(chunk_i@ =~= gin.subrange(done_i as int, done_i + c + 1));
                }
                c += 1;
            }
            let mut chunk_l: Vec<usize> = Vec::new();
            let mut c2: usize = 0;
            while c2 < take_l
                invariant
                    c2 <= take_l,
                    done_l + take_l <= nl,
                    nl == glab.len(),
                    lab_rest@ == glab.skip(done_l + c2),
                    chunk_l@ == glab.subrange(done_l as int, done_l + c2),
                decreases take_l - c2,
            {
                let v = lab_rest.remove(0);
                chunk_l.push(v);
                proof {
                    assert(lab_rest@ =~= glab.skip(done_l + c2 + 1));
                    assert(chunk_l@ =~= glab.subrange(done_l as int, done_l + c2 + 1));
                }
                c2 += 1;
            }
            out.push((chunk_i, chunk_l));
            done_i += take_i;
            done_l += take_l;
            b += 1;
        }
        out
    }
}

// ---------------------------------------------------------------------------
// Outside parsers
// ---------------------------------------------------------------------------

#[verifier::external_type_specification]
#[verifier::external_body]
pub struct ExJsonValue(serde_json::Value);

/// The data rows a delimited-text parse of `s` yields (the first row taken as
/// headers), each a sequence of fields; `None` when the text is rejected.
pub uninterp spec fn csv_rows_of(s: Seq<char>) -> Option<Seq<Seq<Seq<char>>>>;

/// Relies on csv::Reader::from_reader and its record iterator: all data rows
/// of the text, fields as strings.  The parse is a function of the text
/// alone; a rejected text reports the parser's message.
#[verifier::external_body]
fn csv_parse_rows(content: &str) -> (r: Result<Vec<Vec<String>>, String>)
    ensures
        r matches Ok(rows) ==> csv_rows_of(content@) == Some(fields_view(rows@)),
        r is Err ==> csv_rows_of(content@) is None,
{
    let mut rdr = csv::Reader::from_reader(content.as_bytes());
    let mut out = Vec::new();
    for rec in rdr.records() {
        match rec {
            Ok(row) => out.push(row.iter().map(|f| f.to_string()).collect()),
            Err(e) => return Err(e.to_string()),
        }
    }
    Ok(out)
}

/// Abstract shape of one node of a parsed structured-text document, as far as
/// the decoding logic observes it: text, a number (kept as the non-negative
/// 64-bit value it denotes, if any), an array, an object, or anything else.
pub enum JsonNode {
    Text(Seq<char>),
    Number(Option<u64>),
    Array(Seq<JsonNode>),
    Object(Map<Seq<char>, JsonNode>),
    Other,
}

/// The document a structured-text parse of `s` yields; `None` when the text
/// is rejected.
pub uninterp spec fn json_of(s: Seq<char>) -> Option<JsonNode>;

/// The node a parsed value denotes.
pub uninterp spec fn json_view(v: serde_json::Value) -> JsonNode;

/// Relies on serde_json::from_str::<Value>: the parse is a function of the
/// text alone; a rejected text reports the parser's message.
#[verifier::external_body]
fn json_parse(content: &str) -> (r: Result<serde_json::Value, String>)
    ensures
        r matches Ok(v) ==> json_of(content@) == Some(json_view(v)),
        r is Err ==> json_of(content@) is None,
{
    match serde_json::from_str::<serde_json::Value>(content) {
        Ok(v) => Ok(v),
        Err(e) => Err(e.to_string()),
    }
}

/// Relies on serde_json::Value::as_array: the elements, exactly when the
/// value is an array.
#[verifier::external_body]
fn json_as_array(v: &serde_json::Value) -> (r: Option<&Vec<serde_json::Value>>)
    ensures
        r matches Some(arr) ==> json_view(*v) matches JsonNode::Array(elems) && arr@.len()
            == elems.len() && (forall |i: int| 0 <= i < arr@.len() ==> json_view(
            #[trigger] arr@[i],
        ) == elems[i]),
        r is None ==> !(json_view(*v) is Array),
{
    v.as_array()
}

/// Relies on serde_json::Value::get: the member named `key`, exactly when the
/// value is an object with such a member.
#[verifier::external_body]
fn json_get<'a>(v: &'a serde_json::Value, key: &str) -> (r: Option<&'a serde_json::Value>)
    ensures
        r matches Some(w) ==> json_view(*v) matches JsonNode::Object(m) && m.contains_key(key@)
            && json_view(*w) == m[key@],
        r is None ==> (match json_view(*v) {
            JsonNode::Object(m) => !m.contains_key(key@),
            _ => true,
        }),
{
    v.get(key)
}

/// Relies on serde_json::Value::as_str: the text, exactly when the value is a
/// string.
#[verifier::external_body]
fn json_as_string(v: &serde_json::Value) -> (r: Option<String>)
    ensures
        r matches Some(t) ==> json_view(*v) == JsonNode::Text(t@),
        r is None ==> !(json_view(*v) is Text),
{
    match v.as_str() {
        Some(t) => Some(t.to_string()),
        None => None,
    }
}

/// Relies on serde_json::Value::as_u64: the denoted number, exactly when the
/// value is a non-negative integer that fits 64 bits.
#[verifier::external_body]
fn json_as_u64(v: &serde_json::Value) -> (r: Option<u64>)
    ensures
        r == (match json_view(*v) {
            JsonNode::Number(o) => o,
            _ => None::<u64>,
        }),
{
    v.as_u64()
}

/// The text field of a record node: the `text` member, when the node is an
/// object whose `text` member is a string.
pub open spec fn item_text(n: JsonNode) -> Option<Seq<char>> {
    match n {
        JsonNode::Object(m) => if m.contains_key("text"@) {
            match m["text"@] {
                JsonNode::Text(t) => Some(t),
                _ => None,
            }
        } else {
            None
        },
        _ => None,
    }
}

/// The label member of a record node, when the node is an object with one.
pub open spec fn item_label_field(n: JsonNode) -> Option<JsonNode> {
    match n {
        JsonNode::Object(m) => if m.contains_key("label"@) {
            Some(m["label"@])
        } else {
            None
        },
        _ => None,
    }
}

/// The label of a record node: its label member's value as a non-negative
/// 64-bit integer.
pub open spec fn item_label(n: JsonNode) -> Option<u64> {
    match item_label_field(n) {
        Some(JsonNode::Number(o)) => o,
        _ => None,
    }
}

/// A record node can be used when it has a text and a usable label.
pub open spec fn json_item_ok(n: JsonNode) -> bool {
    item_text(n) is Some && item_label_field(n) is Some && item_label(n) is Some
}

/// The error reported for an unusable record node.
pub open spec fn json_item_error(n: JsonNode) -> DataError {
    if item_text(n) is None {
        DataError::MissingText
    } else if item_label_field(n) is None {
        DataError::MissingLabel
    } else {
        DataError::BadLabel
    }
}

/// Everything the delimited-text loader promises, tied to the named parse of
/// the content: success exactly when the text parses and every row is
/// usable, the decoded pair matching the rows; otherwise the first row's
/// error, or the parser's rejection.
pub open spec fn csv_load_post(
    vocab: Map<Seq<char>, usize>,
    max: nat,
    content: Seq<char>,
    r: Result<(Vec<Vec<usize>>, Vec<usize>), DataError>,
) -> bool {
    &&& (r is Ok <==> (match csv_rows_of(content) {
        Some(rows) => all_rows_ok(rows),
        None => false,
    }))
    &&& (match (csv_rows_of(content), r) {
        (Some(rows), Ok(pair)) => dataset_matches_rows(vocab, max, rows, pair),
        (Some(rows), Err(e)) => first_row_failure(rows, e),
        (None, Err(e)) => e is Parse,
        (None, Ok(_)) => false,
    })
}

/// Every record node is usable.
pub open spec fn all_items_ok(items: Seq<JsonNode>) -> bool {
    forall |i: int| 0 <= i < items.len() ==> json_item_ok(#[trigger] items[i])
}

/// The decoded dataset matches the record nodes: one padded tokenization of
/// the text field and one label per record.
pub open spec fn json_dataset_matches(
    vocab: Map<Seq<char>, usize>,
    max: nat,
    items: Seq<JsonNode>,
    pair: (Vec<Vec<usize>>, Vec<usize>),
) -> bool {
    &&& pair.0@.len() == items.len()
    &&& pair.1@.len() == items.len()
    &&& (forall |i: int| 0 <= i < items.len() ==> (#[trigger] pair.0@[i])@ == spec_padded(
        vocab,
        max,
        spec_token_ids(vocab, item_text(items[i]).unwrap()),
    ))
    &&& (forall |i: int| 0 <= i < items.len() ==> item_label(#[trigger] items[i]).unwrap() as int
        <= usize::MAX as int ==> pair.1@[i] == item_label(items[i]).unwrap() as usize)
}

/// `e` is the error of the first unusable record node.
pub open spec fn first_item_failure(items: Seq<JsonNode>, e: DataError) -> bool {
    exists |i: int| 0 <= i < items.len() && !json_item_ok(#[trigger] items[i]) && e
        == json_item_error(items[i]) && (forall |p: int| 0 <= p < i ==> json_item_ok(
        #[trigger] items[p],
    ))
}

/// Everything the structured-text loader promises, tied to the named parse of
/// the content: a rejected text reports the parser's error; a document that
/// is not an array decodes to the empty dataset; an array decodes
/// record-by-record, succeeding exactly when every record is usable.
pub open spec fn json_load_post(
    vocab: Map<Seq<char>, usize>,
    max: nat,
    content: Seq<char>,
    r: Result<(Vec<Vec<usize>>, Vec<usize>), DataError>,
) -> bool {
    match (json_of(content), r) {
        (None, Err(e)) => e is Parse,
        (None, Ok(_)) => false,
        (Some(doc), res) => match doc {
            JsonNode::Array(items) => {
                &&& (res is Ok <==> all_items_ok(items))
                &&& (match res {
                    Ok(pair) => json_dataset_matches(vocab, max, items, pair),
                    Err(e) => first_item_failure(items, e),
                })
            },
            _ => res matches Ok(pair) && pair.0@.len() == 0 && pair.1@.len() == 0,
        },
    }
}

impl<'a> DataLoader<'a> {
    /// Decodes delimited text: one example per data row, text first, label
    /// second, with the first row taken as headers.
    fn load_csv(&self, content: &str) -> (r: Result<(Vec<Vec<usize>>, Vec<usize>), DataError>)
        requires
            self.tokenizer.wf(),
        ensures
            csv_load_post(
                self.tokenizer.vocab@,
                self.tokenizer.max_seq_length as nat,
                content@,
                r,
            ),
    {
        let records = match csv_parse_rows(content) {
            Ok(rows) => rows,
            Err(m) => {
                return Err(DataError::Parse(m));
            },
        };
        self.records_to_dataset(&records)
    }

    /// Decodes an array of records: each element an object with a `text`
    /// string and a non-negative integer `label`.  A document that is not an
    /// array yields an empty dataset.
    fn load_json(&self, content: &str) -> (r: Result<(Vec<Vec<usize>>, Vec<usize>), DataError>)
        requires
            self.tokenizer.wf(),
        ensures
            json_load_post(
                self.tokenizer.vocab@,
                self.tokenizer.max_seq_length as nat,
                content@,
                r,
            ),
    {
        let data = match json_parse(content) {
            Ok(v) => v,
            Err(m) => {
                return Err(DataError::Parse(m));
            },
        };
        let ghost doc = json_view(data);
        let mut inputs: Vec<Vec<usize>> = Vec::new();
        let mut labels: Vec<usize> = Vec::new();
        match json_as_array(&data) {
            None => Ok((inputs, labels)),
            Some(arr) => {
                let ghost items = doc->Array_0;
                let n = arr.len();
                let mut i: usize = 0;
                while i < n
                    invariant
                        self.tokenizer.wf(),
                        n == arr@.len(),
                        json_of(content@) == Some(doc),
                        doc matches JsonNode::Array(elems) && elems == items,
                        items.len() == n,
                        forall |q: int| 0 <= q < n ==> json_view(#[trigger] arr@[q]) == items[q],
                        i <= n,
                        inputs@.len() == i,
                        labels@.len() == i,
                        forall |q: int| 0 <= q < i ==> json_item_ok(#[trigger] items[q]),
                        forall |q: int| 0 <= q < i ==> (#[trigger] inputs@[q])@ == spec_padded(
                            self.tokenizer.vocab@,
                            self.tokenizer.max_seq_length as nat,
                            spec_token_ids(self.tokenizer.vocab@, item_text(items[q]).unwrap()),
                        ),
                        forall |q: int| 0 <= q < i ==> item_label(#[trigger] items[q]).unwrap()
                            as int <= usize::MAX as int ==> labels@[q] == item_label(
                            items[q],
                        ).unwrap() as usize,
                    decreases n - i,
                {
                    let item = &arr[i];
                    proof {
                        assert(json_view(*item) == items[i as int]);
                    }
                    let text = match json_get(item, "text") {
                        Some(v) => match json_as_string(v) {
                            Some(t) => t,
                            None => {
                                proof {
                                    assert(item_text(items[i as int]) is None);
                                    assert(!json_item_ok(items[i as int]));
                                    assert(first_item_failure(items, DataError::MissingText));
                                    assert(!all_items_ok(items));
                                }
                                return Err(DataError::MissingText);
                            },
                        },
                        None => {
                            proof {
                                assert(item_text(items[i as int]) is None);
                                assert(!json_item_ok(items[i as int]));
                                assert(first_item_failure(items, DataError::MissingText));
                                assert(!all_items_ok(items));
                            }
                            return Err(DataError::MissingText);
                        },
                    };
                    let label_value = match json_get(item, "label") {
                        Some(v) => v,
                        None => {
                            proof {
                                assert(item_label_field(items[i as int]) is None);
                                assert(item_text(items[i as int]) is Some);
                                assert(!json_item_ok(items[i as int]));
                                assert(first_item_failure(items, DataError::MissingLabel));
                                assert(!all_items_ok(items));
                            }
                            return Err(DataError::MissingLabel);
                        },
                    };
                    let label = match json_as_u64(label_value) {
                        Some(u) => u,
                        None => {
                            proof {
                                assert(item_label(items[i as int]) is None);
                                assert(item_text(items[i as int]) is Some);
                                assert(item_label_field(items[i as int]) is Some);
                                assert(!json_item_ok(items[i as int]));
                                assert(json_item_error(items[i as int]) == DataError::BadLabel);
                                assert(first_item_failure(items, DataError::BadLabel));
                                assert(!all_items_ok(items));
                            }
                            return Err(DataError::BadLabel);
                        },
                    };
                    proof {
                        assert(item_text(items[i as int]) == Some(text@));
                        assert(item_label(items[i as int]) == Some(label));
                    }
                    let ids = self.tokenizer.tokenize(text.as_str());
                    let padded = self.tokenizer.pad_sequence(ids);
                    inputs.push(padded);
                    labels.push(#[verifier::truncate] (label as usize));
                    i += 1;
                }
                proof {
                    assert(all_items_ok(items));
                    assert(json_dataset_matches(
                        self.tokenizer.vocab@,
                        self.tokenizer.max_seq_length as nat,
                        items,
                        (inputs, labels),
                    ));
                }
                Ok((inputs, labels))
            },
        }
    }

    /// Decodes the dataset text according to the file name's extension:
    /// delimited rows for `csv`, an array of records for `json`, and an
    /// unsupported-format error for anything else.
    pub fn load_dataset(&self, file_path: &str, content: &str) -> (r: Result<
        (Vec<Vec<usize>>, Vec<usize>),
        DataError,
    >)
        requires
            self.tokenizer.wf(),
        ensures
            (r matches Err(e) && e == DataError::UnsupportedFormat) <==> (spec_extension(
                file_path@,
            ) != Some("csv"@) && spec_extension(file_path@) != Some("json"@)),
            spec_extension(file_path@) == Some("csv"@) ==> csv_load_post(
                self.tokenizer.vocab@,
                self.tokenizer.max_seq_length as nat,
                content@,
                r,
            ),
            spec_extension(file_path@) == Some("json"@) ==> json_load_post(
                self.tokenizer.vocab@,
                self.tokenizer.max_seq_length as nat,
                content@,
                r,
            ),
    {
        let ext = extension_of(file_path);
        match ext {
            Some(e) => {
                if e == String::from_str("csv") {
                    let out = self.load_csv(content);
                    proof {
                        match out {
                            Err(ref err) => {
                                match csv_rows_of(content@) {
                                    Some(rows) => {
                                        let i = choose |i: int| 0 <= i < rows.len() && !row_ok(
                                            #[trigger] rows[i],
                                        ) && *err == row_error(rows[i]) && (forall |p: int|
                                            0 <= p < i ==> row_ok(#[trigger] rows[p]));
                                        assert(*err != DataError::UnsupportedFormat);
                                    },
                                    None => {
                                        assert(*err is Parse);
                                    },
                                }
                            },
                            Ok(_) => {},
                        }
                    }
                    proof {
                        reveal_strlit("csv");
                        reveal_strlit("json");
                        assert("csv"@.len() != "json"@.len());
                        assert(spec_extension(file_path@) != Some("json"@));
                    }
                    out
                } else if e == String::from_str("json") {
                    let out = self.load_json(content);
                    proof {
                        match out {
                            Err(ref err) => {
                                match json_of(content@) {
                                    Some(doc) => {
                                        match doc {
                                            JsonNode::Array(items) => {
                                                let i = choose |i: int| 0 <= i < items.len()
                                                    && !json_item_ok(#[trigger] items[i]) && *err
                                                    == json_item_error(items[i]) && (forall |
                                                    p: int,
                                                |
                                                    0 <= p < i ==> json_item_ok(
                                                        #[trigger] items[p],
                                                    ));
                                                assert(err != DataError::UnsupportedFormat);
                                            },
                                            _ => {
                                                assert(false);
                                            },
                                        }
                                    },
                                    None => {
                                        assert(*err is Parse);
                                    },
                                }
                            },
                            Ok(_) => {},
                        }
                    }
                    out
                } else {
                    Err(DataError::UnsupportedFormat)
                }
            },
            None => Err(DataError::UnsupportedFormat),
        }
    }
}

/// Chunks of `BATCH_SIZE` needed to hold `n` items.
pub open spec fn spec_chunk_count(n: int) -> int {
    if n % (BATCH_SIZE as int) == 0 {
        n / (BATCH_SIZE as int)
    } else {
        n / (BATCH_SIZE as int) + 1
    }
}

/// Batches produced when inputs and labels are chunked and paired.
pub open spec fn spec_num_batches(ni: int, nl: int) -> int {
    if spec_chunk_count(ni) <= spec_chunk_count(nl) {
        spec_chunk_count(ni)
    } else {
        spec_chunk_count(nl)
    }
}

/// Where chunk `b` of `n` items ends.
pub open spec fn spec_chunk_end(n: int, b: int) -> int {
    if (b + 1) * (BATCH_SIZE as int) <= n {
        (b + 1) * (BATCH_SIZE as int)
    } else {
        n
    }
}

/// Within the batch range, each batch start lies inside the data.
proof fn lemma_batch_bounds(ni: int, nl: int, b: int)
    requires
        ni >= 0,
        nl >= 0,
        0 <= b < spec_num_batches(ni, nl),
    ensures
        b * (BATCH_SIZE as int) < ni,
        b * (BATCH_SIZE as int) < nl,
        spec_chunk_end(ni, b) <= ni,
        spec_chunk_end(nl, b) <= nl,
        spec_chunk_end(ni, b) - b * (BATCH_SIZE as int) == if ni - b * (BATCH_SIZE as int)
            >= (BATCH_SIZE as int) { BATCH_SIZE as int } else { ni - b * (BATCH_SIZE as int) },
        spec_chunk_end(nl, b) - b * (BATCH_SIZE as int) == if nl - b * (BATCH_SIZE as int)
            >= (BATCH_SIZE as int) { BATCH_SIZE as int } else { nl - b * (BATCH_SIZE as int) },
{
    let bs = BATCH_SIZE as int;
    assert(b < spec_chunk_count(ni) && b < spec_chunk_count(nl));
    assert(b * bs < ni) by (nonlinear_arith)
        requires
            bs == 32,
            ni >= 0,
            0 <= b,
            b < (if ni % bs == 0 { ni / bs } else { ni / bs + 1 }),
    {
    }
    assert(b * bs < nl) by (nonlinear_arith)
        requires
            bs == 32,
            nl >= 0,
            0 <= b,
            b < (if nl % bs == 0 { nl / bs } else { nl / bs + 1 }),
    {
    }
}

} // verus!
