use vstd::prelude::*;
use vstd::string::*;

verus! {

/// The column of a descriptor record that holds the entity-encoded title.
pub const TITLE_FIELD: usize = 0;

/// The column of a descriptor record that holds the zero-based position.
pub const POSITION_FIELD: usize = 7;

/// One playlist membership: a decoded title and a position.
pub struct Descriptor {
    pub title: String,
    pub position: usize,
}

/// Why a descriptor record could not be read.
#[derive(Debug, PartialEq, Eq, Clone, Copy)]
pub enum DescriptorError {
    /// The tabular text could not be parsed.
    Malformed,
    /// The text holds no data record.
    NoRecord,
    /// The record has too few fields.
    MissingField,
    /// The title field holds an invalid HTML entity.
    BadTitle,
    /// The position field is not a non-negative integer.
    BadPosition,
}

/// The HTML-entity decoding of a text, `None` where it holds an invalid entity.
pub uninterp spec fn html_decoded(s: Seq<char>) -> Option<Seq<char>>;

/// The fields of the first data record (the header row excluded) of a
/// comma-separated text: `None` where the text cannot be parsed,
/// `Some(None)` where it holds no data record.
pub uninterp spec fn csv_first_record(data: Seq<u8>) -> Option<Option<Seq<Seq<char>>>>;

pub open spec fn is_digit(c: char) -> bool {
    '0' <= c <= '9'
}

pub open spec fn digits_value(s: Seq<char>) -> int
    decreases s.len(),
{
    if s.len() == 0 {
        0
    } else {
        digits_value(s.drop_last()) * 10 + (s.last() as int - '0' as int)
    }
}

/// The digits of a position text: an optional `+` sign is dropped.
pub open spec fn unsigned_body(s: Seq<char>) -> Seq<char> {
    if s.len() > 0 && s[0] == '+' {
        s.drop_first()
    } else {
        s
    }
}

/// The number a position text denotes: an optional `+` followed by one or
/// more decimal digits, and at most `usize::MAX`.
pub open spec fn position_value(s: Seq<char>) -> Option<usize> {
    let b = unsigned_body(s);
    if b.len() > 0 && (forall|i: int| 0 <= i < b.len() ==> is_digit(#[trigger] b[i]))
        && digits_value(b) <= usize::MAX {
        Some(digits_value(b) as usize)
    } else {
        None
    }
}

proof fn lemma_digits_value_nonneg(s: Seq<char>)
    requires
        forall|i: int| 0 <= i < s.len() ==> is_digit(#[trigger] s[i]),
    ensures
        digits_value(s) >= 0,
    decreases s.len(),
{
    if s.len() > 0 {
        lemma_digits_value_nonneg(s.drop_last());
    }
}

/// A value only grows as digits are appended.
proof fn lemma_digits_value_monotone(s: Seq<char>, k: int)
    requires
        0 <= k <= s.len(),
        forall|i: int| 0 <= i < s.len() ==> is_digit(#[trigger] s[i]),
    ensures
        digits_value(s.take(k)) <= digits_value(s),
    decreases s.len() - k,
{
    if k < s.len() {
        let t = s.take(k + 1);
        assert(t.drop_last() =~= s.take(k));
        lemma_digits_value_nonneg(s.take(k));
        lemma_digits_value_monotone(s, k + 1);
    } else {
        assert(s.take(k) =~= s);
    }
}

/// Parses a position: an optional `+` and decimal digits that fit a `usize`.
pub fn parse_position(s: &str) -> (r: Option<usize>)
    ensures
        r == position_value(s@),
{
    let n = s.unicode_len();
    let mut i: usize = 0;
    if n > 0 && s.get_char(0) == '+' {
        i = 1;
    }
    let start = i;
    let ghost b = unsigned_body(s@);
    assert(b =~= s@.skip(start as int));
    if i == n {
        return None;
    }
    let mut value: usize = 0;
    while i < n
        invariant
            start <= i <= n,
            n == s@.len(),
            b == s@.skip(start as int),
            b == unsigned_body(s@),
            forall|j: int| 0 <= j < i - start ==> is_digit(#[trigger] b[j]),
            value == digits_value(b.take(i - start)),
        decreases n - i,
    {
        let c = s.get_char(i);
        if !('0' <= c && c <= '9') {
            assert(!is_digit(b[i - start]));
            assert(!(forall|j: int| 0 <= j < b.len() ==> is_digit(#[trigger] b[j])));
            assert(position_value(s@) is None);
            return None;
        }
        let d = (c as u32 - '0' as u32) as usize;
        assert(b.take(i - start + 1).drop_last() =~= b.take(i - start));
        assert(b.take(i - start + 1).last() == c);
        let ghost next = digits_value(b.take(i - start + 1));
        assert(next == value * 10 + d);
        if value > (usize::MAX - d) / 10 {
            proof {
                assert(value * 10 + d > usize::MAX) by (nonlinear_arith)
                    requires value > (usize::MAX - d) / 10, d <= 9;
                if forall|j: int| 0 <= j < b.len() ==> is_digit(#[trigger] b[j]) {
                    lemma_digits_value_monotone(b, i - start + 1);
                    assert(digits_value(b) > usize::MAX);
                }
                assert(position_value(s@) is None);
            }
            return None;
        }
        proof {
            assert(value * 10 + d <= usize::MAX) by (nonlinear_arith)
                requires value <= (usize::MAX - d) / 10, d <= 9;
        }
        value = value * 10 + d;
        i = i + 1;
    }
    assert(b.take(n - start) =~= b);
    Some(value)
}

/// Relies on htmlescape::decode_html: it replaces each HTML entity by the
/// character it stands for, fails on an invalid entity, and leaves a text
/// without `&` as it is.
#[verifier::external_body]
fn decode_entities(s: &str) -> (r: Option<String>)
    ensures
        r.deep_view() == html_decoded(s@),
        !s@.contains('&') ==> r.deep_view() == Some(s@),
{
    htmlescape::decode_html(s).ok()
}

/// Relies on csv::Reader (with its default header row) over a byte slice:
/// the fields of its first data record.
#[verifier::external_body]
fn first_csv_record(data: &[u8]) -> (r: Option<Option<Vec<String>>>)
    ensures
        r.deep_view() == csv_first_record(data@),
{
    match csv::Reader::from_reader(data).records().next() {
        None => Some(None),
        Some(Err(_)) => None,
        Some(Ok(record)) => Some(Some(record.iter().map(|f| f.to_string()).collect())),
    }
}

/// The descriptor that a record's fields give, or the error they cause.
pub open spec fn fields_result(fields: Seq<Seq<char>>) -> Result<(Seq<char>, usize), DescriptorError> {
    if fields.len() <= POSITION_FIELD {
        Err(DescriptorError::MissingField)
    } else if html_decoded(fields[TITLE_FIELD as int]) is None {
        Err(DescriptorError::BadTitle)
    } else if position_value(fields[POSITION_FIELD as int]) is None {
        Err(DescriptorError::BadPosition)
    } else {
        Ok((html_decoded(fields[TITLE_FIELD as int])->Some_0, position_value(fields[POSITION_FIELD as int])->Some_0))
    }
}

/// Whether `r` is the descriptor (or the error) that `expected` describes.
pub open spec fn descriptor_matches(
    r: Result<Descriptor, DescriptorError>,
    expected: Result<(Seq<char>, usize), DescriptorError>,
) -> bool {
    match (r, expected) {
        (Ok(d), Ok(e)) => d.title@ == e.0 && d.position == e.1,
        (Err(a), Err(b)) => a == b,
        _ => false,
    }
}

/// Reads a descriptor from a record's fields: the title field is decoded
/// from its HTML entities and the position field parsed.
pub fn descriptor_from_fields(fields: &Vec<String>) -> (r: Result<Descriptor, DescriptorError>)
    ensures
        descriptor_matches(r, fields_result(fields@.map_values(|f: String| f@))),
{
    let ghost fs = fields@.map_values(|f: String| f@);
    if fields.len() <= POSITION_FIELD {
        return Err(DescriptorError::MissingField);
    }
    assert(fs[TITLE_FIELD as int] == fields@[TITLE_FIELD as int]@);
    assert(fs[POSITION_FIELD as int] == fields@[POSITION_FIELD as int]@);
    let title = match decode_entities(fields[TITLE_FIELD].as_str()) {
        Some(t) => t,
        None => {
            return Err(DescriptorError::BadTitle);
        },
    };
    let position = match parse_position(fields[POSITION_FIELD].as_str()) {
        Some(p) => p,
        None => {
            return Err(DescriptorError::BadPosition);
        },
    };
    Ok(Descriptor { title, position })
}

/// The descriptor that a record file's text gives, or the error it causes.
pub open spec fn record_result(data: Seq<u8>) -> Result<(Seq<char>, usize), DescriptorError> {
    match csv_first_record(data) {
        None => Err(DescriptorError::Malformed),
        Some(None) => Err(DescriptorError::NoRecord),
        Some(Some(fields)) => fields_result(fields),
    }
}

/// Reads the descriptor held by one record file: a header row, then one data
/// record whose first field is the title and whose eighth is the position.
pub fn read_descriptor(data: &[u8]) -> (r: Result<Descriptor, DescriptorError>)
    ensures
        descriptor_matches(r, record_result(data@)),
{
    match first_csv_record(data) {
        None => Err(DescriptorError::Malformed),
        Some(None) => Err(DescriptorError::NoRecord),
        Some(Some(fields)) => descriptor_from_fields(&fields),
    }
}

/// Reads the descriptors of one playlist, one record file each, in order.
/// The first record that cannot be read fails the whole playlist, and the
/// error names its index.
pub fn read_descriptors(records: &Vec<Vec<u8>>) -> (r: Result<Vec<Descriptor>, (usize, DescriptorError)>)
    ensures
        r is Ok <==> forall|i: int| 0 <= i < records@.len() ==> (#[trigger] record_result(records@[i]@)) is Ok,
        r matches Ok(ds) ==> ds@.len() == records@.len() && forall|i: int| 0 <= i < ds@.len()
            ==> descriptor_matches(Ok(#[trigger] ds@[i]), record_result(records@[i]@)),
        r matches Err((k, e)) ==> k < records@.len() && (forall|i: int| 0 <= i < k
            ==> (#[trigger] record_result(records@[i]@)) is Ok)
            && descriptor_matches(Err(e), record_result(records@[k as int]@)),
{
    let mut ds: Vec<Descriptor> = Vec::new();
    let mut i: usize = 0;
    while i < records.len()
        invariant
            i <= records@.len(),
            ds@.len() == i,
            forall|j: int| 0 <= j < i ==> (#[trigger] record_result(records@[j]@)) is Ok,
            forall|j: int| 0 <= j < i ==> descriptor_matches(Ok(#[trigger] ds@[j]), record_result(records@[j]@)),
        decreases records@.len() - i,
    {
        match read_descriptor(records[i].as_slice()) {
            Ok(d) => {
                ds.push(d);
            },
            Err(e) => {
                return Err((i, e));
            },
        }
        i = i + 1;
    }
    Ok(ds)
}

} // verus!
