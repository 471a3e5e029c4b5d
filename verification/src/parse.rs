//! Fields of input records: looking a field up by its name and reading an
//! unsigned decimal number from it.

use vstd::prelude::*;
use std::collections::HashMap;
use vstd::std_specs::iter::IteratorSpec;

verus! {

broadcast use vstd::string::group_string_axioms;

/// value of the decimal digits `s`
pub open spec fn digits_value(s: Seq<char>) -> int
    decreases s.len(),
{
    if s.len() == 0 {
        0
    } else {
        digits_value(s.drop_last()) * 10 + (s.last() as int - '0' as int)
    }
}

/// `s` holds decimal digits only
pub open spec fn all_digits(s: Seq<char>) -> bool {
    forall|i: int| 0 <= i < s.len() ==> '0' <= #[trigger] s[i] <= '9'
}

/// The number `str::parse::<u64>` reads from `s`: an optional `+` followed by at
/// least one decimal digit, of a value that fits a `u64`; none otherwise.
pub open spec fn parsed_u64(s: Seq<char>) -> Option<u64> {
    let digits = if s.len() > 0 && s[0] == '+' {
        s.drop_first()
    } else {
        s
    };
    if digits.len() > 0 && all_digits(digits) && digits_value(digits) <= u64::MAX {
        Some(digits_value(digits) as u64)
    } else {
        None
    }
}

/// the text of the field `name` of `record`, if it has one
pub open spec fn field(record: Map<String, String>, name: Seq<char>) -> Option<Seq<char>> {
    if exists|k: String| record.contains_key(k) && k@ == name {
        Some(record[choose|k: String| record.contains_key(k) && k@ == name]@)
    } else {
        None
    }
}

/// the field `name` of `record` holds a number
pub open spec fn number_field(record: Map<String, String>, name: Seq<char>) -> bool {
    field(record, name) matches Some(text) && parsed_u64(text) is Some
}

/// the number in the field `name` of `record` (see `number_field`)
pub open spec fn number_of(record: Map<String, String>, name: Seq<char>) -> u64 {
    parsed_u64(field(record, name).unwrap()).unwrap()
}

/// the records that the CSV reader reads from `text` (a header line, then a line per
/// record), each as a map from field name to value; `None` where a record cannot be
/// read
pub uninterp spec fn csv_records(text: Seq<u8>) -> Option<Seq<Map<String, String>>>;

/// the records as maps
pub open spec fn records_view(records: Seq<HashMap<String, String>>) -> Seq<Map<String, String>> {
    records.map_values(|r: HashMap<String, String>| r@)
}

/// `csv::Reader::from_reader(text).deserialize()`, collected: the records of the CSV
/// text as maps from field name to value, or `None` at the first record it cannot
/// read. What it returns is named by `csv_records`.
#[verifier::external_body]
fn parse_csv_records(text: &[u8]) -> (records: Option<Vec<HashMap<String, String>>>)
    ensures
        match records {
            Some(r) => csv_records(text@) == Some(records_view(r@)),
            None => csv_records(text@) is None,
        },
{
    csv::Reader::from_reader(text).deserialize().collect::<Result<Vec<HashMap<String, String>>, csv::Error>>().ok()
}

/// The records of the CSV text `text` (a header line naming the fields, then a line
/// per record), each as a map from field name to value; `None` when a record cannot
/// be read.
pub fn read_records(text: &[u8]) -> (records: Option<Vec<HashMap<String, String>>>)
    ensures
        match records {
            Some(r) => csv_records(text@) == Some(records_view(r@)),
            None => csv_records(text@) is None,
        },
{
    parse_csv_records(text)
}

/// `HashMap::get` on a record of named text fields: the value of the key with the
/// text `name` (keys are compared by their text, so there is at most one).
#[verifier::external_body]
pub(crate) fn record_field<'a>(record: &'a HashMap<String, String>, name: &str) -> (value: Option<&'a String>)
    ensures
        match value {
            Some(v) => field(record@, name@) == Some(v@),
            None => field(record@, name@) is None,
        },
{
    record.get(name)
}

/// The number in the field `name` of `record`.
pub fn number_in(record: &HashMap<String, String>, name: &str) -> (number: u64)
    requires
        number_field(record@, name@),
    ensures
        number == number_of(record@, name@),
{
    match record_field(record, name) {
        Some(text) => match parse_u64(text.as_str()) {
            Some(n) => n,
            None => {
                proof {
                    assert(false);
                }
                0
            },
        },
        None => {
            proof {
                assert(false);
            }
            0
        },
    }
}

/// The text in the field `name` of `record`.
pub fn text_in(record: &HashMap<String, String>, name: &str) -> (text: String)
    requires
        field(record@, name@) is Some,
    ensures
        text@ == field(record@, name@).unwrap(),
{
    match record_field(record, name) {
        Some(text) => text.clone(),
        None => {
            proof {
                assert(false);
            }
            String::new()
        },
    }
}

/// Reads an unsigned decimal number as `str::parse::<u64>` does (see `parsed_u64`).
pub fn parse_u64(s: &str) -> (number: Option<u64>)
    ensures
        number == parsed_u64(s@),
{
    let ghost chars = s@;
    let mut value: u64 = 0;
    let mut has_digit = false;
    let mut first = true;
    let mut signed = false;
    for c in it: s.chars()
        invariant
            it.seq() == chars,
            chars == s@,
            first == (it.index() == 0),
            signed == (chars.len() > 0 && chars[0] == '+' && it.index() > 0),
            has_digit == (it.index() - (if signed { 1int } else { 0 }) > 0),
            ({
                let digits = chars.subrange(if signed { 1 } else { 0 }, it.index() as int);
                &&& all_digits(digits)
                &&& value == digits_value(digits)
            }),
    {
        let ghost i = it.index() as int;
        let ghost start: int = if signed { 1 } else { 0 };
        let ghost before = chars.subrange(start, i);
        if first && c == '+' {
            first = false;
            signed = true;
            proof {
                assert(chars.subrange(1, 1) =~= Seq::<char>::empty());
            }
        } else {
            first = false;
            if c < '0' || c > '9' {
                proof {
                    let digits = if chars.len() > 0 && chars[0] == '+' { chars.drop_first() } else { chars };
                    assert(digits[i - start] == c);
                }
                return None;
            }
            let d = (c as u32 - '0' as u32) as u64;
            let ghost after = chars.subrange(start, i + 1);
            proof {
                assert(after.drop_last() =~= before);
                assert(after.last() == c);
                assert(all_digits(after)) by {
                    assert forall|j: int| 0 <= j < after.len() implies '0' <= #[trigger] after[j] <= '9' by {
                        if j < after.len() - 1 {
                            assert(after[j] == before[j]);
                        }
                    }
                }
                assert(digits_value(after) == value * 10 + d);
                let digits = if chars.len() > 0 && chars[0] == '+' { chars.drop_first() } else { chars };
                assert(chars.subrange(start, chars.len() as int) =~= digits);
            }
            match value.checked_mul(10) {
                Some(v) => match v.checked_add(d) {
                    Some(w) => {
                        value = w;
                    },
                    None => {
                        proof {
                            assert(digits_value(after) > u64::MAX);
                            lemma_digits_prefix_bounded(chars, start, i + 1);
                        }
                        return None;
                    },
                },
                None => {
                    proof {
                        assert(digits_value(after) > u64::MAX);
                        lemma_digits_prefix_bounded(chars, start, i + 1);
                    }
                    return None;
                },
            }
            has_digit = true;
        }
    }
    proof {
        let start: int = if signed { 1 } else { 0 };
        let digits = if chars.len() > 0 && chars[0] == '+' { chars.drop_first() } else { chars };
        assert(chars.subrange(start, chars.len() as int) =~= digits);
    }
    if !has_digit {
        None
    } else {
        Some(value)
    }
}

/// A number read past `u64::MAX` stays past it with more digits.
proof fn lemma_digits_prefix_bounded(chars: Seq<char>, start: int, k: int)
    requires
        0 <= start < k <= chars.len(),
        all_digits(chars.subrange(start, k)),
        digits_value(chars.subrange(start, k)) > u64::MAX,
    ensures
        all_digits(chars.subrange(start, chars.len() as int)) ==> digits_value(chars.subrange(start, chars.len() as int)) > u64::MAX,
    decreases chars.len() - k,
{
    if k < chars.len() && all_digits(chars.subrange(start, chars.len() as int)) {
        let next = chars.subrange(start, k + 1);
        assert(next.drop_last() =~= chars.subrange(start, k));
        assert(next.last() == chars.subrange(start, chars.len() as int)[k - start]);
        assert(all_digits(next));
        lemma_digits_prefix_bounded(chars, start, k + 1);
    }
}

} // verus!
