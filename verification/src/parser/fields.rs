//! Reading typed field values from the attributes of a section.
use crate::maps::{entries_get, text_entries, text_map_get, Entries};
use crate::text::{chars_of, is_blank, is_blank_chars, push_text};
use crate::value::{chrono_parse, chrono_parse_date, debug_quote, debug_text, decimal_text, read_decimal, Date, Decimal};
use indexmap::IndexMap;
use vstd::prelude::*;

verus! {

/// The date format of statements: day, month and year separated by dots.
pub const DATE_FORMAT: &'static str = "%d.%m.%Y";

/// How a field's text is read, where reading it can fail.
#[derive(Clone, Copy, Debug, PartialEq, Eq, Structural)]
pub enum FieldKind {
    /// A date that must not be blank.
    RequiredDate,
    /// A date that is absent when blank.
    OptionalDate,
    /// A decimal number.
    Number,
}

pub open spec fn empty_date_message() -> Seq<char> {
    "empty string is not a valid date"@
}

pub open spec fn missing_field_message(name: Seq<char>) -> Seq<char> {
    "missing field `"@ + name + "`"@
}

pub open spec fn invalid_number_message(v: Seq<char>) -> Seq<char> {
    "invalid value: string "@ + debug_text(v) + ", expected a Decimal type representing a fixed-point number"@
}

/// A date in the statement format.
pub open spec fn parsed_date(v: Seq<char>) -> Result<Date, Seq<char>> {
    match chrono_parse_date(v, DATE_FORMAT@) {
        Ok((y, m, d)) => Ok(Date { year: y, month: m, day: d }),
        Err(e) => Err(e),
    }
}

pub open spec fn read_required_date(v: Seq<char>) -> Result<Date, Seq<char>> {
    if is_blank(v) {
        Err(empty_date_message())
    } else {
        parsed_date(v)
    }
}

pub open spec fn read_optional_date(v: Seq<char>) -> Result<Option<Date>, Seq<char>> {
    if is_blank(v) {
        Ok(None)
    } else {
        match parsed_date(v) {
            Ok(d) => Ok(Some(d)),
            Err(e) => Err(e),
        }
    }
}

pub open spec fn read_number(v: Seq<char>) -> Result<Decimal, Seq<char>> {
    match decimal_text(v) {
        Some(d) => Ok(d),
        None => Err(invalid_number_message(v)),
    }
}

/// The error that reading a field's text gives, if any.
pub open spec fn value_error(kind: FieldKind, v: Seq<char>) -> Option<Seq<char>> {
    match kind {
        FieldKind::RequiredDate => match read_required_date(v) {
            Ok(_) => None,
            Err(e) => Some(e),
        },
        FieldKind::OptionalDate => match read_optional_date(v) {
            Ok(_) => None,
            Err(e) => Some(e),
        },
        FieldKind::Number => match read_number(v) {
            Ok(_) => None,
            Err(e) => Some(e),
        },
    }
}

/// The first error among the checked fields that are present, in the
/// order of the checks.
pub open spec fn first_value_error(a: Entries<Seq<char>>, checks: Seq<(Seq<char>, FieldKind)>) -> Option<Seq<char>>
    decreases checks.len(),
{
    if checks.len() == 0 {
        None
    } else {
        match entries_get(a, checks[0].0) {
            Some(v) => match value_error(checks[0].1, v) {
                Some(e) => Some(e),
                None => first_value_error(a, checks.drop_first()),
            },
            None => first_value_error(a, checks.drop_first()),
        }
    }
}

/// The first of the required fields that is absent.
pub open spec fn first_missing(a: Entries<Seq<char>>, names: Seq<Seq<char>>) -> Option<Seq<char>>
    decreases names.len(),
{
    if names.len() == 0 {
        None
    } else if entries_get(a, names[0]) is None {
        Some(names[0])
    } else {
        first_missing(a, names.drop_first())
    }
}

pub proof fn lemma_no_value_error(a: Entries<Seq<char>>, checks: Seq<(Seq<char>, FieldKind)>, i: int)
    requires
        first_value_error(a, checks) is None,
        0 <= i < checks.len(),
    ensures
        entries_get(a, checks[i].0) matches Some(v) ==> value_error(checks[i].1, v) is None,
    decreases checks.len(),
{
    if i > 0 {
        lemma_no_value_error(a, checks.drop_first(), i - 1);
    }
}

pub proof fn lemma_none_missing(a: Entries<Seq<char>>, names: Seq<Seq<char>>, i: int)
    requires
        first_missing(a, names) is None,
        0 <= i < names.len(),
    ensures
        entries_get(a, names[i]) is Some,
    decreases names.len(),
{
    if i > 0 {
        lemma_none_missing(a, names.drop_first(), i - 1);
    }
}

/// Reads a date in the statement format.
pub fn parse_date(v: &str) -> (r: Result<Date, String>)
    ensures
        match parsed_date(v@) {
            Ok(d) => r == Ok::<Date, String>(d),
            Err(e) => r matches Err(t) && t@ == e,
        },
{
    chrono_parse(v, DATE_FORMAT)
}

/// Reads a date that must not be blank.
pub fn required_date(v: &str) -> (r: Result<Date, String>)
    ensures
        match read_required_date(v@) {
            Ok(d) => r == Ok::<Date, String>(d),
            Err(e) => r matches Err(t) && t@ == e,
        },
{
    let c = chars_of(v);
    if is_blank_chars(&c) {
        let mut m = String::new();
        push_text(&mut m, "empty string is not a valid date");
        return Err(m);
    }
    parse_date(v)
}

/// Reads a date that is absent when blank.
pub fn optional_date(v: &str) -> (r: Result<Option<Date>, String>)
    ensures
        match read_optional_date(v@) {
            Ok(d) => r == Ok::<Option<Date>, String>(d),
            Err(e) => r matches Err(t) && t@ == e,
        },
{
    let c = chars_of(v);
    if is_blank_chars(&c) {
        return Ok(None);
    }
    match parse_date(v) {
        Ok(d) => Ok(Some(d)),
        Err(e) => Err(e),
    }
}

/// Reads a decimal number.
pub fn number(v: &str) -> (r: Result<Decimal, String>)
    ensures
        match read_number(v@) {
            Ok(d) => r == Ok::<Decimal, String>(d),
            Err(e) => r matches Err(t) && t@ == e,
        },
{
    match read_decimal(v) {
        Some(d) => Ok(d),
        None => {
            let mut m = String::new();
            push_text(&mut m, "invalid value: string ");
            let q = debug_quote(v);
            push_text(&mut m, q.as_str());
            push_text(&mut m, ", expected a Decimal type representing a fixed-point number");
            Err(m)
        },
    }
}

/// The error that reading a field's text gives, if any.
pub fn check_value(kind: FieldKind, v: &str) -> (r: Option<String>)
    ensures
        match value_error(kind, v@) {
            Some(e) => r matches Some(t) && t@ == e,
            None => r is None,
        },
{
    match kind {
        FieldKind::RequiredDate => match required_date(v) {
            Ok(_) => None,
            Err(e) => Some(e),
        },
        FieldKind::OptionalDate => match optional_date(v) {
            Ok(_) => None,
            Err(e) => Some(e),
        },
        FieldKind::Number => match number(v) {
            Ok(_) => None,
            Err(e) => Some(e),
        },
    }
}

/// The first error among the checked fields that are present.
pub fn find_value_error(attrs: &IndexMap<String, String>, checks: &Vec<(&str, FieldKind)>) -> (r: Option<String>)
    ensures
        match first_value_error(text_entries(*attrs), checks@.map_values(|c: (&str, FieldKind)| (c.0@, c.1))) {
            Some(e) => r matches Some(t) && t@ == e,
            None => r is None,
        },
{
    let ghost a = text_entries(*attrs);
    let ghost all = checks@.map_values(|c: (&str, FieldKind)| (c.0@, c.1));
    assert(all.skip(0) =~= all);
    let mut i: usize = 0;
    while i < checks.len()
        invariant
            i <= checks.len(),
            all.len() == checks.len(),
            a == text_entries(*attrs),
            all == checks@.map_values(|c: (&str, FieldKind)| (c.0@, c.1)),
            first_value_error(a, all) == first_value_error(a, all.skip(i as int)),
        decreases checks.len() - i,
    {
        let (key, kind) = checks[i];
        assert(all.skip(i as int)[0] == (key@, kind));
        assert(all.skip(i as int).drop_first() =~= all.skip(i + 1));
        match text_map_get(attrs, key) {
            Some(v) => {
                match check_value(kind, v.as_str()) {
                    Some(e) => {
                        return Some(e);
                    },
                    None => {},
                }
            },
            None => {},
        }
        i = i + 1;
    }
    None
}

/// The first of the required fields that is absent.
pub fn find_missing(attrs: &IndexMap<String, String>, names: &Vec<&str>) -> (r: Option<String>)
    ensures
        match first_missing(text_entries(*attrs), names@.map_values(|n: &str| n@)) {
            Some(e) => r matches Some(t) && t@ == e,
            None => r is None,
        },
{
    let ghost a = text_entries(*attrs);
    let ghost all = names@.map_values(|n: &str| n@);
    assert(all.skip(0) =~= all);
    let mut i: usize = 0;
    while i < names.len()
        invariant
            i <= names.len(),
            all.len() == names.len(),
            a == text_entries(*attrs),
            all == names@.map_values(|n: &str| n@),
            first_missing(a, all) == first_missing(a, all.skip(i as int)),
        decreases names.len() - i,
    {
        let name = names[i];
        assert(all.skip(i as int)[0] == name@);
        assert(all.skip(i as int).drop_first() =~= all.skip(i + 1));
        match text_map_get(attrs, name) {
            Some(_) => {},
            None => {
                let mut t = String::new();
                push_text(&mut t, name);
                return Some(t);
            },
        }
        i = i + 1;
    }
    None
}

/// The texts of an optional text.
pub open spec fn opt_view(o: Option<String>) -> Option<Seq<char>> {
    match o {
        Some(s) => Some(s@),
        None => None,
    }
}

/// The text of an optional field.
pub fn optional_text(attrs: &IndexMap<String, String>, key: &str) -> (r: Option<String>)
    ensures
        opt_view(r) == entries_get(text_entries(*attrs), key@),
{
    match text_map_get(attrs, key) {
        Some(v) => Some(v.clone()),
        None => None,
    }
}

/// The text of a field known to be present.
pub fn present_text(attrs: &IndexMap<String, String>, key: &str) -> (r: String)
    requires
        entries_get(text_entries(*attrs), key@) is Some,
    ensures
        r@ == entries_get(text_entries(*attrs), key@)->0,
{
    match text_map_get(attrs, key) {
        Some(v) => v.clone(),
        None => String::new(),
    }
}

} // verus!
