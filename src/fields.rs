//! Field names and field validation shared by the CSV and the key-value layouts.
use vstd::prelude::*;
use crate::decimal::{parse_decimal, parse_u64};
use crate::error::{outcome_matches, ParserError};
use crate::storage::{RecordView, YPBankRecord, YPBankRecordStatus, YPBankRecordType};
use crate::text::string_from_chars;

verus! {

/// The name of field `k`, in the order in which the text layouts list the fields.
pub open spec fn field_name(k: int) -> Seq<char> {
    if k == 0 {
        "TX_ID"@
    } else if k == 1 {
        "TX_TYPE"@
    } else if k == 2 {
        "FROM_USER_ID"@
    } else if k == 3 {
        "TO_USER_ID"@
    } else if k == 4 {
        "AMOUNT"@
    } else if k == 5 {
        "TIMESTAMP"@
    } else if k == 6 {
        "STATUS"@
    } else {
        "DESCRIPTION"@
    }
}

/// The name of field `k`.
pub fn field_name_str(k: usize) -> (r: &'static str)
    requires
        k < 8,
    ensures
        r@ == field_name(k as int),
{
    if k == 0 {
        "TX_ID"
    } else if k == 1 {
        "TX_TYPE"
    } else if k == 2 {
        "FROM_USER_ID"
    } else if k == 3 {
        "TO_USER_ID"
    } else if k == 4 {
        "AMOUNT"
    } else if k == 5 {
        "TIMESTAMP"
    } else if k == 6 {
        "STATUS"
    } else {
        "DESCRIPTION"
    }
}

/// The text between one enclosing pair of double quotes, which is required.
pub open spec fn quoted(s: Seq<char>) -> Result<Seq<char>, Seq<char>> {
    if s.len() >= 2 && s[0] == '"' && s.last() == '"' {
        Ok(s.subrange(1, s.len() - 1))
    } else {
        Err("DESCRIPTION must be enclosed in double quotes"@)
    }
}

/// The message for a field that is absent.
pub open spec fn missing_msg(prefix: Seq<char>, k: int) -> Seq<char> {
    prefix + field_name(k)
}

/// The message for a field whose value does not parse.
pub open spec fn invalid_msg(k: int) -> Seq<char> {
    "invalid "@ + field_name(k)
}

/// The value of field `k`, or the message naming it as absent.
pub open spec fn value_at(vals: Seq<Option<Seq<char>>>, k: int, prefix: Seq<char>) -> Result<
    Seq<char>,
    Seq<char>,
> {
    match vals[k] {
        Some(v) => Ok(v),
        None => Err(missing_msg(prefix, k)),
    }
}

/// The numeric value of field `k`.
pub open spec fn number_at(vals: Seq<Option<Seq<char>>>, k: int, prefix: Seq<char>) -> Result<
    u64,
    Seq<char>,
> {
    match value_at(vals, k, prefix) {
        Err(m) => Err(m),
        Ok(v) => match parse_u64(v) {
            Some(n) => Ok(n),
            None => Err(invalid_msg(k)),
        },
    }
}

/// The transaction type given by field `TX_TYPE`.
pub open spec fn type_at(vals: Seq<Option<Seq<char>>>, prefix: Seq<char>) -> Result<
    YPBankRecordType,
    Seq<char>,
> {
    match value_at(vals, 1, prefix) {
        Err(m) => Err(m),
        Ok(v) => match YPBankRecordType::spec_from_name(v) {
            Some(t) => Ok(t),
            None => Err(invalid_msg(1)),
        },
    }
}

/// The status given by field `STATUS`.
pub open spec fn status_at(vals: Seq<Option<Seq<char>>>, prefix: Seq<char>) -> Result<
    YPBankRecordStatus,
    Seq<char>,
> {
    match value_at(vals, 6, prefix) {
        Err(m) => Err(m),
        Ok(v) => match YPBankRecordStatus::spec_from_name(v) {
            Some(s) => Ok(s),
            None => Err(invalid_msg(6)),
        },
    }
}

/// The description given by field `DESCRIPTION`.
pub open spec fn description_at(vals: Seq<Option<Seq<char>>>, prefix: Seq<char>) -> Result<
    Seq<char>,
    Seq<char>,
> {
    match value_at(vals, 7, prefix) {
        Err(m) => Err(m),
        Ok(v) => quoted(v),
    }
}

/// The record that the eight field values give, checked in field order; the
/// first absent or malformed field decides the error.
pub open spec fn assemble(vals: Seq<Option<Seq<char>>>, prefix: Seq<char>) -> Result<
    RecordView,
    Seq<char>,
> {
    match number_at(vals, 0, prefix) {
        Err(m) => Err(m),
        Ok(tx_id) => match type_at(vals, prefix) {
            Err(m) => Err(m),
            Ok(tx_type) => match number_at(vals, 2, prefix) {
                Err(m) => Err(m),
                Ok(from_user_id) => match number_at(vals, 3, prefix) {
                    Err(m) => Err(m),
                    Ok(to_user_id) => match number_at(vals, 4, prefix) {
                        Err(m) => Err(m),
                        Ok(amount) => match number_at(vals, 5, prefix) {
                            Err(m) => Err(m),
                            Ok(timestamp) => match status_at(vals, prefix) {
                                Err(m) => Err(m),
                                Ok(status) => match description_at(vals, prefix) {
                                    Err(m) => Err(m),
                                    Ok(description) => Ok(
                                        RecordView {
                                            tx_id,
                                            tx_type,
                                            from_user_id,
                                            to_user_id,
                                            amount,
                                            timestamp,
                                            status,
                                            description,
                                        },
                                    ),
                                },
                            },
                        },
                    },
                },
            },
        },
    }
}

/// The character sequences that optional character vectors hold.
pub open spec fn opt_views(v: Seq<Option<Vec<char>>>) -> Seq<Option<Seq<char>>> {
    v.map_values(
        |o: Option<Vec<char>>|
            match o {
                Some(x) => Some(x@),
                None => None,
            },
    )
}

/// A malformed-input error whose message is `a` followed by `b`.
pub fn error_concat(a: &str, b: &str) -> (r: ParserError)
    ensures
        r.is_invalid(a@ + b@),
{
    let mut m = a.to_string();
    m.append(b);
    ParserError::InvalidRecord { message: m }
}

fn take_field<'a>(vals: &'a [Option<Vec<char>>], k: usize, prefix: &str) -> (r: Result<
    &'a Vec<char>,
    ParserError,
>)
    requires
        vals@.len() == 8,
        k < 8,
    ensures
        match value_at(opt_views(vals@), k as int, prefix@) {
            Ok(v) => r matches Ok(x) && x@ == v,
            Err(m) => r matches Err(e) && e.is_invalid(m),
        },
{
    match &vals[k] {
        Some(v) => Ok(v),
        None => Err(error_concat(prefix, field_name_str(k))),
    }
}

fn number_field(vals: &[Option<Vec<char>>], k: usize, prefix: &str) -> (r: Result<u64, ParserError>)
    requires
        vals@.len() == 8,
        k < 8,
    ensures
        match number_at(opt_views(vals@), k as int, prefix@) {
            Ok(n) => r == Ok::<u64, ParserError>(n),
            Err(m) => r matches Err(e) && e.is_invalid(m),
        },
{
    let v = match take_field(vals, k, prefix) {
        Ok(v) => v,
        Err(e) => return Err(e),
    };
    match parse_decimal(v.as_slice()) {
        Some(n) => Ok(n),
        None => Err(error_concat("invalid ", field_name_str(k))),
    }
}

/// Reads a transaction type by its exact name.
pub fn parse_tx_type(s: &[char]) -> (r: Result<YPBankRecordType, ParserError>)
    ensures
        match YPBankRecordType::spec_from_name(s@) {
            Some(t) => r == Ok::<YPBankRecordType, ParserError>(t),
            None => r matches Err(e) && e.is_invalid(invalid_msg(1)),
        },
{
    match YPBankRecordType::from_name(s) {
        Some(t) => Ok(t),
        None => Err(error_concat("invalid ", field_name_str(1))),
    }
}

/// Reads a status by its exact name.
pub fn parse_status(s: &[char]) -> (r: Result<YPBankRecordStatus, ParserError>)
    ensures
        match YPBankRecordStatus::spec_from_name(s@) {
            Some(t) => r == Ok::<YPBankRecordStatus, ParserError>(t),
            None => r matches Err(e) && e.is_invalid(invalid_msg(6)),
        },
{
    match YPBankRecordStatus::from_name(s) {
        Some(t) => Ok(t),
        None => Err(error_concat("invalid ", field_name_str(6))),
    }
}

/// Reads a description, which must be enclosed in one pair of double quotes.
pub fn parse_description(s: &[char]) -> (r: Result<String, ParserError>)
    ensures
        outcome_matches(r, quoted(s@)),
{
    let n = s.len();
    if n >= 2 && s[0] == '"' && s[n - 1] == '"' {
        Ok(string_from_chars(&s[1..n - 1]))
    } else {
        Err(crate::error::invalid_record("DESCRIPTION must be enclosed in double quotes"))
    }
}

/// Builds a record from the eight field values, checking them in field order.
pub fn build_record(vals: &[Option<Vec<char>>], prefix: &str) -> (r: Result<YPBankRecord, ParserError>)
    requires
        vals@.len() == 8,
    ensures
        outcome_matches(r, assemble(opt_views(vals@), prefix@)),
{
    let tx_id = match number_field(vals, 0, prefix) {
        Ok(n) => n,
        Err(e) => return Err(e),
    };
    let tx_type = match take_field(vals, 1, prefix) {
        Ok(v) => match parse_tx_type(v.as_slice()) {
            Ok(t) => t,
            Err(e) => return Err(e),
        },
        Err(e) => return Err(e),
    };
    let from_user_id = match number_field(vals, 2, prefix) {
        Ok(n) => n,
        Err(e) => return Err(e),
    };
    let to_user_id = match number_field(vals, 3, prefix) {
        Ok(n) => n,
        Err(e) => return Err(e),
    };
    let amount = match number_field(vals, 4, prefix) {
        Ok(n) => n,
        Err(e) => return Err(e),
    };
    let timestamp = match number_field(vals, 5, prefix) {
        Ok(n) => n,
        Err(e) => return Err(e),
    };
    let status = match take_field(vals, 6, prefix) {
        Ok(v) => match parse_status(v.as_slice()) {
            Ok(s) => s,
            Err(e) => return Err(e),
        },
        Err(e) => return Err(e),
    };
    let description = match take_field(vals, 7, prefix) {
        Ok(v) => match parse_description(v.as_slice()) {
            Ok(d) => d,
            Err(e) => return Err(e),
        },
        Err(e) => return Err(e),
    };
    Ok(
        YPBankRecord {
            tx_id,
            tx_type,
            from_user_id,
            to_user_id,
            amount,
            timestamp,
            status,
            description,
        },
    )
}

} // verus!

verus! {

/// A field name is made of capital letters and underscores only.
pub proof fn lemma_field_name_word(k: int)
    ensures
        crate::text::is_word(field_name(k)),
{
    reveal_strlit("TX_ID");
    reveal_strlit("TX_TYPE");
    reveal_strlit("FROM_USER_ID");
    reveal_strlit("TO_USER_ID");
    reveal_strlit("AMOUNT");
    reveal_strlit("TIMESTAMP");
    reveal_strlit("STATUS");
    reveal_strlit("DESCRIPTION");
    let s = field_name(k);
    assert forall|i: int| 0 <= i < s.len() implies #[trigger] crate::text::is_word_char(s[i]) by {
        assert(0 <= i < 12);
    }
}

/// The descriptions of `rs` hold no newline.
pub open spec fn single_line(rs: Seq<RecordView>) -> bool {
    forall|i: int| 0 <= i < rs.len() ==> crate::text::lacks(#[trigger] rs[i].description, '\n')
}

/// The text of the description field: the description between double quotes.
pub open spec fn quote(d: Seq<char>) -> Seq<char> {
    seq!['"'] + d + seq!['"']
}

/// The eight field values that the text layouts write for `r`.
pub open spec fn values_of(r: RecordView) -> Seq<Option<Seq<char>>> {
    seq![
        Some(crate::decimal::dec_digits(r.tx_id as nat)),
        Some(r.tx_type.spec_name()),
        Some(crate::decimal::dec_digits(r.from_user_id as nat)),
        Some(crate::decimal::dec_digits(r.to_user_id as nat)),
        Some(crate::decimal::dec_digits(r.amount as nat)),
        Some(crate::decimal::dec_digits(r.timestamp as nat)),
        Some(r.status.spec_name()),
        Some(quote(r.description)),
    ]
}

/// The values written for `r` are read back as `r`.
pub proof fn lemma_assemble_values(r: RecordView, prefix: Seq<char>)
    ensures
        assemble(values_of(r), prefix) == Ok::<RecordView, Seq<char>>(r),
{
    crate::decimal::lemma_decimal_roundtrip(r.tx_id);
    crate::decimal::lemma_decimal_roundtrip(r.from_user_id);
    crate::decimal::lemma_decimal_roundtrip(r.to_user_id);
    crate::decimal::lemma_decimal_roundtrip(r.amount);
    crate::decimal::lemma_decimal_roundtrip(r.timestamp);
    r.tx_type.lemma_name_code();
    r.status.lemma_name_code();
    let q = quote(r.description);
    assert(q.subrange(1, q.len() - 1) =~= r.description);
}

} // verus!

verus! {

/// When the values of the fields before `m` are those written for `r` and
/// field `m` is absent, the record fails with the message naming field `m`.
pub proof fn lemma_assemble_missing(
    r: RecordView,
    vals: Seq<Option<Seq<char>>>,
    m: int,
    prefix: Seq<char>,
)
    requires
        0 <= m < 8,
        vals.len() == 8,
        forall|k: int| 0 <= k < m ==> #[trigger] vals[k] == values_of(r)[k],
        vals[m] is None,
    ensures
        assemble(vals, prefix) == Err::<RecordView, Seq<char>>(missing_msg(prefix, m)),
{
    crate::decimal::lemma_decimal_roundtrip(r.tx_id);
    crate::decimal::lemma_decimal_roundtrip(r.from_user_id);
    crate::decimal::lemma_decimal_roundtrip(r.to_user_id);
    crate::decimal::lemma_decimal_roundtrip(r.amount);
    crate::decimal::lemma_decimal_roundtrip(r.timestamp);
    r.tx_type.lemma_name_code();
    r.status.lemma_name_code();
    assert(vals[0] == values_of(r)[0] || m == 0);
    assert(vals[1] == values_of(r)[1] || m <= 1);
    assert(vals[2] == values_of(r)[2] || m <= 2);
    assert(vals[3] == values_of(r)[3] || m <= 3);
    assert(vals[4] == values_of(r)[4] || m <= 4);
    assert(vals[5] == values_of(r)[5] || m <= 5);
    assert(vals[6] == values_of(r)[6] || m <= 6);
}

} // verus!
