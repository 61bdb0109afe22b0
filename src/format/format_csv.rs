//! The CSV layout: a fixed header line, then one comma-separated line per record.
use vstd::prelude::*;
use vstd::utf8::{decode_utf8, encode_utf8, valid_utf8};
use crate::decimal::{dec_digits, push_decimal};
use crate::error::{invalid_record, outcome_matches, ParserError};
use crate::decimal::lemma_dec_word;
use crate::fields::{
    assemble, build_record, lemma_assemble_values, opt_views, quote, single_line, values_of,
};
use crate::parser::Parser;
use crate::storage::{RecordView, YPBankRecord, YPBankStorage};
use crate::text::{
    chars_of, eq_str, is_ws, lacks, lemma_lines_cons, lemma_split_cons, lemma_trim_id,
    lemma_word_lacks, lines_of, push_str, push_utf8, split_fields, split_lines, split_n, trim,
    trim_chars, utf8_to_string, views_of,
};

verus! {

/// Parser for the CSV record layout.
pub struct CsvParser {
    /// The records to write.
    pub storage: YPBankStorage,
}

/// The first line of every CSV stream.
pub open spec fn header() -> Seq<char> {
    "TX_ID,TX_TYPE,FROM_USER_ID,TO_USER_ID,AMOUNT,TIMESTAMP,STATUS,DESCRIPTION"@
}

/// The header line, without its newline.
pub fn header_str() -> (r: &'static str)
    ensures
        r@ == header(),
{
    "TX_ID,TX_TYPE,FROM_USER_ID,TO_USER_ID,AMOUNT,TIMESTAMP,STATUS,DESCRIPTION"
}

/// The eight field values of a data line: at most eight comma-separated
/// pieces, each without surrounding white space; absent pieces are `None`.
pub open spec fn csv_values(line: Seq<char>) -> Seq<Option<Seq<char>>> {
    let f = split_n(line, ',', 8);
    Seq::new(
        8,
        |k: int|
            if k < f.len() {
                Some(trim(f[k]))
            } else {
                None
            },
    )
}

/// The record of one data line.
pub open spec fn parse_line(line: Seq<char>) -> Result<RecordView, Seq<char>> {
    assemble(csv_values(line), "missing "@)
}

/// A line of white space only.
pub open spec fn is_blank(line: Seq<char>) -> bool {
    trim(line).len() == 0
}

/// The records of the data lines, blank lines skipped; the first bad line decides the error.
pub open spec fn csv_rows(lines: Seq<Seq<char>>) -> Result<Seq<RecordView>, Seq<char>>
    decreases lines.len(),
{
    if lines.len() == 0 {
        Ok(Seq::empty())
    } else {
        match csv_rows(lines.drop_last()) {
            Err(m) => Err(m),
            Ok(rs) => if is_blank(lines.last()) {
                Ok(rs)
            } else {
                match parse_line(lines.last()) {
                    Err(m) => Err(m),
                    Ok(r) => Ok(rs.push(r)),
                }
            },
        }
    }
}

/// The records of a CSV text.
pub open spec fn csv_decode_text(text: Seq<char>) -> Result<Seq<RecordView>, Seq<char>> {
    let ls = lines_of(text);
    if ls[0] != header() {
        Err("invalid CSV header"@)
    } else {
        csv_rows(ls.drop_first())
    }
}

/// The records of a CSV stream; the bytes must be UTF-8.
pub open spec fn csv_decode(b: Seq<u8>) -> Result<Seq<RecordView>, Seq<char>> {
    if !valid_utf8(b) {
        Err("input is not valid UTF-8"@)
    } else {
        csv_decode_text(decode_utf8(b))
    }
}

/// The data line written for `r`.
pub open spec fn row_of(r: RecordView) -> Seq<char> {
    dec_digits(r.tx_id as nat) + seq![','] + r.tx_type.spec_name() + seq![','] + dec_digits(
        r.from_user_id as nat,
    ) + seq![','] + dec_digits(r.to_user_id as nat) + seq![','] + dec_digits(r.amount as nat)
        + seq![','] + dec_digits(r.timestamp as nat) + seq![','] + r.status.spec_name() + seq![
        ',',
    ] + seq!['"'] + r.description + seq!['"']
}

/// The data lines of all records, each ended by a newline.
pub open spec fn rows_text(rs: Seq<RecordView>) -> Seq<char>
    decreases rs.len(),
{
    if rs.len() == 0 {
        Seq::empty()
    } else {
        rows_text(rs.drop_last()) + row_of(rs.last()) + seq!['\n']
    }
}

/// The whole CSV text for `rs`.
pub open spec fn csv_text(rs: Seq<RecordView>) -> Seq<char> {
    header() + seq!['\n'] + rows_text(rs)
}

/// Once a prefix of the lines fails, the whole fails in the same way.
proof fn lemma_rows_prefix_err(lines: Seq<Seq<char>>, k: int)
    requires
        0 <= k <= lines.len(),
        csv_rows(lines.take(k)) is Err,
    ensures
        csv_rows(lines) == csv_rows(lines.take(k)),
    decreases lines.len() - k,
{
    if k < lines.len() {
        assert(lines.take(k + 1).drop_last() =~= lines.take(k));
        lemma_rows_prefix_err(lines, k + 1);
    } else {
        assert(lines.take(k) =~= lines);
    }
}

/// Checks that the first line is exactly the header.
fn parse_header(line: &[char]) -> (r: Result<(), ParserError>)
    ensures
        line@ == header() ==> r is Ok,
        line@ != header() ==> (r matches Err(e) && e.is_invalid("invalid CSV header"@)),
{
    if !eq_str(line, header_str()) {
        return Err(invalid_record("invalid CSV header"));
    }
    Ok(())
}

/// Parses one data line.
pub fn parse_record(line: &[char]) -> (r: Result<YPBankRecord, ParserError>)
    ensures
        outcome_matches(r, parse_line(line@)),
{
    let fields = split_fields(line, ',', 8);
    let ghost f = split_n(line@, ',', 8);
    let mut vals: Vec<Option<Vec<char>>> = Vec::new();
    let mut k: usize = 0;
    while k < 8
        invariant
            k <= 8,
            views_of(fields@) == f,
            f == split_n(line@, ',', 8),
            vals@.len() == k,
            opt_views(vals@) == csv_values(line@).take(k as int),
        decreases 8 - k,
    {
        let ghost before = vals@;
        if k < fields.len() {
            proof {
                assert(fields@[k as int]@ == f[k as int]);
                assert(csv_values(line@)[k as int] == Some(trim(f[k as int])));
            }
            let t = trim_chars(fields[k].as_slice());
            vals.push(Some(t));
            proof {
                assert(opt_views(vals@) =~= opt_views(before).push(Some(t@)));
            }
        } else {
            vals.push(None);
            proof {
                assert(csv_values(line@)[k as int] == None::<Seq<char>>);
                assert(opt_views(vals@) =~= opt_views(before).push(None));
            }
        }
        proof {
            assert(csv_values(line@).take(k + 1) =~= csv_values(line@).take(k as int).push(
                csv_values(line@)[k as int],
            ));
        }
        k = k + 1;
    }
    proof {
        assert(csv_values(line@).take(8) =~= csv_values(line@));
    }
    build_record(vals.as_slice(), "missing ")
}

/// Serializes one record as a data line, without the newline.
fn serialize_record(record: &YPBankRecord) -> (r: Vec<char>)
    ensures
        r@ == row_of(record@),
{
    let mut out: Vec<char> = Vec::new();
    push_decimal(&mut out, record.tx_id);
    out.push(',');
    push_str(&mut out, record.tx_type.name());
    out.push(',');
    push_decimal(&mut out, record.from_user_id);
    out.push(',');
    push_decimal(&mut out, record.to_user_id);
    out.push(',');
    push_decimal(&mut out, record.amount);
    out.push(',');
    push_decimal(&mut out, record.timestamp);
    out.push(',');
    push_str(&mut out, record.status.name());
    out.push(',');
    out.push('"');
    push_str(&mut out, record.description.as_str());
    out.push('"');
    proof {
        assert(out@ =~= row_of(record@));
    }
    out
}

impl Parser for CsvParser {
    open spec fn spec_decode(input: Seq<u8>) -> Result<Seq<RecordView>, Seq<char>> {
        csv_decode(input)
    }

    open spec fn spec_encodable(records: Seq<RecordView>) -> bool {
        true
    }

    open spec fn spec_encode(records: Seq<RecordView>) -> Seq<u8> {
        encode_utf8(csv_text(records))
    }

    open spec fn spec_encode_error() -> Seq<char> {
        Seq::empty()
    }

    open spec fn spec_records(&self) -> Seq<RecordView> {
        self.storage@
    }

    fn from_read(input: &[u8]) -> (r: Result<YPBankStorage, ParserError>) {
        let text = match utf8_to_string(vstd::slice::slice_to_vec(input)) {
            Some(t) => t,
            None => return Err(invalid_record("input is not valid UTF-8")),
        };
        let chars = chars_of(text.as_str());
        let lines = split_lines(chars.as_slice());
        let ghost ls = lines_of(chars@);
        proof {
            assert(ls.len() >= 1);
            assert(lines@[0]@ == ls[0]);
        }
        match parse_header(lines[0].as_slice()) {
            Ok(()) => {},
            Err(e) => return Err(e),
        }
        let mut storage = YPBankStorage::new();
        let count = lines.len();
        let mut k: usize = 1;
        proof {
            assert(ls.subrange(1, 1) =~= Seq::<Seq<char>>::empty());
        }
        while k < count
            invariant
                1 <= k <= count,
                count == lines@.len(),
                views_of(lines@) == ls,
                valid_utf8(input@),
                ls == lines_of(decode_utf8(input@)),
                ls[0] == header(),
                csv_rows(ls.subrange(1, k as int)) == Ok::<Seq<RecordView>, Seq<char>>(storage@),
            decreases count - k,
        {
            proof {
                assert(lines@[k as int]@ == ls[k as int]);
                assert(ls.subrange(1, k + 1).drop_last() =~= ls.subrange(1, k as int));
            }
            let t = trim_chars(lines[k].as_slice());
            if t.len() > 0 {
                let record = match parse_record(lines[k].as_slice()) {
                    Ok(r) => r,
                    Err(e) => {
                        proof {
                            let sub = ls.subrange(1, k + 1);
                            assert(sub.last() == ls[k as int]);
                            assert(!is_blank(ls[k as int]));
                            assert(csv_rows(sub) is Err);
                            assert(ls.drop_first().take(k as int) =~= sub);
                            lemma_rows_prefix_err(ls.drop_first(), k as int);
                        }
                        return Err(e);
                    },
                };
                storage.push(record);
            }
            k = k + 1;
        }
        proof {
            assert(ls.subrange(1, count as int) =~= ls.drop_first());
        }
        Ok(storage)
    }

    fn write_to(&self, out: &mut Vec<u8>) -> (r: Result<(), ParserError>) {
        let records = self.storage.records();
        let count = records.len();
        let ghost rs = self.storage@;
        let mut text: Vec<char> = Vec::new();
        push_str(&mut text, header_str());
        text.push('\n');
        let mut i: usize = 0;
        proof {
            assert(rs.take(0) =~= Seq::<RecordView>::empty());
            assert(text@ =~= header() + seq!['\n'] + rows_text(rs.take(0)));
        }
        while i < count
            invariant
                count == records@.len(),
                rs == self.storage@,
                records@.map_values(|x: YPBankRecord| x@) == rs,
                i <= count,
                text@ == header() + seq!['\n'] + rows_text(rs.take(i as int)),
            decreases count - i,
        {
            proof {
                assert(rs[i as int] == records@[i as int]@);
                assert(rs.take(i + 1).drop_last() =~= rs.take(i as int));
            }
            let row = serialize_record(&records[i]);
            crate::text::extend_from(&mut text, row.as_slice());
            text.push('\n');
            proof {
                assert(text@ =~= header() + seq!['\n'] + rows_text(rs.take(i + 1)));
            }
            i = i + 1;
        }
        proof {
            assert(rs.take(count as int) =~= rs);
        }
        push_utf8(out, text.as_slice());
        Ok(())
    }

    fn from_storage(storage: YPBankStorage) -> (r: Self) {
        CsvParser { storage }
    }
}

} // verus!

verus! {

/// The fields that the data line of `r` is cut into.
pub open spec fn row_fields(r: RecordView) -> Seq<Seq<char>> {
    seq![
        dec_digits(r.tx_id as nat),
        r.tx_type.spec_name(),
        dec_digits(r.from_user_id as nat),
        dec_digits(r.to_user_id as nat),
        dec_digits(r.amount as nat),
        dec_digits(r.timestamp as nat),
        r.status.spec_name(),
        quote(r.description),
    ]
}

proof fn lemma_row_words(r: RecordView)
    ensures
        forall|k: int| 0 <= k < 7 ==> crate::text::is_word(#[trigger] row_fields(r)[k]),
{
    lemma_dec_word(r.tx_id as nat);
    lemma_dec_word(r.from_user_id as nat);
    lemma_dec_word(r.to_user_id as nat);
    lemma_dec_word(r.amount as nat);
    lemma_dec_word(r.timestamp as nat);
    r.tx_type.lemma_name_word();
    r.status.lemma_name_word();
}

/// The data line of `r`, its fields joined from the right.
pub open spec fn row_nested(f: Seq<Seq<char>>) -> Seq<char> {
    f[0] + seq![','] + (f[1] + seq![','] + (f[2] + seq![','] + (f[3] + seq![','] + (f[4] + seq![
        ',',
    ] + (f[5] + seq![','] + (f[6] + seq![','] + f[7]))))))
}

proof fn lemma_row_shape(r: RecordView)
    ensures
        row_of(r) == row_nested(row_fields(r)),
{
    assert(row_of(r) =~= row_nested(row_fields(r)));
}

proof fn lemma_row_split(r: RecordView)
    ensures
        split_n(row_of(r), ',', 8) == row_fields(r),
{
    let f = row_fields(r);
    assert(lacks(f[0], ',')) by {
        lemma_dec_word(r.tx_id as nat);
        lemma_word_lacks(f[0]);
    }
    assert(lacks(f[1], ',')) by {
        r.tx_type.lemma_name_word();
        lemma_word_lacks(f[1]);
    }
    assert(lacks(f[2], ',')) by {
        lemma_dec_word(r.from_user_id as nat);
        lemma_word_lacks(f[2]);
    }
    assert(lacks(f[3], ',')) by {
        lemma_dec_word(r.to_user_id as nat);
        lemma_word_lacks(f[3]);
    }
    assert(lacks(f[4], ',')) by {
        lemma_dec_word(r.amount as nat);
        lemma_word_lacks(f[4]);
    }
    assert(lacks(f[5], ',')) by {
        lemma_dec_word(r.timestamp as nat);
        lemma_word_lacks(f[5]);
    }
    assert(lacks(f[6], ',')) by {
        r.status.lemma_name_word();
        lemma_word_lacks(f[6]);
    }
    let t6 = f[6] + seq![','] + f[7];
    let t5 = f[5] + seq![','] + t6;
    let t4 = f[4] + seq![','] + t5;
    let t3 = f[3] + seq![','] + t4;
    let t2 = f[2] + seq![','] + t3;
    let t1 = f[1] + seq![','] + t2;
    let t0 = f[0] + seq![','] + t1;
    lemma_row_shape(r);
    assert(split_n(t6, ',', 2) == f.subrange(6, 8)) by {
        lemma_split_cons(f[6], ',', f[7], 2);
        assert(seq![f[6]] + seq![f[7]] =~= f.subrange(6, 8));
    }
    assert(split_n(t5, ',', 3) == f.subrange(5, 8)) by {
        lemma_split_cons(f[5], ',', t6, 3);
        assert(seq![f[5]] + f.subrange(6, 8) =~= f.subrange(5, 8));
    }
    assert(split_n(t4, ',', 4) == f.subrange(4, 8)) by {
        lemma_split_cons(f[4], ',', t5, 4);
        assert(seq![f[4]] + f.subrange(5, 8) =~= f.subrange(4, 8));
    }
    assert(split_n(t3, ',', 5) == f.subrange(3, 8)) by {
        lemma_split_cons(f[3], ',', t4, 5);
        assert(seq![f[3]] + f.subrange(4, 8) =~= f.subrange(3, 8));
    }
    assert(split_n(t2, ',', 6) == f.subrange(2, 8)) by {
        lemma_split_cons(f[2], ',', t3, 6);
        assert(seq![f[2]] + f.subrange(3, 8) =~= f.subrange(2, 8));
    }
    assert(split_n(t1, ',', 7) == f.subrange(1, 8)) by {
        lemma_split_cons(f[1], ',', t2, 7);
        assert(seq![f[1]] + f.subrange(2, 8) =~= f.subrange(1, 8));
    }
    assert(split_n(t0, ',', 8) == f) by {
        lemma_split_cons(f[0], ',', t1, 8);
        assert(seq![f[0]] + f.subrange(1, 8) =~= f);
    }
    assert(split_n(row_of(r), ',', 8) =~= f);
}

/// The data line written for `r` parses back to `r`, and is not blank.
proof fn lemma_parse_row(r: RecordView)
    ensures
        parse_line(row_of(r)) == Ok::<RecordView, Seq<char>>(r),
        !is_blank(row_of(r)),
{
    let f = row_fields(r);
    lemma_row_split(r);
    lemma_row_words(r);
    assert forall|k: int| 0 <= k < 8 implies trim(#[trigger] f[k]) == f[k] by {
        if k < 7 {
            lemma_word_lacks(f[k]);
        } else {
            assert(!is_ws('"'));
        }
        lemma_trim_id(f[k]);
    }
    assert(csv_values(row_of(r)) =~= values_of(r)) by {
        assert forall|k: int| 0 <= k < 8 implies #[trigger] csv_values(row_of(r))[k] == values_of(
            r,
        )[k] by {
            assert(trim(f[k]) == f[k]);
        }
    }
    lemma_assemble_values(r, "missing "@);
    lemma_word_lacks(f[0]);
    assert(!is_ws('"'));
    assert(row_of(r)[0] == f[0][0]);
    lemma_trim_id(row_of(r));
}

proof fn lemma_row_lacks_newline(r: RecordView)
    requires
        lacks(r.description, '\n'),
    ensures
        lacks(row_of(r), '\n'),
{
    lemma_dec_word(r.tx_id as nat);
    lemma_dec_word(r.from_user_id as nat);
    lemma_dec_word(r.to_user_id as nat);
    lemma_dec_word(r.amount as nat);
    lemma_dec_word(r.timestamp as nat);
    r.tx_type.lemma_name_word();
    r.status.lemma_name_word();
    lemma_word_lacks(dec_digits(r.tx_id as nat));
    lemma_word_lacks(dec_digits(r.from_user_id as nat));
    lemma_word_lacks(dec_digits(r.to_user_id as nat));
    lemma_word_lacks(dec_digits(r.amount as nat));
    lemma_word_lacks(dec_digits(r.timestamp as nat));
    lemma_word_lacks(r.tx_type.spec_name());
    lemma_word_lacks(r.status.spec_name());
}

proof fn lemma_rows_front(rs: Seq<RecordView>)
    requires
        rs.len() > 0,
    ensures
        rows_text(rs) == row_of(rs[0]) + seq!['\n'] + rows_text(rs.drop_first()),
    decreases rs.len(),
{
    if rs.len() > 1 {
        lemma_rows_front(rs.drop_last());
        assert(rs.drop_last().drop_first() =~= rs.drop_first().drop_last());
        assert(rows_text(rs) =~= row_of(rs[0]) + seq!['\n'] + rows_text(rs.drop_first()));
    } else {
        assert(rs.drop_first() =~= Seq::<RecordView>::empty());
        assert(rs.drop_last() =~= Seq::<RecordView>::empty());
        assert(rows_text(rs) =~= row_of(rs[0]) + seq!['\n'] + rows_text(rs.drop_first()));
    }
}

proof fn lemma_rows_lines(rs: Seq<RecordView>)
    requires
        single_line(rs),
    ensures
        lines_of(rows_text(rs)) == rs.map_values(|r: RecordView| row_of(r)).push(Seq::empty()),
    decreases rs.len(),
{
    if rs.len() == 0 {
        assert(lines_of(rows_text(rs)) =~= seq![Seq::<char>::empty()]);
        assert(rs.map_values(|r: RecordView| row_of(r)).push(Seq::empty()) =~= seq![
            Seq::<char>::empty(),
        ]);
    } else {
        let tail = rs.drop_first();
        assert(lacks(rs[0].description, '\n'));
        assert forall|i: int| 0 <= i < tail.len() implies lacks(#[trigger] tail[i].description, '\n') by {
            assert(lacks(rs[i + 1].description, '\n'));
        }
        lemma_rows_lines(tail);
        lemma_rows_front(rs);
        lemma_row_lacks_newline(rs[0]);
        lemma_lines_cons(row_of(rs[0]), rows_text(tail));
        assert(seq![row_of(rs[0])] + tail.map_values(|r: RecordView| row_of(r)).push(Seq::empty())
            =~= rs.map_values(|r: RecordView| row_of(r)).push(Seq::empty()));
    }
}

proof fn lemma_csv_rows(rs: Seq<RecordView>)
    ensures
        csv_rows(rs.map_values(|r: RecordView| row_of(r))) == Ok::<Seq<RecordView>, Seq<char>>(rs),
    decreases rs.len(),
{
    let m = rs.map_values(|r: RecordView| row_of(r));
    if rs.len() == 0 {
        assert(m =~= Seq::<Seq<char>>::empty());
        assert(rs =~= Seq::<RecordView>::empty());
    } else {
        lemma_csv_rows(rs.drop_last());
        assert(m.drop_last() =~= rs.drop_last().map_values(|r: RecordView| row_of(r)));
        lemma_parse_row(rs.last());
        assert(m.last() == row_of(rs.last()));
        assert(rs.drop_last().push(rs.last()) =~= rs);
        assert(csv_rows(m) == Ok::<Seq<RecordView>, Seq<char>>(rs.drop_last().push(rs.last())));
    }
}

/// Writing records as CSV and reading the text back gives the same records in
/// the same order, when no description holds a newline.
pub proof fn lemma_csv_roundtrip(rs: Seq<RecordView>)
    requires
        single_line(rs),
    ensures
        csv_decode(encode_utf8(csv_text(rs))) == Ok::<Seq<RecordView>, Seq<char>>(rs),
{
    let text = csv_text(rs);
    vstd::utf8::encode_utf8_valid_utf8(text);
    vstd::utf8::encode_utf8_decode_utf8(text);
    reveal_strlit("TX_ID,TX_TYPE,FROM_USER_ID,TO_USER_ID,AMOUNT,TIMESTAMP,STATUS,DESCRIPTION");
    let h = header();
    assert forall|i: int| 0 <= i < h.len() implies #[trigger] h[i] != '\n' by {
        assert(0 <= i < 73);
    }
    lemma_lines_cons(h, rows_text(rs));
    lemma_rows_lines(rs);
    lemma_csv_rows(rs);
    let m = rs.map_values(|r: RecordView| row_of(r));
    let ls = lines_of(text);
    assert(ls == seq![h] + m.push(Seq::empty()));
    assert(ls.drop_first() =~= m.push(Seq::empty()));
    assert(csv_rows(m.push(Seq::empty())) == csv_rows(m)) by {
        assert(m.push(Seq::empty()).drop_last() =~= m);
        assert(is_blank(Seq::<char>::empty()));
    }
}

} // verus!

verus! {

/// The first `m` fields of `f`, joined by commas.
pub open spec fn join_fields(f: Seq<Seq<char>>) -> Seq<char>
    decreases f.len(),
{
    if f.len() == 0 {
        Seq::empty()
    } else if f.len() == 1 {
        f[0]
    } else {
        f[0] + seq![','] + join_fields(f.drop_first())
    }
}

proof fn lemma_split_join(f: Seq<Seq<char>>, n: nat)
    requires
        f.len() >= 1,
        n >= f.len(),
        forall|k: int| 0 <= k < f.len() ==> lacks(#[trigger] f[k], ','),
    ensures
        split_n(join_fields(f), ',', n) == f,
    decreases f.len(),
{
    if f.len() == 1 {
        assert(lacks(f[0], ','));
        crate::text::lemma_index_of(f[0], ',');
        if crate::text::index_of(f[0], ',') < f[0].len() {
            assert(f[0][crate::text::index_of(f[0], ',') as int] == ',');
        }
        assert(split_n(join_fields(f), ',', n) =~= f);
    } else {
        let tail = f.drop_first();
        assert(lacks(f[0], ','));
        assert forall|k: int| 0 <= k < tail.len() implies lacks(#[trigger] tail[k], ',') by {
            assert(lacks(f[k + 1], ','));
        }
        lemma_split_join(tail, (n - 1) as nat);
        lemma_split_cons(f[0], ',', join_fields(tail), n);
        assert(seq![f[0]] + tail =~= f);
    }
}

/// A data line made of the first `m` fields written for `r`, with `m` below
/// eight, fails and names field `m` as missing; no field is read from
/// beyond the line.
pub proof fn lemma_csv_short_line(r: RecordView, m: int)
    requires
        1 <= m < 8,
    ensures
        parse_line(join_fields(row_fields(r).take(m))) == Err::<RecordView, Seq<char>>(
            "missing "@ + crate::fields::field_name(m),
        ),
{
    let f = row_fields(r).take(m);
    lemma_row_words(r);
    assert forall|k: int| 0 <= k < f.len() implies lacks(#[trigger] f[k], ',') by {
        lemma_word_lacks(row_fields(r)[k]);
    }
    lemma_split_join(f, 8);
    let line = join_fields(f);
    let vals = csv_values(line);
    assert forall|k: int| 0 <= k < m implies #[trigger] vals[k] == values_of(r)[k] by {
        lemma_word_lacks(row_fields(r)[k]);
        lemma_trim_id(row_fields(r)[k]);
    }
    crate::fields::lemma_assemble_missing(r, vals, m, "missing "@);
}

/// The data line written for `r` reads back as `r`, whatever commas its
/// description holds: the eighth field takes the rest of the line.
pub proof fn lemma_csv_commas_kept(r: RecordView)
    ensures
        parse_line(row_of(r)) == Ok::<RecordView, Seq<char>>(r),
{
    lemma_parse_row(r);
}

} // verus!
