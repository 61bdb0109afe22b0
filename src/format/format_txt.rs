//! The key-value text layout: blocks of `KEY: VALUE` lines separated by blank lines.
use vstd::prelude::*;
use vstd::utf8::{decode_utf8, encode_utf8, valid_utf8};
use crate::decimal::push_decimal;
use crate::error::{invalid_record, ParserError};
use crate::fields::{
    assemble, build_record, error_concat, field_name, field_name_str, opt_views, quote, values_of,
};
use crate::parser::Parser;
use crate::storage::{RecordView, YPBankRecord, YPBankStorage};
use crate::decimal::lemma_dec_word;
use crate::fields::single_line;
use crate::text::{
    chars_of, eq_chars, eq_str, extend_from, is_ws, lacks, lemma_lines_cons, lemma_trim_id,
    lemma_word_lacks, lines_of, push_str, push_utf8, split_lines, string_from_chars, trim,
    trim_chars, utf8_to_string, views_of,
};

verus! {

/// Parser for the key-value text layout.
pub struct TxtParser {
    /// The records to write.
    pub storage: YPBankStorage,
}

/// A block being read: one slot per record field, and the other keys seen so far.
#[verifier::ext_equal]
pub struct Block {
    pub slots: Seq<Option<Seq<char>>>,
    pub others: Seq<Seq<char>>,
}

/// The state between two lines: the records read, and the open block.
#[verifier::ext_equal]
pub struct TxtState {
    pub records: Seq<RecordView>,
    pub block: Block,
}

/// A block that holds no key.
pub open spec fn empty_block() -> Block {
    Block { slots: Seq::new(8, |k: int| None), others: Seq::empty() }
}

/// No key has been given in `b`.
pub open spec fn block_is_empty(b: Block) -> bool {
    &&& forall|k: int| 0 <= k < 8 ==> #[trigger] b.slots[k] is None
    &&& b.others.len() == 0
}

/// The slot of `key`, or 8 when it names no record field.
pub open spec fn key_index(key: Seq<char>) -> int {
    if key == field_name(0) {
        0
    } else if key == field_name(1) {
        1
    } else if key == field_name(2) {
        2
    } else if key == field_name(3) {
        3
    } else if key == field_name(4) {
        4
    } else if key == field_name(5) {
        5
    } else if key == field_name(6) {
        6
    } else if key == field_name(7) {
        7
    } else {
        8
    }
}

/// The block with `key` set to `value`; a key already in the block is an error.
pub open spec fn add_field(b: Block, key: Seq<char>, value: Seq<char>) -> Result<Block, Seq<char>> {
    let k = key_index(key);
    if k < 8 {
        if b.slots[k] is Some {
            Err("duplicate field: "@ + key)
        } else {
            Ok(Block { slots: b.slots.update(k, Some(value)), others: b.others })
        }
    } else if b.others.contains(key) {
        Err("duplicate field: "@ + key)
    } else {
        Ok(Block { slots: b.slots, others: b.others.push(key) })
    }
}

/// The position of the first `": "` in `s`, or the length of `s` if there is none.
pub open spec fn find_sep(s: Seq<char>) -> nat
    decreases s.len(),
{
    if s.len() < 2 {
        s.len()
    } else if s[0] == ':' && s[1] == ' ' {
        0
    } else {
        1 + find_sep(s.drop_first())
    }
}

/// The record that a non-empty block gives.
pub open spec fn close_block(b: Block) -> Result<RecordView, Seq<char>> {
    assemble(b.slots, "missing field: "@)
}

/// The state after one more line.
pub open spec fn step(st: TxtState, line: Seq<char>) -> Result<TxtState, Seq<char>> {
    let t = trim(line);
    if t.len() > 0 && t[0] == '#' {
        Ok(st)
    } else if t.len() == 0 {
        if block_is_empty(st.block) {
            Ok(st)
        } else {
            match close_block(st.block) {
                Err(m) => Err(m),
                Ok(r) => Ok(TxtState { records: st.records.push(r), block: empty_block() }),
            }
        }
    } else {
        let i = find_sep(t);
        if i >= t.len() {
            Err("expected 'KEY: VALUE' format"@)
        } else {
            match add_field(st.block, t.take(i as int), t.skip((i + 2) as int)) {
                Err(m) => Err(m),
                Ok(b) => Ok(TxtState { records: st.records, block: b }),
            }
        }
    }
}

/// The outcome after running `lines` from `st`; a fault stops the run.
pub open spec fn run(st: Result<TxtState, Seq<char>>, lines: Seq<Seq<char>>) -> Result<
    TxtState,
    Seq<char>,
>
    decreases lines.len(),
{
    if lines.len() == 0 {
        st
    } else {
        match run(st, lines.drop_last()) {
            Err(m) => Err(m),
            Ok(s) => step(s, lines.last()),
        }
    }
}

/// No record read, no block open.
pub open spec fn initial_state() -> TxtState {
    TxtState { records: Seq::empty(), block: empty_block() }
}

/// The state after all of `lines`, or the first fault.
pub open spec fn fold_lines(lines: Seq<Seq<char>>) -> Result<TxtState, Seq<char>> {
    run(Ok(initial_state()), lines)
}

/// The records of a key-value text; a block still open at the end is closed.
pub open spec fn txt_decode_text(text: Seq<char>) -> Result<Seq<RecordView>, Seq<char>> {
    match fold_lines(lines_of(text)) {
        Err(m) => Err(m),
        Ok(st) => if block_is_empty(st.block) {
            Ok(st.records)
        } else {
            match close_block(st.block) {
                Err(m) => Err(m),
                Ok(r) => Ok(st.records.push(r)),
            }
        },
    }
}

/// The records of a key-value stream; the bytes must be UTF-8.
pub open spec fn txt_decode(b: Seq<u8>) -> Result<Seq<RecordView>, Seq<char>> {
    if !valid_utf8(b) {
        Err("input is not valid UTF-8"@)
    } else {
        txt_decode_text(decode_utf8(b))
    }
}

/// The text of the line `KEY: VALUE` for field `k`.
pub open spec fn kv_text(k: int, v: Seq<char>) -> Seq<char> {
    field_name(k) + seq![':', ' '] + v
}

/// The value written for field `k` of `r`.
pub open spec fn field_text(r: RecordView, k: int) -> Seq<char> {
    values_of(r)[k]->0
}

/// The first `k` lines of the block of `r`, each with its newline.
pub open spec fn block_upto(r: RecordView, k: nat) -> Seq<char>
    decreases k,
{
    if k == 0 {
        Seq::empty()
    } else {
        block_upto(r, (k - 1) as nat) + kv_text(k - 1, field_text(r, k - 1)) + seq!['\n']
    }
}

/// The block written for `r`: its eight `KEY: VALUE` lines.
pub open spec fn block_of(r: RecordView) -> Seq<char> {
    block_upto(r, 8)
}

/// The blocks of all records, a blank line between two blocks.
pub open spec fn txt_text(rs: Seq<RecordView>) -> Seq<char>
    decreases rs.len(),
{
    if rs.len() == 0 {
        Seq::empty()
    } else if rs.len() == 1 {
        block_of(rs[0])
    } else {
        txt_text(rs.drop_last()) + seq!['\n'] + block_of(rs.last())
    }
}

} // verus!

verus! {

/// The block that the executable slots and other keys hold.
pub open spec fn block_view(slots: Seq<Option<Vec<char>>>, others: Seq<Vec<char>>) -> Block {
    Block { slots: opt_views(slots), others: views_of(others) }
}

/// The position of the first `": "` in `s`, or the length of `s`.
fn find_separator(s: &[char]) -> (r: usize)
    ensures
        r == find_sep(s@),
{
    let n = s.len();
    let mut i: usize = 0;
    proof {
        assert(s@.subrange(0, n as int) =~= s@);
    }
    while n - i > 1 && !(s[i] == ':' && s[i + 1] == ' ')
        invariant
            i <= n,
            n == s@.len(),
            find_sep(s@) == i + find_sep(s@.subrange(i as int, n as int)),
        decreases n - i,
    {
        proof {
            assert(s@.subrange(i as int, n as int).drop_first() =~= s@.subrange(i + 1, n as int));
        }
        i = i + 1;
    }
    if n - i <= 1 {
        n
    } else {
        i
    }
}

/// Splits a trimmed line at its first `": "` into key and value.
fn parse_key_value(line: &[char]) -> (r: Result<(Vec<char>, Vec<char>), ParserError>)
    ensures
        find_sep(line@) >= line@.len() ==> (r matches Err(e) && e.is_invalid(
            "expected 'KEY: VALUE' format"@,
        )),
        find_sep(line@) < line@.len() ==> (r matches Ok((k, v)) && k@ == line@.take(
            find_sep(line@) as int,
        ) && v@ == line@.skip((find_sep(line@) + 2) as int)),
{
    let pos = find_separator(line);
    if pos >= line.len() {
        return Err(invalid_record("expected 'KEY: VALUE' format"));
    }
    proof {
        lemma_find_sep(line@);
    }
    let key = vstd::slice::slice_to_vec(&line[0..pos]);
    let value = vstd::slice::slice_to_vec(&line[pos + 2..line.len()]);
    Ok((key, value))
}

proof fn lemma_find_sep(s: Seq<char>)
    ensures
        find_sep(s) <= s.len(),
        find_sep(s) < s.len() ==> find_sep(s) + 2 <= s.len() && s[find_sep(s) as int] == ':'
            && s[(find_sep(s) + 1) as int] == ' ',
    decreases s.len(),
{
    if s.len() >= 2 && !(s[0] == ':' && s[1] == ' ') {
        lemma_find_sep(s.drop_first());
    }
}

/// The slot of `key`, or 8 when it names no record field.
fn key_slot(key: &[char]) -> (r: usize)
    ensures
        r == key_index(key@),
{
    let mut k: usize = 0;
    while k < 8
        invariant
            k <= 8,
            forall|j: int| 0 <= j < k ==> key@ != #[trigger] field_name(j),
        decreases 8 - k,
    {
        if eq_str(key, field_name_str(k)) {
            return k;
        }
        k = k + 1;
    }
    8
}

/// Whether `key` is among `others`.
fn contains_key(others: &[Vec<char>], key: &[char]) -> (r: bool)
    ensures
        r == views_of(others@).contains(key@),
{
    let n = others.len();
    let mut i: usize = 0;
    while i < n
        invariant
            i <= n,
            n == others@.len(),
            forall|j: int| 0 <= j < i ==> #[trigger] views_of(others@)[j] != key@,
        decreases n - i,
    {
        if eq_chars(others[i].as_slice(), key) {
            proof {
                assert(views_of(others@)[i as int] == key@);
            }
            return true;
        }
        i = i + 1;
    }
    false
}

/// Puts `key` with `value` into the block, refusing a key that is already there.
fn insert_field(
    slots: &mut Vec<Option<Vec<char>>>,
    others: &mut Vec<Vec<char>>,
    key: Vec<char>,
    value: Vec<char>,
) -> (r: Result<(), ParserError>)
    requires
        old(slots)@.len() == 8,
    ensures
        final(slots)@.len() == 8,
        match add_field(block_view(old(slots)@, old(others)@), key@, value@) {
            Ok(b) => r is Ok && block_view(final(slots)@, final(others)@) == b,
            Err(m) => r matches Err(e) && e.is_invalid(m),
        },
{
    let k = key_slot(key.as_slice());
    if k < 8 {
        if slots[k].is_some() {
            let name = string_from_chars(key.as_slice());
            return Err(error_concat("duplicate field: ", name.as_str()));
        }
        let ghost before = slots@;
        slots.set(k, Some(value));
        proof {
            assert(opt_views(slots@) =~= opt_views(before).update(k as int, Some(value@)));
        }
    } else {
        if contains_key(others.as_slice(), key.as_slice()) {
            let name = string_from_chars(key.as_slice());
            return Err(error_concat("duplicate field: ", name.as_str()));
        }
        let ghost before = others@;
        others.push(key);
        proof {
            assert(views_of(others@) =~= views_of(before).push(key@));
        }
    }
    Ok(())
}

/// Eight empty slots.
fn empty_slots() -> (r: Vec<Option<Vec<char>>>)
    ensures
        r@.len() == 8,
        opt_views(r@) == empty_block().slots,
{
    let mut v: Vec<Option<Vec<char>>> = Vec::new();
    let mut k: usize = 0;
    while k < 8
        invariant
            k <= 8,
            v@.len() == k,
            forall|j: int| 0 <= j < k ==> #[trigger] v@[j] is None,
        decreases 8 - k,
    {
        v.push(None);
        k = k + 1;
    }
    proof {
        assert(opt_views(v@) =~= empty_block().slots);
    }
    v
}

/// Whether the block holds no key at all.
fn is_block_empty(slots: &[Option<Vec<char>>], others: &[Vec<char>]) -> (r: bool)
    requires
        slots@.len() == 8,
    ensures
        r == block_is_empty(block_view(slots@, others@)),
{
    if others.len() > 0 {
        return false;
    }
    let mut k: usize = 0;
    while k < 8
        invariant
            k <= 8,
            slots@.len() == 8,
            forall|j: int| 0 <= j < k ==> #[trigger] opt_views(slots@)[j] is None,
        decreases 8 - k,
    {
        if slots[k].is_some() {
            proof {
                assert(opt_views(slots@)[k as int] is Some);
            }
            return false;
        }
        proof {
            assert(opt_views(slots@)[k as int] is None);
        }
        k = k + 1;
    }
    true
}

/// Once a prefix of the lines fails, the whole fails in the same way.
proof fn lemma_fold_prefix_err(lines: Seq<Seq<char>>, k: int)
    requires
        0 <= k <= lines.len(),
        fold_lines(lines.take(k)) is Err,
    ensures
        fold_lines(lines) == fold_lines(lines.take(k)),
    decreases lines.len() - k,
{
    if k < lines.len() {
        assert(lines.take(k + 1).drop_last() =~= lines.take(k));
        assert(fold_lines(lines.take(k + 1)) == fold_lines(lines.take(k)));
        lemma_fold_prefix_err(lines, k + 1);
    } else {
        assert(lines.take(k) =~= lines);
    }
}

/// Appends `KEY: ` for field `k`.
fn push_key(out: &mut Vec<char>, k: usize)
    requires
        k < 8,
    ensures
        final(out)@ == old(out)@ + field_name(k as int) + seq![':', ' '],
{
    push_str(out, field_name_str(k));
    out.push(':');
    out.push(' ');
    proof {
        assert(final(out)@ =~= old(out)@ + field_name(k as int) + seq![':', ' ']);
    }
}

/// The characters of the value written for field `k` of `record`.
fn field_chars(record: &YPBankRecord, k: usize) -> (r: Vec<char>)
    requires
        k < 8,
    ensures
        r@ == field_text(record@, k as int),
{
    let mut out: Vec<char> = Vec::new();
    if k == 0 {
        push_decimal(&mut out, record.tx_id);
    } else if k == 1 {
        push_str(&mut out, record.tx_type.name());
    } else if k == 2 {
        push_decimal(&mut out, record.from_user_id);
    } else if k == 3 {
        push_decimal(&mut out, record.to_user_id);
    } else if k == 4 {
        push_decimal(&mut out, record.amount);
    } else if k == 5 {
        push_decimal(&mut out, record.timestamp);
    } else if k == 6 {
        push_str(&mut out, record.status.name());
    } else {
        out.push('"');
        push_str(&mut out, record.description.as_str());
        out.push('"');
    }
    proof {
        assert(out@ =~= field_text(record@, k as int));
    }
    out
}

/// Serializes one record as its block of eight lines.
fn serialize_record(record: &YPBankRecord) -> (r: Vec<char>)
    ensures
        r@ == block_of(record@),
{
    let mut out: Vec<char> = Vec::new();
    let mut k: usize = 0;
    while k < 8
        invariant
            k <= 8,
            out@ == block_upto(record@, k as nat),
        decreases 8 - k,
    {
        push_key(&mut out, k);
        let v = field_chars(record, k);
        extend_from(&mut out, v.as_slice());
        out.push('\n');
        proof {
            assert(out@ =~= block_upto(record@, (k + 1) as nat));
        }
        k = k + 1;
    }
    out
}

} // verus!

verus! {

impl Parser for TxtParser {
    open spec fn spec_decode(input: Seq<u8>) -> Result<Seq<RecordView>, Seq<char>> {
        txt_decode(input)
    }

    open spec fn spec_encodable(records: Seq<RecordView>) -> bool {
        true
    }

    open spec fn spec_encode(records: Seq<RecordView>) -> Seq<u8> {
        encode_utf8(txt_text(records))
    }

    open spec fn spec_encode_error() -> Seq<char> {
        Seq::empty()
    }

    open spec fn spec_records(&self) -> Seq<RecordView> {
        self.storage@
    }

    fn from_read(input: &[u8]) -> (r: Result<YPBankStorage, ParserError>) {
        let text = match utf8_to_string(vstd::slice::slice_to_vec(input)) {
            Some(t) => t,
            None => return Err(invalid_record("input is not valid UTF-8")),
        };
        let chars = chars_of(text.as_str());
        let lines = split_lines(chars.as_slice());
        let ghost ls = lines_of(chars@);
        let mut storage = YPBankStorage::new();
        let mut slots = empty_slots();
        let mut others: Vec<Vec<char>> = Vec::new();
        let count = lines.len();
        let mut k: usize = 0;
        proof {
            assert(ls.take(0) =~= Seq::<Seq<char>>::empty());
            assert(views_of(others@) =~= Seq::<Seq<char>>::empty());
            assert(block_view(slots@, others@) =~= empty_block());
        }
        while k < count
            invariant
                k <= count,
                count == lines@.len(),
                views_of(lines@) == ls,
                valid_utf8(input@),
                ls == lines_of(decode_utf8(input@)),
                slots@.len() == 8,
                fold_lines(ls.take(k as int)) == Ok::<TxtState, Seq<char>>(
                    TxtState { records: storage@, block: block_view(slots@, others@) },
                ),
            decreases count - k,
        {
            let ghost st = TxtState { records: storage@, block: block_view(slots@, others@) };
            proof {
                assert(lines@[k as int]@ == ls[k as int]);
                assert(ls.take(k + 1).drop_last() =~= ls.take(k as int));
                assert(ls.take(k + 1).last() == ls[k as int]);
            }
            let t = trim_chars(lines[k].as_slice());
            if t.len() > 0 && t[0] == '#' {
            } else if t.len() == 0 {
                if !is_block_empty(slots.as_slice(), others.as_slice()) {
                    let record = match build_record(slots.as_slice(), "missing field: ") {
                        Ok(r) => r,
                        Err(e) => {
                            proof {
                                lemma_fold_prefix_err(ls, k + 1);
                            }
                            return Err(e);
                        },
                    };
                    storage.push(record);
                    slots = empty_slots();
                    others = Vec::new();
                    proof {
                        assert(views_of(others@) =~= Seq::<Seq<char>>::empty());
                        assert(block_view(slots@, others@) =~= empty_block());
                    }
                }
            } else {
                let (key, value) = match parse_key_value(t.as_slice()) {
                    Ok(kv) => kv,
                    Err(e) => {
                        proof {
                            lemma_fold_prefix_err(ls, k + 1);
                        }
                        return Err(e);
                    },
                };
                match insert_field(&mut slots, &mut others, key, value) {
                    Ok(()) => {},
                    Err(e) => {
                        proof {
                            lemma_fold_prefix_err(ls, k + 1);
                        }
                        return Err(e);
                    },
                }
            }
            k = k + 1;
        }
        proof {
            assert(ls.take(count as int) =~= ls);
        }
        if !is_block_empty(slots.as_slice(), others.as_slice()) {
            let record = match build_record(slots.as_slice(), "missing field: ") {
                Ok(r) => r,
                Err(e) => return Err(e),
            };
            storage.push(record);
        }
        Ok(storage)
    }

    fn write_to(&self, out: &mut Vec<u8>) -> (r: Result<(), ParserError>) {
        let records = self.storage.records();
        let count = records.len();
        let ghost rs = self.storage@;
        let mut text: Vec<char> = Vec::new();
        let mut i: usize = 0;
        proof {
            assert(rs.take(0) =~= Seq::<RecordView>::empty());
        }
        while i < count
            invariant
                count == records@.len(),
                rs == self.storage@,
                records@.map_values(|x: YPBankRecord| x@) == rs,
                i <= count,
                text@ == txt_text(rs.take(i as int)),
            decreases count - i,
        {
            proof {
                assert(rs[i as int] == records@[i as int]@);
                assert(rs.take(i + 1).drop_last() =~= rs.take(i as int));
                assert(rs.take(i + 1).last() == rs[i as int]);
            }
            if i > 0 {
                text.push('\n');
            }
            let block = serialize_record(&records[i]);
            extend_from(&mut text, block.as_slice());
            proof {
                if i == 0 {
                    assert(text@ =~= txt_text(rs.take(1)));
                } else {
                    assert(text@ =~= txt_text(rs.take(i + 1)));
                }
            }
            i = i + 1;
        }
        proof {
            assert(rs.take(count as int) =~= rs);
        }
        push_utf8(out, text.as_slice());
        Ok(())
    }

    fn from_storage(storage: YPBankStorage) -> (r: Self) {
        TxtParser { storage }
    }
}

} // verus!

verus! {

proof fn lemma_key_index(k: int)
    requires
        0 <= k < 8,
    ensures
        key_index(field_name(k)) == k,
{
    reveal_strlit("TX_ID");
    reveal_strlit("TX_TYPE");
    reveal_strlit("FROM_USER_ID");
    reveal_strlit("TO_USER_ID");
    reveal_strlit("AMOUNT");
    reveal_strlit("TIMESTAMP");
    reveal_strlit("STATUS");
    reveal_strlit("DESCRIPTION");
    assert(field_name(0).len() == 5);
    assert(field_name(1).len() == 7);
    assert(field_name(2).len() == 12);
    assert(field_name(3).len() == 10);
    assert(field_name(4).len() == 6);
    assert(field_name(5).len() == 9);
    assert(field_name(6).len() == 6);
    assert(field_name(7).len() == 11);
    assert(field_name(4)[0] != field_name(6)[0]);
}

proof fn lemma_find_sep_at(a: Seq<char>, v: Seq<char>)
    requires
        lacks(a, ':'),
    ensures
        find_sep(a + seq![':', ' '] + v) == a.len(),
    decreases a.len(),
{
    let s = a + seq![':', ' '] + v;
    if a.len() > 0 {
        assert(s[0] == a[0]);
        let a2 = a.drop_first();
        assert(s.drop_first() =~= a2 + seq![':', ' '] + v);
        assert forall|i: int| 0 <= i < a2.len() implies #[trigger] a2[i] != ':' by {
            assert(a[i + 1] != ':');
        }
        lemma_find_sep_at(a2, v);
    } else {
        assert(s[0] == ':' && s[1] == ' ');
    }
}

proof fn lemma_field_text(r: RecordView, k: int)
    requires
        0 <= k < 8,
        lacks(r.description, '\n'),
    ensures
        field_text(r, k).len() > 0,
        !is_ws(field_text(r, k).last()),
        lacks(field_text(r, k), '\n'),
{
    let v = field_text(r, k);
    if k == 0 {
        lemma_dec_word(r.tx_id as nat);
    } else if k == 1 {
        r.tx_type.lemma_name_word();
    } else if k == 2 {
        lemma_dec_word(r.from_user_id as nat);
    } else if k == 3 {
        lemma_dec_word(r.to_user_id as nat);
    } else if k == 4 {
        lemma_dec_word(r.amount as nat);
    } else if k == 5 {
        lemma_dec_word(r.timestamp as nat);
    } else if k == 6 {
        r.status.lemma_name_word();
    }
    if k < 7 {
        lemma_word_lacks(v);
    } else {
        assert(v == quote(r.description));
        assert(!is_ws('"'));
    }
}

/// The eight lines of the block of `r`, without newlines.
pub open spec fn block_lines(r: RecordView) -> Seq<Seq<char>> {
    Seq::new(8, |j: int| kv_text(j, field_text(r, j)))
}

proof fn lemma_kv_text(k: int, v: Seq<char>)
    requires
        0 <= k < 8,
        v.len() > 0,
        !is_ws(v.last()),
    ensures
        trim(kv_text(k, v)) == kv_text(k, v),
        kv_text(k, v).len() > 0,
        kv_text(k, v)[0] != '#',
        find_sep(kv_text(k, v)) == field_name(k).len(),
        kv_text(k, v).take(field_name(k).len() as int) == field_name(k),
        kv_text(k, v).skip(field_name(k).len() + 2 as int) == v,
{
    let name = field_name(k);
    let t = kv_text(k, v);
    crate::fields::lemma_field_name_word(k);
    lemma_word_lacks(name);
    assert(t[0] == name[0]);
    assert(t.last() == v.last());
    lemma_trim_id(t);
    lemma_find_sep_at(name, v);
    assert(t.take(name.len() as int) =~= name);
    assert(t.skip(name.len() + 2 as int) =~= v);
}

/// Within one block, a second line for a field already given is refused,
/// and the error names the field.
pub proof fn lemma_txt_duplicate_lines(pre: Seq<Seq<char>>, k: int, v1: Seq<char>, v2: Seq<char>)
    requires
        0 <= k < 8,
        fold_lines(pre) is Ok,
        block_is_empty(fold_lines(pre)->Ok_0.block),
        fold_lines(pre)->Ok_0.block.slots.len() == 8,
        v1.len() > 0,
        !is_ws(v1.last()),
        v2.len() > 0,
        !is_ws(v2.last()),
    ensures
        fold_lines(pre.push(kv_text(k, v1)).push(kv_text(k, v2))) == Err::<TxtState, Seq<char>>(
            "duplicate field: "@ + field_name(k),
        ),
{
    let once = pre.push(kv_text(k, v1));
    let twice = once.push(kv_text(k, v2));
    lemma_kv_text(k, v1);
    lemma_kv_text(k, v2);
    lemma_key_index(k);
    assert(once.drop_last() =~= pre);
    assert(twice.drop_last() =~= once);
    let st = fold_lines(pre)->Ok_0;
    assert(st.block.slots[k] is None);
    assert(fold_lines(once) == step(st, kv_text(k, v1)));
}

proof fn lemma_kv_line(r: RecordView, k: int)
    requires
        0 <= k < 8,
        lacks(r.description, '\n'),
    ensures
        trim(kv_text(k, field_text(r, k))) == kv_text(k, field_text(r, k)),
        kv_text(k, field_text(r, k)).len() > 0,
        kv_text(k, field_text(r, k))[0] != '#',
        lacks(kv_text(k, field_text(r, k)), '\n'),
        find_sep(kv_text(k, field_text(r, k))) == field_name(k).len(),
        kv_text(k, field_text(r, k)).take(field_name(k).len() as int) == field_name(k),
        kv_text(k, field_text(r, k)).skip(field_name(k).len() + 2 as int) == field_text(r, k),
{
    lemma_field_text(r, k);
    lemma_kv_text(k, field_text(r, k));
    let name = field_name(k);
    crate::fields::lemma_field_name_word(k);
    lemma_word_lacks(name);
    let t = kv_text(k, field_text(r, k));
    assert forall|i: int| 0 <= i < t.len() implies #[trigger] t[i] != '\n' by {
        if i < name.len() {
            assert(t[i] == name[i]);
        } else if i >= name.len() + 2 {
            assert(t[i] == field_text(r, k)[i - name.len() - 2]);
        }
    }
}

proof fn lemma_block_lines(r: RecordView, k: nat, x: Seq<char>)
    requires
        k <= 8,
        lacks(r.description, '\n'),
    ensures
        lines_of(block_upto(r, k) + x) == block_lines(r).take(k as int) + lines_of(x),
    decreases k,
{
    if k == 0 {
        assert(block_upto(r, 0) + x =~= x);
        assert(block_lines(r).take(0) + lines_of(x) =~= lines_of(x));
    } else {
        let t = kv_text(k - 1, field_text(r, k - 1));
        let x2 = t + seq!['\n'] + x;
        assert(block_upto(r, k) + x =~= block_upto(r, (k - 1) as nat) + x2);
        lemma_block_lines(r, (k - 1) as nat, x2);
        lemma_kv_line(r, k - 1);
        lemma_lines_cons(t, x);
        assert(block_lines(r).take(k - 1) + (seq![t] + lines_of(x)) =~= block_lines(r).take(
            k as int,
        ) + lines_of(x));
    }
}

/// The block after the first `k` lines of the block of `r`.
pub open spec fn partial_block(r: RecordView, k: int) -> Block {
    Block {
        slots: Seq::new(
            8,
            |j: int|
                if j < k {
                    Some(field_text(r, j))
                } else {
                    None
                },
        ),
        others: Seq::empty(),
    }
}

proof fn lemma_block_run(r: RecordView, st: TxtState, k: nat)
    requires
        k <= 8,
        st.block == empty_block(),
        lacks(r.description, '\n'),
    ensures
        run(Ok(st), block_lines(r).take(k as int)) == Ok::<TxtState, Seq<char>>(
            TxtState { records: st.records, block: partial_block(r, k as int) },
        ),
    decreases k,
{
    if k == 0 {
        assert(block_lines(r).take(0) =~= Seq::<Seq<char>>::empty());
        assert(partial_block(r, 0) =~= empty_block());
        assert(st =~= TxtState { records: st.records, block: partial_block(r, 0) });
    } else {
        let j = k - 1;
        lemma_block_run(r, st, (k - 1) as nat);
        assert(block_lines(r).take(k as int).drop_last() =~= block_lines(r).take(j));
        let t = kv_text(j, field_text(r, j));
        assert(block_lines(r).take(k as int).last() == t);
        lemma_kv_line(r, j);
        lemma_key_index(j);
        let b = partial_block(r, j);
        assert(b.slots[j] is None);
        assert(b.others.len() == 0);
        assert(Block { slots: b.slots.update(j, Some(field_text(r, j))), others: b.others }
            =~= partial_block(r, k as int));
    }
}

proof fn lemma_record_run(r: RecordView, st: TxtState)
    requires
        st.block == empty_block(),
        lacks(r.description, '\n'),
    ensures
        run(Ok(st), block_lines(r).push(Seq::empty())) == Ok::<TxtState, Seq<char>>(
            TxtState { records: st.records.push(r), block: empty_block() },
        ),
{
    lemma_block_run(r, st, 8);
    let ls = block_lines(r).push(Seq::empty());
    assert(ls.drop_last() =~= block_lines(r).take(8));
    let b = partial_block(r, 8);
    assert(b.slots[0] is Some);
    assert(b.slots =~= values_of(r));
    crate::fields::lemma_assemble_values(r, "missing field: "@);
    assert(trim(Seq::<char>::empty()) =~= Seq::<char>::empty());
}

proof fn lemma_run_concat(st: Result<TxtState, Seq<char>>, a: Seq<Seq<char>>, b: Seq<Seq<char>>)
    ensures
        run(st, a + b) == run(run(st, a), b),
    decreases b.len(),
{
    if b.len() == 0 {
        assert(a + b =~= a);
    } else {
        lemma_run_concat(st, a, b.drop_last());
        assert((a + b).drop_last() =~= a + b.drop_last());
        assert((a + b).last() == b.last());
    }
}

/// The lines of the text written for `rs`: each block followed by a blank line.
pub open spec fn all_lines(rs: Seq<RecordView>) -> Seq<Seq<char>>
    decreases rs.len(),
{
    if rs.len() == 0 {
        Seq::empty()
    } else {
        all_lines(rs.drop_last()) + block_lines(rs.last()).push(Seq::empty())
    }
}

proof fn lemma_all_run(rs: Seq<RecordView>)
    requires
        single_line(rs),
    ensures
        run(Ok(initial_state()), all_lines(rs)) == Ok::<TxtState, Seq<char>>(
            TxtState { records: rs, block: empty_block() },
        ),
    decreases rs.len(),
{
    if rs.len() == 0 {
        assert(rs =~= Seq::<RecordView>::empty());
    } else {
        let front = rs.drop_last();
        assert forall|i: int| 0 <= i < front.len() implies lacks(#[trigger] front[i].description, '\n') by {
            assert(lacks(rs[i].description, '\n'));
        }
        assert(lacks(rs[rs.len() - 1].description, '\n'));
        lemma_all_run(front);
        lemma_run_concat(
            Ok(initial_state()),
            all_lines(front),
            block_lines(rs.last()).push(Seq::empty()),
        );
        lemma_record_run(rs.last(), TxtState { records: front, block: empty_block() });
        assert(front.push(rs.last()) =~= rs);
    }
}

proof fn lemma_text_lines(rs: Seq<RecordView>, z: Seq<char>)
    requires
        rs.len() >= 1,
        single_line(rs),
    ensures
        lines_of(txt_text(rs) + z) == all_lines(rs.drop_last()) + block_lines(rs.last()) + lines_of(
            z,
        ),
    decreases rs.len(),
{
    assert(lacks(rs[rs.len() - 1].description, '\n'));
    if rs.len() == 1 {
        lemma_block_lines(rs[0], 8, z);
        assert(block_lines(rs[0]).take(8) =~= block_lines(rs[0]));
        assert(rs.drop_last() =~= Seq::<RecordView>::empty());
        assert(all_lines(rs.drop_last()) + block_lines(rs.last()) =~= block_lines(rs[0]));
    } else {
        let front = rs.drop_last();
        let last = rs.last();
        assert forall|i: int| 0 <= i < front.len() implies lacks(#[trigger] front[i].description, '\n') by {
            assert(lacks(rs[i].description, '\n'));
        }
        let z2 = Seq::<char>::empty() + seq!['\n'] + (block_of(last) + z);
        assert(txt_text(rs) + z =~= txt_text(front) + z2);
        lemma_text_lines(front, z2);
        lemma_lines_cons(Seq::empty(), block_of(last) + z);
        lemma_block_lines(last, 8, z);
        assert(block_lines(last).take(8) =~= block_lines(last));
        assert(all_lines(front.drop_last()) + block_lines(front.last()) + (seq![Seq::<char>::empty()]
            + (block_lines(last) + lines_of(z))) =~= all_lines(front) + block_lines(last)
            + lines_of(z));
    }
}

/// Writing records as key-value blocks and reading the text back gives the
/// same records in the same order, when no description holds a newline.
pub proof fn lemma_txt_roundtrip(rs: Seq<RecordView>)
    requires
        single_line(rs),
    ensures
        txt_decode(encode_utf8(txt_text(rs))) == Ok::<Seq<RecordView>, Seq<char>>(rs),
{
    let text = txt_text(rs);
    vstd::utf8::encode_utf8_valid_utf8(text);
    vstd::utf8::encode_utf8_decode_utf8(text);
    if rs.len() == 0 {
        assert(lines_of(text) =~= seq![Seq::<char>::empty()]);
        assert(seq![Seq::<char>::empty()].drop_last() =~= Seq::<Seq<char>>::empty());
        assert(trim(Seq::<char>::empty()) =~= Seq::<char>::empty());
        assert(rs =~= Seq::<RecordView>::empty());
    } else {
        lemma_text_lines(rs, Seq::empty());
        assert(text + Seq::<char>::empty() =~= text);
        assert(lines_of(Seq::<char>::empty()) =~= seq![Seq::<char>::empty()]);
        assert(all_lines(rs) =~= all_lines(rs.drop_last()) + block_lines(rs.last()) + seq![
            Seq::<char>::empty(),
        ]);
        lemma_all_run(rs);
    }
}

} // verus!

verus! {

/// A key that the open block already holds is refused, and the error names it.
pub proof fn lemma_txt_duplicate(b: Block, key: Seq<char>, value: Seq<char>)
    requires
        0 <= key_index(key) < 8 ==> b.slots[key_index(key)] is Some,
        key_index(key) >= 8 ==> b.others.contains(key),
    ensures
        add_field(b, key, value) == Err::<Block, Seq<char>>("duplicate field: "@ + key),
{
}

/// A block that holds the values written for `r` except the one of field
/// `m` fails when it is closed, and the error names field `m`.
pub proof fn lemma_txt_missing(r: RecordView, b: Block, m: int)
    requires
        0 <= m < 8,
        b.slots.len() == 8,
        forall|k: int| 0 <= k < 8 && k != m ==> #[trigger] b.slots[k] == values_of(r)[k],
        b.slots[m] is None,
    ensures
        close_block(b) == Err::<RecordView, Seq<char>>("missing field: "@ + field_name(m)),
{
    crate::fields::lemma_assemble_missing(r, b.slots, m, "missing field: "@);
}

} // verus!

verus! {

/// The block after the lines of fields before `k` of the block of `r`,
/// field `m`'s line left out.
pub open spec fn block_without(r: RecordView, m: int, k: int) -> Block {
    Block {
        slots: Seq::new(
            8,
            |j: int|
                if j < k && j != m {
                    Some(field_text(r, j))
                } else {
                    None
                },
        ),
        others: Seq::empty(),
    }
}

/// The lines of the block of `r` without the line of field `m`.
pub open spec fn lines_without(r: RecordView, m: int) -> Seq<Seq<char>> {
    block_lines(r).take(m) + block_lines(r).skip(m + 1)
}

proof fn lemma_run_after_gap(r: RecordView, st: TxtState, m: int, k: int)
    requires
        0 <= m < k <= 8,
        st.block == block_without(r, m, m + 1),
        lacks(r.description, '\n'),
    ensures
        run(Ok(st), block_lines(r).subrange(m + 1, k)) == Ok::<TxtState, Seq<char>>(
            TxtState { records: st.records, block: block_without(r, m, k) },
        ),
    decreases k - m,
{
    if k == m + 1 {
        assert(block_lines(r).subrange(m + 1, k) =~= Seq::<Seq<char>>::empty());
        assert(st =~= TxtState { records: st.records, block: block_without(r, m, k) });
    } else {
        let j = k - 1;
        lemma_run_after_gap(r, st, m, k - 1);
        assert(block_lines(r).subrange(m + 1, k).drop_last() =~= block_lines(r).subrange(m + 1, j));
        assert(block_lines(r).subrange(m + 1, k).last() == kv_text(j, field_text(r, j)));
        lemma_kv_line(r, j);
        lemma_key_index(j);
        let b = block_without(r, m, j);
        assert(b.slots[j] is None);
        assert(Block { slots: b.slots.update(j, Some(field_text(r, j))), others: b.others }
            =~= block_without(r, m, k));
    }
}

/// A block that gives every line written for `r` but the line of field `m`
/// is not empty, and closing it fails with the error naming field `m`.
pub proof fn lemma_txt_missing_lines(r: RecordView, m: int)
    requires
        0 <= m < 8,
        lacks(r.description, '\n'),
    ensures
        fold_lines(lines_without(r, m)) is Ok,
        !block_is_empty(fold_lines(lines_without(r, m))->Ok_0.block),
        close_block(fold_lines(lines_without(r, m))->Ok_0.block) == Err::<RecordView, Seq<char>>(
            "missing field: "@ + field_name(m),
        ),
{
    let init = initial_state();
    lemma_block_run(r, init, m as nat);
    let st = TxtState { records: init.records, block: partial_block(r, m) };
    assert(partial_block(r, m) =~= block_without(r, m, m + 1));
    lemma_run_after_gap(r, st, m, 8);
    assert(block_lines(r).skip(m + 1) =~= block_lines(r).subrange(m + 1, 8));
    lemma_run_concat(Ok(init), block_lines(r).take(m), block_lines(r).skip(m + 1));
    let b = block_without(r, m, 8);
    let other = if m == 0 {
        1int
    } else {
        0int
    };
    assert(b.slots[other] is Some);
    lemma_txt_missing(r, b, m);
}

} // verus!
