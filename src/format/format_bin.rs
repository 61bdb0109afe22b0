//! The binary layout: each record framed by a magic number and a body length.
use vstd::prelude::*;
use vstd::utf8::{decode_utf8, encode_utf8, valid_utf8};
use crate::bytes::{
    be_bytes, be_value, lemma_be_roundtrip, lemma_be_value_bound, lemma_pow256_facts,
    push_be, read_be,
};
use crate::error::{after, invalid_record, outcome_matches, ParserError};
use crate::parser::Parser;
use crate::storage::{RecordView, YPBankRecord, YPBankRecordStatus, YPBankRecordType, YPBankStorage};
use crate::text::{chars_of, extend_from, string_from_chars, utf8_to_string};

verus! {

/// Parser for the binary record layout.
pub struct BinParser {
    /// The records to write.
    pub storage: YPBankStorage,
}

/// The four bytes that open every record.
pub open spec fn magic() -> Seq<u8> {
    seq![0x59u8, 0x50u8, 0x42u8, 0x4Eu8]
}

/// The 64-bit pattern written for the amount: its negation for a withdrawal.
pub open spec fn amount_bits(r: RecordView) -> nat {
    if r.tx_type == YPBankRecordType::WITHDRAWAL && r.amount > 0 {
        (0x1_0000_0000_0000_0000 - r.amount) as nat
    } else {
        r.amount as nat
    }
}

/// The value of a 64-bit pattern read as a two's-complement signed number.
pub open spec fn signed_of(x: nat) -> int {
    if x < 0x8000_0000_0000_0000 {
        x as int
    } else {
        x - 0x1_0000_0000_0000_0000
    }
}

/// The magnitude of `v`.
pub open spec fn abs_of(v: int) -> nat {
    if v < 0 {
        (-v) as nat
    } else {
        v as nat
    }
}

/// The UTF-8 bytes of the description.
pub open spec fn desc_bytes(r: RecordView) -> Seq<u8> {
    encode_utf8(r.description)
}

/// The body of a record: fixed-width fields, then the description with its length.
pub open spec fn body_of(r: RecordView) -> Seq<u8> {
    be_bytes(r.tx_id as nat, 8) + seq![r.tx_type.spec_code()] + be_bytes(r.from_user_id as nat, 8)
        + be_bytes(r.to_user_id as nat, 8) + be_bytes(amount_bits(r), 8) + be_bytes(
        r.timestamp as nat,
        8,
    ) + seq![r.status.spec_code()] + be_bytes(desc_bytes(r).len(), 4) + desc_bytes(r)
}

/// One framed record: magic, body length, body.
pub open spec fn frame_of(r: RecordView) -> Seq<u8> {
    magic() + be_bytes(body_of(r).len(), 4) + body_of(r)
}

/// The body length of `r` fits the 32-bit length field.
pub open spec fn fits(r: RecordView) -> bool {
    desc_bytes(r).len() + 46 <= u32::MAX
}

/// The frames of all records, in order.
pub open spec fn encode_all(rs: Seq<RecordView>) -> Seq<u8>
    decreases rs.len(),
{
    if rs.len() == 0 {
        Seq::empty()
    } else {
        encode_all(rs.drop_last()) + frame_of(rs.last())
    }
}

/// `s` without one enclosing pair of double quotes, if it has one.
pub open spec fn unwrap_quotes(s: Seq<char>) -> Seq<char> {
    if s.len() >= 2 && s[0] == '"' && s.last() == '"' {
        s.subrange(1, s.len() - 1)
    } else {
        s
    }
}

/// The record that a body holds, or the first fault found in it.
pub open spec fn parse_body(b: Seq<u8>) -> Result<RecordView, Seq<char>> {
    if b.len() < 8 {
        Err("truncated field"@)
    } else if b.len() < 9 {
        Err("truncated TX_TYPE"@)
    } else if YPBankRecordType::spec_from_code(b[8]) is None {
        Err("invalid TX_TYPE"@)
    } else if b.len() < 41 {
        Err("truncated field"@)
    } else if b.len() < 42 {
        Err("truncated STATUS"@)
    } else if YPBankRecordStatus::spec_from_code(b[41]) is None {
        Err("invalid STATUS"@)
    } else if b.len() < 46 {
        Err("truncated field"@)
    } else {
        let dl = be_value(b.subrange(42, 46));
        if b.len() - 46 < dl {
            Err("DESCRIPTION length exceeds body"@)
        } else if !valid_utf8(b.subrange(46, 46 + dl as int)) {
            Err("DESCRIPTION is not valid UTF-8"@)
        } else {
            Ok(
                RecordView {
                    tx_id: be_value(b.subrange(0, 8)) as u64,
                    tx_type: YPBankRecordType::spec_from_code(b[8])->0,
                    from_user_id: be_value(b.subrange(9, 17)) as u64,
                    to_user_id: be_value(b.subrange(17, 25)) as u64,
                    amount: abs_of(signed_of(be_value(b.subrange(25, 33)))) as u64,
                    timestamp: be_value(b.subrange(33, 41)) as u64,
                    status: YPBankRecordStatus::spec_from_code(b[41])->0,
                    description: unwrap_quotes(decode_utf8(b.subrange(46, 46 + dl as int))),
                },
            )
        }
    }
}

/// The records of a binary stream, or the first fault. Fewer than four bytes
/// left where a record would start is a clean end.
pub open spec fn decode_all(b: Seq<u8>) -> Result<Seq<RecordView>, Seq<char>>
    decreases b.len(),
{
    if b.len() < 4 {
        Ok(Seq::empty())
    } else if b.subrange(0, 4) != magic() {
        Err("invalid record header"@)
    } else if b.len() < 8 {
        Err("truncated field"@)
    } else {
        let n = be_value(b.subrange(4, 8));
        if b.len() - 8 < n {
            Err("invalid record body"@)
        } else {
            match parse_body(b.subrange(8, 8 + n as int)) {
                Err(m) => Err(m),
                Ok(r) => after(seq![r], decode_all(b.subrange(8 + n as int, b.len() as int))),
            }
        }
    }
}

} // verus!

verus! {

/// Reads a big-endian `u32` at `pos`, moving past it.
fn read_u32_be(b: &[u8], pos: &mut usize) -> (r: Result<u32, ParserError>)
    requires
        *old(pos) <= b@.len(),
    ensures
        *old(pos) + 4 <= b@.len() ==> (r matches Ok(v) && v as nat == be_value(
            b@.subrange(*old(pos) as int, *old(pos) + 4),
        ) && *final(pos) == *old(pos) + 4),
        *old(pos) + 4 > b@.len() ==> (r matches Err(e) && e.is_invalid("truncated field"@)),
{
    if b.len() - *pos < 4 {
        return Err(invalid_record("truncated field"));
    }
    let v = read_be(b, *pos, 4);
    proof {
        lemma_be_value_bound(b@.subrange(*pos as int, *pos + 4));
        lemma_pow256_facts();
    }
    *pos = *pos + 4;
    Ok(v as u32)
}

/// Reads a big-endian `u64` at `pos`, moving past it.
fn read_u64_be(b: &[u8], pos: &mut usize) -> (r: Result<u64, ParserError>)
    requires
        *old(pos) <= b@.len(),
    ensures
        *old(pos) + 8 <= b@.len() ==> (r matches Ok(v) && v as nat == be_value(
            b@.subrange(*old(pos) as int, *old(pos) + 8),
        ) && *final(pos) == *old(pos) + 8),
        *old(pos) + 8 > b@.len() ==> (r matches Err(e) && e.is_invalid("truncated field"@)),
{
    if b.len() - *pos < 8 {
        return Err(invalid_record("truncated field"));
    }
    let v = read_be(b, *pos, 8);
    *pos = *pos + 8;
    Ok(v)
}

/// Reads a big-endian two's-complement `i64` at `pos`, moving past it.
fn read_i64_be(b: &[u8], pos: &mut usize) -> (r: Result<i64, ParserError>)
    requires
        *old(pos) <= b@.len(),
    ensures
        *old(pos) + 8 <= b@.len() ==> (r matches Ok(v) && v as int == signed_of(
            be_value(b@.subrange(*old(pos) as int, *old(pos) + 8)),
        ) && *final(pos) == *old(pos) + 8),
        *old(pos) + 8 > b@.len() ==> (r matches Err(e) && e.is_invalid("truncated field"@)),
{
    let x = match read_u64_be(b, pos) {
        Ok(x) => x,
        Err(e) => return Err(e),
    };
    if x < 0x8000_0000_0000_0000 {
        Ok(x as i64)
    } else {
        Ok(-((u64::MAX - x) as i64) - 1)
    }
}

/// The magnitude of `v`; defined for `i64::MIN` too.
fn unsigned_abs(v: i64) -> (r: u64)
    ensures
        r as nat == abs_of(v as int),
{
    if v >= 0 {
        v as u64
    } else {
        (-(v + 1)) as u64 + 1
    }
}

/// Reads the one-byte transaction type at `pos`, moving past it.
fn read_tx_type(b: &[u8], pos: &mut usize) -> (r: Result<YPBankRecordType, ParserError>)
    requires
        *old(pos) <= b@.len(),
    ensures
        *old(pos) < b@.len() ==> match YPBankRecordType::spec_from_code(b@[*old(pos) as int]) {
            Some(t) => r == Ok::<YPBankRecordType, ParserError>(t) && *final(pos) == *old(pos) + 1,
            None => (r matches Err(e) && e.is_invalid("invalid TX_TYPE"@)) && *final(pos) == *old(
                pos,
            ) + 1,
        },
        *old(pos) >= b@.len() ==> (r matches Err(e) && e.is_invalid("truncated TX_TYPE"@)),
{
    if *pos >= b.len() {
        return Err(invalid_record("truncated TX_TYPE"));
    }
    let byte = b[*pos];
    *pos = *pos + 1;
    match YPBankRecordType::from_code(byte) {
        Some(t) => Ok(t),
        None => Err(invalid_record("invalid TX_TYPE")),
    }
}

/// Reads the one-byte status at `pos`, moving past it.
fn read_status(b: &[u8], pos: &mut usize) -> (r: Result<YPBankRecordStatus, ParserError>)
    requires
        *old(pos) <= b@.len(),
    ensures
        *old(pos) < b@.len() ==> match YPBankRecordStatus::spec_from_code(b@[*old(pos) as int]) {
            Some(s) => r == Ok::<YPBankRecordStatus, ParserError>(s) && *final(pos) == *old(pos)
                + 1,
            None => (r matches Err(e) && e.is_invalid("invalid STATUS"@)) && *final(pos) == *old(
                pos,
            ) + 1,
        },
        *old(pos) >= b@.len() ==> (r matches Err(e) && e.is_invalid("truncated STATUS"@)),
{
    if *pos >= b.len() {
        return Err(invalid_record("truncated STATUS"));
    }
    let byte = b[*pos];
    *pos = *pos + 1;
    match YPBankRecordStatus::from_code(byte) {
        Some(s) => Ok(s),
        None => Err(invalid_record("invalid STATUS")),
    }
}

/// The description without one enclosing pair of double quotes.
fn strip_quote_pair(s: String) -> (r: String)
    ensures
        r@ == unwrap_quotes(s@),
{
    let cs = chars_of(s.as_str());
    let n = cs.len();
    if n >= 2 && cs[0] == '"' && cs[n - 1] == '"' {
        string_from_chars(&cs[1..n - 1])
    } else {
        s
    }
}

/// Parses one record body.
pub fn parse_record_body(body: &[u8]) -> (r: Result<YPBankRecord, ParserError>)
    ensures
        outcome_matches(r, parse_body(body@)),
{
    let mut pos: usize = 0;
    let tx_id = match read_u64_be(body, &mut pos) {
        Ok(v) => v,
        Err(e) => return Err(e),
    };
    let tx_type = match read_tx_type(body, &mut pos) {
        Ok(v) => v,
        Err(e) => return Err(e),
    };
    let from_user_id = match read_u64_be(body, &mut pos) {
        Ok(v) => v,
        Err(e) => return Err(e),
    };
    let to_user_id = match read_u64_be(body, &mut pos) {
        Ok(v) => v,
        Err(e) => return Err(e),
    };
    let signed_amount = match read_i64_be(body, &mut pos) {
        Ok(v) => v,
        Err(e) => return Err(e),
    };
    let amount = unsigned_abs(signed_amount);
    let timestamp = match read_u64_be(body, &mut pos) {
        Ok(v) => v,
        Err(e) => return Err(e),
    };
    let status = match read_status(body, &mut pos) {
        Ok(v) => v,
        Err(e) => return Err(e),
    };
    let desc_len = match read_u32_be(body, &mut pos) {
        Ok(v) => v as usize,
        Err(e) => return Err(e),
    };
    if body.len() - pos < desc_len {
        return Err(invalid_record("DESCRIPTION length exceeds body"));
    }
    let desc_bytes = vstd::slice::slice_to_vec(&body[pos..pos + desc_len]);
    let text = match utf8_to_string(desc_bytes) {
        Some(s) => s,
        None => return Err(invalid_record("DESCRIPTION is not valid UTF-8")),
    };
    let description = strip_quote_pair(text);
    Ok(
        YPBankRecord {
            tx_id,
            tx_type,
            from_user_id,
            to_user_id,
            amount,
            timestamp,
            status,
            description,
        },
    )
}

/// Serializes the body of one record.
pub fn serialize_record(record: &YPBankRecord) -> (r: Vec<u8>)
    requires
        fits(record@),
    ensures
        r@ == body_of(record@),
{
    let desc = record.description.as_str().as_bytes();
    let mut out: Vec<u8> = Vec::new();
    push_be(&mut out, record.tx_id, 8);
    out.push(record.tx_type.code());
    push_be(&mut out, record.from_user_id, 8);
    push_be(&mut out, record.to_user_id, 8);
    let bits: u64 = if record.tx_type == YPBankRecordType::WITHDRAWAL && record.amount > 0 {
        u64::MAX - record.amount + 1
    } else {
        record.amount
    };
    push_be(&mut out, bits, 8);
    push_be(&mut out, record.timestamp, 8);
    out.push(record.status.code());
    push_be(&mut out, desc.len() as u64, 4);
    extend_from(&mut out, desc);
    proof {
        assert(out@ =~= body_of(record@));
    }
    out
}

} // verus!

verus! {

/// Whether the four bytes at `pos` are the magic number.
fn has_magic(b: &[u8], pos: usize) -> (r: bool)
    requires
        pos + 4 <= b@.len(),
    ensures
        r == (b@.subrange(pos as int, pos + 4) == magic()),
{
    let r = b[pos] == 0x59 && b[pos + 1] == 0x50 && b[pos + 2] == 0x42 && b[pos + 3] == 0x4E;
    proof {
        let s = b@.subrange(pos as int, pos + 4);
        if r {
            assert(s =~= magic());
        } else {
            assert(s[0] != magic()[0] || s[1] != magic()[1] || s[2] != magic()[2] || s[3]
                != magic()[3]);
        }
    }
    r
}

/// All records fit the 32-bit length field.
pub open spec fn all_fit(rs: Seq<RecordView>) -> bool {
    forall|i: int| 0 <= i < rs.len() ==> #[trigger] fits(rs[i])
}

impl Parser for BinParser {
    open spec fn spec_decode(input: Seq<u8>) -> Result<Seq<RecordView>, Seq<char>> {
        decode_all(input)
    }

    open spec fn spec_encodable(records: Seq<RecordView>) -> bool {
        all_fit(records)
    }

    open spec fn spec_encode(records: Seq<RecordView>) -> Seq<u8> {
        encode_all(records)
    }

    open spec fn spec_encode_error() -> Seq<char> {
        "DESCRIPTION too long"@
    }

    open spec fn spec_records(&self) -> Seq<RecordView> {
        self.storage@
    }

    fn from_read(input: &[u8]) -> (r: Result<YPBankStorage, ParserError>) {
        let mut storage = YPBankStorage::new();
        let len = input.len();
        let mut pos: usize = 0;
        proof {
            assert(input@.subrange(0, len as int) =~= input@);
            assert(storage@ + Seq::<RecordView>::empty() =~= Seq::<RecordView>::empty());
        }
        loop
            invariant
                pos <= len,
                len == input@.len(),
                decode_all(input@) == after(
                    storage@,
                    decode_all(input@.subrange(pos as int, len as int)),
                ),
            ensures
                decode_all(input@) == Ok::<Seq<RecordView>, Seq<char>>(storage@),
            decreases len - pos,
        {
            let ghost rest = input@.subrange(pos as int, len as int);
            if len - pos < 4 {
                proof {
                    assert(storage@ + Seq::<RecordView>::empty() =~= storage@);
                }
                break;
            }
            proof {
                assert(rest.subrange(0, 4) =~= input@.subrange(pos as int, pos + 4));
            }
            if !has_magic(input, pos) {
                return Err(invalid_record("invalid record header"));
            }
            if len - pos < 8 {
                return Err(invalid_record("truncated field"));
            }
            let n = read_be(input, pos + 4, 4);
            proof {
                assert(rest.subrange(4, 8) =~= input@.subrange(pos + 4, pos + 8));
                lemma_be_value_bound(rest.subrange(4, 8));
                lemma_pow256_facts();
            }
            let n = n as usize;
            if len - pos - 8 < n {
                return Err(invalid_record("invalid record body"));
            }
            let body = &input[pos + 8..pos + 8 + n];
            proof {
                assert(rest.subrange(8, 8 + n as int) =~= body@);
                assert(rest.subrange(8 + n as int, rest.len() as int) =~= input@.subrange(
                    pos + 8 + n,
                    len as int,
                ));
            }
            let record = match parse_record_body(body) {
                Ok(r) => r,
                Err(e) => return Err(e),
            };
            let ghost before = storage@;
            storage.push(record);
            proof {
                let tail = decode_all(input@.subrange(pos + 8 + n, len as int));
                match tail {
                    Ok(rs) => {
                        assert(before + (seq![record@] + rs) =~= storage@ + rs);
                    },
                    Err(_) => {},
                }
            }
            pos = pos + 8 + n;
        }
        Ok(storage)
    }

    fn write_to(&self, out: &mut Vec<u8>) -> (r: Result<(), ParserError>) {
        let records = self.storage.records();
        let count = records.len();
        let ghost rs = self.storage@;
        let mut i: usize = 0;
        while i < count
            invariant
                count == records@.len(),
                rs == self.storage@,
                records@.map_values(|x: YPBankRecord| x@) == rs,
                i <= count,
                forall|j: int| 0 <= j < i ==> #[trigger] fits(rs[j]),
            decreases count - i,
        {
            let desc_len = records[i].description.as_str().as_bytes().len();
            proof {
                assert(rs[i as int] == records@[i as int]@);
            }
            if desc_len > u32::MAX as usize - 46 {
                proof {
                    assert(!fits(rs[i as int]));
                }
                return Err(invalid_record("DESCRIPTION too long"));
            }
            i = i + 1;
        }
        let mut i: usize = 0;
        proof {
            assert(rs.take(0) =~= Seq::<RecordView>::empty());
            assert(old(out)@ + Seq::<u8>::empty() =~= old(out)@);
        }
        while i < count
            invariant
                count == records@.len(),
                rs == self.storage@,
                records@.map_values(|x: YPBankRecord| x@) == rs,
                all_fit(rs),
                i <= count,
                out@ == old(out)@ + encode_all(rs.take(i as int)),
            decreases count - i,
        {
            proof {
                assert(rs[i as int] == records@[i as int]@);
                assert(fits(rs[i as int]));
            }
            let body = serialize_record(&records[i]);
            let ghost before = out@;
            out.push(0x59);
            out.push(0x50);
            out.push(0x42);
            out.push(0x4E);
            push_be(out, body.len() as u64, 4);
            extend_from(out, body.as_slice());
            proof {
                assert(rs.take(i + 1).drop_last() =~= rs.take(i as int));
                assert(out@ =~= before + frame_of(rs[i as int]));
            }
            i = i + 1;
        }
        proof {
            assert(rs.take(count as int) =~= rs);
        }
        Ok(())
    }

    fn from_storage(storage: YPBankStorage) -> (r: Self) {
        BinParser { storage }
    }
}

} // verus!

verus! {

/// What the binary layout gives back for `r`: the same record, with one
/// enclosing pair of quotes taken off the description.
pub open spec fn bin_normal(r: RecordView) -> RecordView {
    RecordView {
        tx_id: r.tx_id,
        tx_type: r.tx_type,
        from_user_id: r.from_user_id,
        to_user_id: r.to_user_id,
        amount: r.amount,
        timestamp: r.timestamp,
        status: r.status,
        description: unwrap_quotes(r.description),
    }
}

/// The amount field of the body of `r`.
pub open spec fn amount_field(r: RecordView) -> Seq<u8> {
    body_of(r).subrange(25, 33)
}

proof fn lemma_body_layout(r: RecordView)
    ensures
        body_of(r).len() == 46 + desc_bytes(r).len(),
        body_of(r).subrange(0, 8) == be_bytes(r.tx_id as nat, 8),
        body_of(r)[8] == r.tx_type.spec_code(),
        body_of(r).subrange(9, 17) == be_bytes(r.from_user_id as nat, 8),
        body_of(r).subrange(17, 25) == be_bytes(r.to_user_id as nat, 8),
        body_of(r).subrange(25, 33) == be_bytes(amount_bits(r), 8),
        body_of(r).subrange(33, 41) == be_bytes(r.timestamp as nat, 8),
        body_of(r)[41] == r.status.spec_code(),
        body_of(r).subrange(42, 46) == be_bytes(desc_bytes(r).len(), 4),
        body_of(r).subrange(46, 46 + desc_bytes(r).len() as int) == desc_bytes(r),
{
    crate::bytes::lemma_be_bytes_len(r.tx_id as nat, 8);
    crate::bytes::lemma_be_bytes_len(r.from_user_id as nat, 8);
    crate::bytes::lemma_be_bytes_len(r.to_user_id as nat, 8);
    crate::bytes::lemma_be_bytes_len(amount_bits(r), 8);
    crate::bytes::lemma_be_bytes_len(r.timestamp as nat, 8);
    crate::bytes::lemma_be_bytes_len(desc_bytes(r).len(), 4);
    let b = body_of(r);
    assert(b.subrange(0, 8) =~= be_bytes(r.tx_id as nat, 8));
    assert(b.subrange(9, 17) =~= be_bytes(r.from_user_id as nat, 8));
    assert(b.subrange(17, 25) =~= be_bytes(r.to_user_id as nat, 8));
    assert(b.subrange(25, 33) =~= be_bytes(amount_bits(r), 8));
    assert(b.subrange(33, 41) =~= be_bytes(r.timestamp as nat, 8));
    assert(b.subrange(42, 46) =~= be_bytes(desc_bytes(r).len(), 4));
    assert(b.subrange(46, 46 + desc_bytes(r).len() as int) =~= desc_bytes(r));
}

/// A withdrawal of `A` is written with the signed amount `-A`, any other
/// record with `+A`; either reads back as `A`.
pub proof fn lemma_amount_sign(r: RecordView)
    requires
        r.amount <= i64::MAX,
    ensures
        signed_of(be_value(amount_field(r))) == if r.tx_type == YPBankRecordType::WITHDRAWAL {
            -(r.amount as int)
        } else {
            r.amount as int
        },
        abs_of(signed_of(be_value(amount_field(r)))) == r.amount,
{
    lemma_body_layout(r);
    lemma_pow256_facts();
    lemma_be_roundtrip(amount_bits(r), 8);
}

/// A body written for `r` parses back to `r`, up to the quote pair of the description.
proof fn lemma_body_roundtrip(r: RecordView)
    requires
        fits(r),
        r.amount <= 0x8000_0000_0000_0000,
    ensures
        parse_body(body_of(r)) == Ok::<RecordView, Seq<char>>(bin_normal(r)),
{
    lemma_body_layout(r);
    lemma_pow256_facts();
    lemma_be_roundtrip(r.tx_id as nat, 8);
    lemma_be_roundtrip(r.from_user_id as nat, 8);
    lemma_be_roundtrip(r.to_user_id as nat, 8);
    lemma_be_roundtrip(amount_bits(r), 8);
    lemma_be_roundtrip(r.timestamp as nat, 8);
    lemma_be_roundtrip(desc_bytes(r).len(), 4);
    r.tx_type.lemma_name_code();
    r.status.lemma_name_code();
    vstd::utf8::encode_utf8_valid_utf8(r.description);
    vstd::utf8::encode_utf8_decode_utf8(r.description);
}

/// One frame in front of `rest` decodes to its record followed by what `rest` decodes to.
proof fn lemma_decode_frame(r: RecordView, rest: Seq<u8>)
    requires
        fits(r),
        r.amount <= 0x8000_0000_0000_0000,
    ensures
        decode_all(frame_of(r) + rest) == after(seq![bin_normal(r)], decode_all(rest)),
{
    let body = body_of(r);
    let b = frame_of(r) + rest;
    lemma_body_layout(r);
    lemma_pow256_facts();
    lemma_be_roundtrip(body.len(), 4);
    lemma_body_roundtrip(r);
    assert(b.subrange(0, 4) =~= magic());
    assert(b.subrange(4, 8) =~= be_bytes(body.len(), 4));
    assert(b.subrange(8, 8 + body.len() as int) =~= body);
    assert(b.subrange(8 + body.len() as int, b.len() as int) =~= rest);
}

proof fn lemma_encode_front(rs: Seq<RecordView>)
    requires
        rs.len() > 0,
    ensures
        encode_all(rs) == frame_of(rs[0]) + encode_all(rs.drop_first()),
    decreases rs.len(),
{
    if rs.len() > 1 {
        lemma_encode_front(rs.drop_last());
        assert(rs.drop_last().drop_first() =~= rs.drop_first().drop_last());
        assert(encode_all(rs) =~= frame_of(rs[0]) + encode_all(rs.drop_first()));
    } else {
        assert(rs.drop_first() =~= Seq::<RecordView>::empty());
        assert(rs.drop_last() =~= Seq::<RecordView>::empty());
        assert(encode_all(rs) =~= frame_of(rs[0]) + encode_all(rs.drop_first()));
    }
}

/// Writing records and reading the bytes back gives the same records, in the
/// same order, each description without one enclosing pair of quotes.
pub proof fn lemma_bin_roundtrip(rs: Seq<RecordView>)
    requires
        all_fit(rs),
        forall|i: int| 0 <= i < rs.len() ==> #[trigger] rs[i].amount <= 0x8000_0000_0000_0000,
    ensures
        decode_all(encode_all(rs)) == Ok::<Seq<RecordView>, Seq<char>>(
            rs.map_values(|r: RecordView| bin_normal(r)),
        ),
    decreases rs.len(),
{
    if rs.len() == 0 {
        assert(rs.map_values(|r: RecordView| bin_normal(r)) =~= Seq::<RecordView>::empty());
    } else {
        let tail = rs.drop_first();
        assert(fits(rs[0]));
        assert(rs[0].amount <= 0x8000_0000_0000_0000);
        assert forall|i: int| 0 <= i < tail.len() implies #[trigger] fits(tail[i]) by {
            assert(fits(rs[i + 1]));
        }
        assert forall|i: int| 0 <= i < tail.len() implies #[trigger] tail[i].amount
            <= 0x8000_0000_0000_0000 by {
            assert(rs[i + 1].amount <= 0x8000_0000_0000_0000);
        }
        lemma_bin_roundtrip(tail);
        lemma_encode_front(rs);
        lemma_decode_frame(rs[0], encode_all(tail));
        let mapped = rs.map_values(|r: RecordView| bin_normal(r));
        let mapped_tail = tail.map_values(|r: RecordView| bin_normal(r));
        assert(seq![bin_normal(rs[0])] + mapped_tail =~= mapped) by {
            assert forall|i: int| 0 <= i < mapped.len() implies #[trigger] mapped[i] == (seq![
                bin_normal(rs[0]),
            ] + mapped_tail)[i] by {
                if i > 0 {
                    assert(mapped_tail[i - 1] == bin_normal(tail[i - 1]));
                }
            }
        }
    }
}

/// An empty stream holds no records; a stream whose first four bytes are not
/// the magic number is rejected with a header error.
pub proof fn lemma_bin_stream_start(b: Seq<u8>)
    ensures
        b.len() == 0 ==> decode_all(b) == Ok::<Seq<RecordView>, Seq<char>>(Seq::empty()),
        b.len() >= 4 && b.subrange(0, 4) != magic() ==> decode_all(b) == Err::<
            Seq<RecordView>,
            Seq<char>,
        >("invalid record header"@),
{
}

} // verus!
