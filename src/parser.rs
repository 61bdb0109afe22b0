//! The contract that every codec meets.
use vstd::prelude::*;
use crate::error::{outcome_matches, CliError, ParserError};
use crate::format::format_bin::BinParser;
use crate::format::format_csv::CsvParser;
use crate::format::format_txt::TxtParser;
use crate::storage::{RecordView, YPBankStorage};
use crate::text::{chars_of, eq_str};

verus! {

/// A layout that reads bytes into a store and writes a store as bytes.
pub trait Parser: Sized {
    /// What reading `input` gives: the records in order, or the message of the first fault.
    spec fn spec_decode(input: Seq<u8>) -> Result<Seq<RecordView>, Seq<char>>;

    /// Whether the layout can hold all of `records`.
    spec fn spec_encodable(records: Seq<RecordView>) -> bool;

    /// The bytes that writing `records` produces.
    spec fn spec_encode(records: Seq<RecordView>) -> Seq<u8>;

    /// The message of the error reported when `records` cannot be written.
    spec fn spec_encode_error() -> Seq<char>;

    /// The records that this codec writes.
    spec fn spec_records(&self) -> Seq<RecordView>;

    /// Reads every record of `input`.
    fn from_read(input: &[u8]) -> (r: Result<YPBankStorage, ParserError>)
        ensures
            outcome_matches(r, Self::spec_decode(input@)),
    ;

    /// Appends the encoding of the held records to `out`.
    fn write_to(&self, out: &mut Vec<u8>) -> (r: Result<(), ParserError>)
        ensures
            Self::spec_encodable(self.spec_records()) ==> r is Ok && final(out)@ == old(out)@
                + Self::spec_encode(self.spec_records()),
            !Self::spec_encodable(self.spec_records()) ==> (r matches Err(e) && e.is_invalid(
                Self::spec_encode_error(),
            )) && final(out)@ == old(out)@,
    ;

    /// A codec that writes the records of `storage`.
    fn from_storage(storage: YPBankStorage) -> (r: Self)
        ensures
            r.spec_records() == storage@,
    ;
}

} // verus!

verus! {

/// The three layouts, chosen by name at run time.
#[derive(Debug, Clone, Copy, PartialEq, Eq, Structural)]
pub enum Format {
    Bin,
    Csv,
    Txt,
}

impl Format {
    /// The layout called `name`: `bin`, `csv` or `txt`.
    pub open spec fn spec_from_name(name: Seq<char>) -> Option<Format> {
        if name == "bin"@ {
            Some(Format::Bin)
        } else if name == "csv"@ {
            Some(Format::Csv)
        } else if name == "txt"@ {
            Some(Format::Txt)
        } else {
            None
        }
    }

    /// What reading `input` in this layout gives.
    pub open spec fn spec_decode(self, input: Seq<u8>) -> Result<Seq<RecordView>, Seq<char>> {
        match self {
            Format::Bin => BinParser::spec_decode(input),
            Format::Csv => CsvParser::spec_decode(input),
            Format::Txt => TxtParser::spec_decode(input),
        }
    }

    /// Whether this layout can hold all of `records`.
    pub open spec fn spec_encodable(self, records: Seq<RecordView>) -> bool {
        match self {
            Format::Bin => BinParser::spec_encodable(records),
            Format::Csv => CsvParser::spec_encodable(records),
            Format::Txt => TxtParser::spec_encodable(records),
        }
    }

    /// The bytes of `records` in this layout.
    pub open spec fn spec_encode(self, records: Seq<RecordView>) -> Seq<u8> {
        match self {
            Format::Bin => BinParser::spec_encode(records),
            Format::Csv => CsvParser::spec_encode(records),
            Format::Txt => TxtParser::spec_encode(records),
        }
    }

    /// The message reported when `records` cannot be written.
    pub open spec fn spec_encode_error(self) -> Seq<char> {
        match self {
            Format::Bin => BinParser::spec_encode_error(),
            Format::Csv => CsvParser::spec_encode_error(),
            Format::Txt => TxtParser::spec_encode_error(),
        }
    }

    /// The layout called `name`, if any.
    pub fn from_name(name: &str) -> (r: Option<Format>)
        ensures
            r == Self::spec_from_name(name@),
    {
        let cs = chars_of(name);
        if eq_str(cs.as_slice(), "bin") {
            Some(Format::Bin)
        } else if eq_str(cs.as_slice(), "csv") {
            Some(Format::Csv)
        } else if eq_str(cs.as_slice(), "txt") {
            Some(Format::Txt)
        } else {
            None
        }
    }

    /// Reads every record of `input` in this layout.
    pub fn decode(&self, input: &[u8]) -> (r: Result<YPBankStorage, ParserError>)
        ensures
            outcome_matches(r, self.spec_decode(input@)),
    {
        match self {
            Format::Bin => BinParser::from_read(input),
            Format::Csv => CsvParser::from_read(input),
            Format::Txt => TxtParser::from_read(input),
        }
    }

    /// Appends the records of `storage`, written in this layout, to `out`.
    pub fn encode(&self, storage: YPBankStorage, out: &mut Vec<u8>) -> (r: Result<(), ParserError>)
        ensures
            self.spec_encodable(storage@) ==> r is Ok && final(out)@ == old(out)@ + self.spec_encode(
                storage@,
            ),
            !self.spec_encodable(storage@) ==> (r matches Err(e) && e.is_invalid(
                self.spec_encode_error(),
            )) && final(out)@ == old(out)@,
    {
        match self {
            Format::Bin => BinParser::from_storage(storage).write_to(out),
            Format::Csv => CsvParser::from_storage(storage).write_to(out),
            Format::Txt => TxtParser::from_storage(storage).write_to(out),
        }
    }
}

/// Reads `input` in the layout called `format`.
pub fn read_format(input: &[u8], format: &str) -> (r: Result<YPBankStorage, CliError>)
    ensures
        match Format::spec_from_name(format@) {
            None => r matches Err(CliError::InvalidFormat { name }) && name@ == format@,
            Some(f) => match f.spec_decode(input@) {
                Ok(rs) => r matches Ok(s) && s@ == rs,
                Err(m) => r matches Err(CliError::Parser(e)) && e.is_invalid(m),
            },
        },
{
    let f = match Format::from_name(format) {
        Some(f) => f,
        None => return Err(CliError::InvalidFormat { name: format.to_string() }),
    };
    match f.decode(input) {
        Ok(s) => Ok(s),
        Err(e) => Err(CliError::Parser(e)),
    }
}

/// Writes the records of `storage` in the layout called `format`.
pub fn write_format(storage: YPBankStorage, format: &str) -> (r: Result<Vec<u8>, CliError>)
    ensures
        match Format::spec_from_name(format@) {
            None => r matches Err(CliError::InvalidFormat { name }) && name@ == format@,
            Some(f) => if f.spec_encodable(storage@) {
                r matches Ok(b) && b@ == f.spec_encode(storage@)
            } else {
                r matches Err(CliError::Parser(e)) && e.is_invalid(f.spec_encode_error())
            },
        },
{
    let f = match Format::from_name(format) {
        Some(f) => f,
        None => return Err(CliError::InvalidFormat { name: format.to_string() }),
    };
    let mut out: Vec<u8> = Vec::new();
    match f.encode(storage, &mut out) {
        Ok(()) => {
            proof {
                assert(out@ =~= f.spec_encode(storage@));
            }
            Ok(out)
        },
        Err(e) => Err(CliError::Parser(e)),
    }
}

} // verus!
