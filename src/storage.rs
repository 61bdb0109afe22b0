//! The record model: one transaction, and an ordered store of them.
use vstd::prelude::*;

verus! {

/// Possible transaction types for a bank record.
#[allow(non_camel_case_types)]
#[derive(Debug, Clone, Copy, PartialEq, Eq, Structural)]
pub enum YPBankRecordType {
    /// Funds added to an account.
    DEPOSIT,
    /// Funds moved between two accounts.
    TRANSFER,
    /// Funds removed from an account.
    WITHDRAWAL,
}

/// Possible processing statuses for a bank record.
#[allow(non_camel_case_types)]
#[derive(Debug, Clone, Copy, PartialEq, Eq, Structural)]
pub enum YPBankRecordStatus {
    /// Transaction completed successfully.
    SUCCESS,
    /// Transaction failed.
    FAILURE,
    /// Transaction is still being processed.
    PENDING,
}

impl YPBankRecordType {
    /// The name under which the text layouts write this type.
    pub open spec fn spec_name(self) -> Seq<char> {
        match self {
            YPBankRecordType::DEPOSIT => "DEPOSIT"@,
            YPBankRecordType::TRANSFER => "TRANSFER"@,
            YPBankRecordType::WITHDRAWAL => "WITHDRAWAL"@,
        }
    }

    /// The type whose name is exactly `s`, if any.
    pub open spec fn spec_from_name(s: Seq<char>) -> Option<Self> {
        if s == "DEPOSIT"@ {
            Some(YPBankRecordType::DEPOSIT)
        } else if s == "TRANSFER"@ {
            Some(YPBankRecordType::TRANSFER)
        } else if s == "WITHDRAWAL"@ {
            Some(YPBankRecordType::WITHDRAWAL)
        } else {
            None
        }
    }

    /// The byte that the binary layout writes for this type.
    pub open spec fn spec_code(self) -> u8 {
        match self {
            YPBankRecordType::DEPOSIT => 0,
            YPBankRecordType::TRANSFER => 1,
            YPBankRecordType::WITHDRAWAL => 2,
        }
    }

    /// The type written as byte `b`, if any.
    pub open spec fn spec_from_code(b: u8) -> Option<Self> {
        if b == 0 {
            Some(YPBankRecordType::DEPOSIT)
        } else if b == 1 {
            Some(YPBankRecordType::TRANSFER)
        } else if b == 2 {
            Some(YPBankRecordType::WITHDRAWAL)
        } else {
            None
        }
    }

    /// The name of this value in the text layouts.
    pub fn name(&self) -> (r: &'static str)
        ensures
            r@ == self.spec_name(),
    {
        match self {
            YPBankRecordType::DEPOSIT => "DEPOSIT",
            YPBankRecordType::TRANSFER => "TRANSFER",
            YPBankRecordType::WITHDRAWAL => "WITHDRAWAL",
        }
    }

    /// The value whose name is exactly `s`.
    pub fn from_name(s: &[char]) -> (r: Option<Self>)
        ensures
            r == Self::spec_from_name(s@),
    {
        if crate::text::eq_str(s, "DEPOSIT") {
            Some(YPBankRecordType::DEPOSIT)
        } else if crate::text::eq_str(s, "TRANSFER") {
            Some(YPBankRecordType::TRANSFER)
        } else if crate::text::eq_str(s, "WITHDRAWAL") {
            Some(YPBankRecordType::WITHDRAWAL)
        } else {
            None
        }
    }

    /// The byte of this value in the binary layout.
    pub fn code(&self) -> (r: u8)
        ensures
            r == self.spec_code(),
    {
        match self {
            YPBankRecordType::DEPOSIT => 0,
            YPBankRecordType::TRANSFER => 1,
            YPBankRecordType::WITHDRAWAL => 2,
        }
    }

    /// The value written as byte `b`.
    pub fn from_code(b: u8) -> (r: Option<Self>)
        ensures
            r == Self::spec_from_code(b),
    {
        match b {
            0 => Some(YPBankRecordType::DEPOSIT),
            1 => Some(YPBankRecordType::TRANSFER),
            2 => Some(YPBankRecordType::WITHDRAWAL),
            _ => None,
        }
    }

    /// Each type is read back from its own name and its own byte.
    pub proof fn lemma_name_code(self)
        ensures
            Self::spec_from_name(self.spec_name()) == Some(self),
            Self::spec_from_code(self.spec_code()) == Some(self),
    {
        reveal_strlit("DEPOSIT");
        reveal_strlit("TRANSFER");
        reveal_strlit("WITHDRAWAL");
        assert("DEPOSIT"@[0] != "TRANSFER"@[0]);
        assert("DEPOSIT"@[0] != "WITHDRAWAL"@[0]);
        assert("TRANSFER"@[0] != "WITHDRAWAL"@[0]);
    }

    /// A type name is made of capital letters and underscores only.
    pub proof fn lemma_name_word(self)
        ensures
            crate::text::is_word(self.spec_name()),
    {
        reveal_strlit("DEPOSIT");
        reveal_strlit("TRANSFER");
        reveal_strlit("WITHDRAWAL");
        let s = self.spec_name();
        assert forall|i: int| 0 <= i < s.len() implies #[trigger] crate::text::is_word_char(s[i]) by {
            assert(0 <= i < 10);
        }
    }
}

impl YPBankRecordStatus {
    /// The name under which the text layouts write this status.
    pub open spec fn spec_name(self) -> Seq<char> {
        match self {
            YPBankRecordStatus::SUCCESS => "SUCCESS"@,
            YPBankRecordStatus::FAILURE => "FAILURE"@,
            YPBankRecordStatus::PENDING => "PENDING"@,
        }
    }

    /// The status whose name is exactly `s`, if any.
    pub open spec fn spec_from_name(s: Seq<char>) -> Option<Self> {
        if s == "SUCCESS"@ {
            Some(YPBankRecordStatus::SUCCESS)
        } else if s == "FAILURE"@ {
            Some(YPBankRecordStatus::FAILURE)
        } else if s == "PENDING"@ {
            Some(YPBankRecordStatus::PENDING)
        } else {
            None
        }
    }

    /// The byte that the binary layout writes for this status.
    pub open spec fn spec_code(self) -> u8 {
        match self {
            YPBankRecordStatus::SUCCESS => 0,
            YPBankRecordStatus::FAILURE => 1,
            YPBankRecordStatus::PENDING => 2,
        }
    }

    /// The status written as byte `b`, if any.
    pub open spec fn spec_from_code(b: u8) -> Option<Self> {
        if b == 0 {
            Some(YPBankRecordStatus::SUCCESS)
        } else if b == 1 {
            Some(YPBankRecordStatus::FAILURE)
        } else if b == 2 {
            Some(YPBankRecordStatus::PENDING)
        } else {
            None
        }
    }

    /// The name of this value in the text layouts.
    pub fn name(&self) -> (r: &'static str)
        ensures
            r@ == self.spec_name(),
    {
        match self {
            YPBankRecordStatus::SUCCESS => "SUCCESS",
            YPBankRecordStatus::FAILURE => "FAILURE",
            YPBankRecordStatus::PENDING => "PENDING",
        }
    }

    /// The value whose name is exactly `s`.
    pub fn from_name(s: &[char]) -> (r: Option<Self>)
        ensures
            r == Self::spec_from_name(s@),
    {
        if crate::text::eq_str(s, "SUCCESS") {
            Some(YPBankRecordStatus::SUCCESS)
        } else if crate::text::eq_str(s, "FAILURE") {
            Some(YPBankRecordStatus::FAILURE)
        } else if crate::text::eq_str(s, "PENDING") {
            Some(YPBankRecordStatus::PENDING)
        } else {
            None
        }
    }

    /// The byte of this value in the binary layout.
    pub fn code(&self) -> (r: u8)
        ensures
            r == self.spec_code(),
    {
        match self {
            YPBankRecordStatus::SUCCESS => 0,
            YPBankRecordStatus::FAILURE => 1,
            YPBankRecordStatus::PENDING => 2,
        }
    }

    /// The value written as byte `b`.
    pub fn from_code(b: u8) -> (r: Option<Self>)
        ensures
            r == Self::spec_from_code(b),
    {
        match b {
            0 => Some(YPBankRecordStatus::SUCCESS),
            1 => Some(YPBankRecordStatus::FAILURE),
            2 => Some(YPBankRecordStatus::PENDING),
            _ => None,
        }
    }

    /// Each status is read back from its own name and its own byte.
    pub proof fn lemma_name_code(self)
        ensures
            Self::spec_from_name(self.spec_name()) == Some(self),
            Self::spec_from_code(self.spec_code()) == Some(self),
    {
        reveal_strlit("SUCCESS");
        reveal_strlit("FAILURE");
        reveal_strlit("PENDING");
        assert("SUCCESS"@[0] != "FAILURE"@[0]);
        assert("SUCCESS"@[0] != "PENDING"@[0]);
        assert("FAILURE"@[0] != "PENDING"@[0]);
    }

    /// A status name is made of capital letters only.
    pub proof fn lemma_name_word(self)
        ensures
            crate::text::is_word(self.spec_name()),
    {
        reveal_strlit("SUCCESS");
        reveal_strlit("FAILURE");
        reveal_strlit("PENDING");
        let s = self.spec_name();
        assert forall|i: int| 0 <= i < s.len() implies #[trigger] crate::text::is_word_char(s[i]) by {
            assert(0 <= i < 7);
        }
    }
}

/// A description attached to a transaction record.
pub type Description = String;

/// One transaction.
#[derive(Debug, Clone)]
pub struct YPBankRecord {
    /// Transaction identifier.
    pub tx_id: u64,
    /// Type of the transaction.
    pub tx_type: YPBankRecordType,
    /// Account sending the funds.
    pub from_user_id: u64,
    /// Account receiving the funds.
    pub to_user_id: u64,
    /// Amount in the smallest currency unit; the sign is never stored.
    pub amount: u64,
    /// Unix time of the transaction, in seconds.
    pub timestamp: u64,
    /// Processing status.
    pub status: YPBankRecordStatus,
    /// Free text, stored without any quoting.
    pub description: Description,
}

/// The mathematical value of a record: its fields, the description as characters.
pub struct RecordView {
    pub tx_id: u64,
    pub tx_type: YPBankRecordType,
    pub from_user_id: u64,
    pub to_user_id: u64,
    pub amount: u64,
    pub timestamp: u64,
    pub status: YPBankRecordStatus,
    pub description: Seq<char>,
}

impl View for YPBankRecord {
    type V = RecordView;

    open spec fn view(&self) -> RecordView {
        RecordView {
            tx_id: self.tx_id,
            tx_type: self.tx_type,
            from_user_id: self.from_user_id,
            to_user_id: self.to_user_id,
            amount: self.amount,
            timestamp: self.timestamp,
            status: self.status,
            description: self.description@,
        }
    }
}

impl PartialEq for YPBankRecord {
    fn eq(&self, o: &YPBankRecord) -> (r: bool) {
        self.tx_id == o.tx_id && self.tx_type == o.tx_type && self.from_user_id == o.from_user_id
            && self.to_user_id == o.to_user_id && self.amount == o.amount && self.timestamp
            == o.timestamp && self.status == o.status && self.description == o.description
    }
}

impl vstd::std_specs::cmp::PartialEqSpecImpl for YPBankRecord {
    open spec fn obeys_eq_spec() -> bool {
        true
    }

    open spec fn eq_spec(&self, o: &YPBankRecord) -> bool {
        self@ == o@
    }
}

/// Every record of `a` occurs in `b`; order and repetition do not matter.
pub open spec fn contained(a: Seq<RecordView>, b: Seq<RecordView>) -> bool {
    forall|i: int| 0 <= i < a.len() ==> b.contains(#[trigger] a[i])
}

/// Containment ignores order and extra records in the second store, and an
/// empty second store contains nothing.
pub proof fn lemma_containment(r1: RecordView, r2: RecordView, r3: RecordView)
    ensures
        contained(seq![r1, r2], seq![r2, r1, r3]),
        !contained(seq![r1], Seq::empty()),
{
    let b = seq![r2, r1, r3];
    assert(b[1] == r1);
    assert(b[0] == r2);
    let a = seq![r1];
    assert(a[0] == r1);
}

/// An ordered collection of records; insertion order is kept.
pub struct YPBankStorage {
    records: Vec<YPBankRecord>,
}

impl View for YPBankStorage {
    type V = Seq<RecordView>;

    closed spec fn view(&self) -> Seq<RecordView> {
        self.records@.map_values(|r: YPBankRecord| r@)
    }
}

impl YPBankStorage {
    /// Creates an empty store.
    pub fn new() -> (r: Self)
        ensures
            r@ == Seq::<RecordView>::empty(),
    {
        YPBankStorage { records: Vec::new() }
    }

    /// All records, in insertion order.
    pub fn records(&self) -> (r: &[YPBankRecord])
        ensures
            r@.map_values(|x: YPBankRecord| x@) == self@,
    {
        self.records.as_slice()
    }

    /// The record at `index`, if there is one.
    pub fn get(&self, index: usize) -> (r: Option<&YPBankRecord>)
        ensures
            index < self@.len() ==> (r matches Some(x) && x@ == self@[index as int]),
            index >= self@.len() ==> r is None,
    {
        if index < self.records.len() {
            Some(&self.records[index])
        } else {
            None
        }
    }

    /// Appends `record` after the records already held.
    pub fn push(&mut self, record: YPBankRecord)
        ensures
            final(self)@ == old(self)@.push(record@),
    {
        self.records.push(record);
        proof {
            assert(self@ =~= old(self)@.push(record@));
        }
    }

    /// Whether some held record equals `record`.
    pub fn contains_record(&self, record: &YPBankRecord) -> (r: bool)
        ensures
            r == self@.contains(record@),
    {
        let n = self.records.len();
        let mut j: usize = 0;
        while j < n
            invariant
                n == self.records@.len(),
                j <= n,
                forall|k: int| 0 <= k < j ==> #[trigger] self@[k] != record@,
            decreases n - j,
        {
            if self.records[j] == *record {
                proof {
                    assert(self@[j as int] == record@);
                }
                return true;
            }
            proof {
                assert(self@[j as int] == self.records@[j as int]@);
            }
            j = j + 1;
        }
        false
    }

    /// Whether every record held here also occurs in `other`, in any order
    /// and however often.
    pub fn is_contained_in(&self, other: &YPBankStorage) -> (r: bool)
        ensures
            r == contained(self@, other@),
    {
        let n = self.records.len();
        let mut i: usize = 0;
        while i < n
            invariant
                n == self.records@.len(),
                i <= n,
                forall|k: int| 0 <= k < i ==> other@.contains(#[trigger] self@[k]),
            decreases n - i,
        {
            proof {
                assert(self@[i as int] == self.records@[i as int]@);
            }
            if !other.contains_record(&self.records[i]) {
                return false;
            }
            i = i + 1;
        }
        true
    }
}

} // verus!
