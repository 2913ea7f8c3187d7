//! Blocks, their canonical encoding, and the check that a block was mined
//! as it claims.

use crate::digest::{hash_bytes, prefixed_digest};
use crate::encoding::{decimal_text, push_decimal, push_transaction, transactions_text};
use crate::error::LedgerError;
use crate::transaction::{Transaction, TransactionView};
use vstd::prelude::*;
use vstd::string::{StrSliceExecFns, StringExecFns};

verus! {

/// The highest difficulty that a block may declare: a hash has 64 digits.
pub const MAX_DIFFICULTY: u32 = 64;

/// A block: the hash of its predecessor, its transactions, the difficulty
/// it was mined at, the nonce that was found, and its own hash.
#[derive(Debug)]
pub struct Block {
    pub difficulty: u32,
    pub hash: String,
    pub nonce: u64,
    pub predecessor: String,
    pub transactions: Vec<Transaction>,
}

/// What a block is in contracts.
pub struct BlockView {
    pub difficulty: u32,
    pub hash: Seq<char>,
    pub nonce: u64,
    pub predecessor: Seq<char>,
    pub transactions: Seq<TransactionView>,
}

/// The views of a list of transactions.
pub open spec fn transaction_views(items: Seq<Transaction>) -> Seq<TransactionView> {
    Seq::new(items.len(), |i: int| items[i]@)
}

impl View for Block {
    type V = BlockView;

    open spec fn view(&self) -> BlockView {
        BlockView {
            difficulty: self.difficulty,
            hash: self.hash@,
            nonce: self.nonce,
            predecessor: self.predecessor@,
            transactions: transaction_views(self.transactions@),
        }
    }
}

/// Whether `hash` starts with `0x` followed by `difficulty` zeroes.
pub open spec fn has_leading_zeroes(hash: Seq<char>, difficulty: u32) -> bool {
    &&& hash.len() >= 2 + difficulty
    &&& hash[0] == '0'
    &&& hash[1] == 'x'
    &&& forall|i: int| 2 <= i < 2 + difficulty ==> hash[i] == '0'
}

impl BlockView {
    /// The canonical text of the block:
    /// `["<predecessor>",[<transactions>],<difficulty>,<nonce>]`.
    pub open spec fn canonical_text(self) -> Seq<char> {
        "[\""@ + self.predecessor + "\",["@ + transactions_text(self.transactions) + "],"@
            + decimal_text(self.difficulty as nat) + ","@ + decimal_text(self.nonce as nat)
            + "]"@
    }

    /// The canonical encoding: the bytes of the canonical text.
    pub open spec fn canonical_bytes(self) -> Seq<u8> {
        vstd::utf8::encode_utf8(self.canonical_text())
    }

    /// The hash that the block ought to carry.
    pub open spec fn canonical_hash(self) -> Seq<char> {
        prefixed_digest(self.canonical_bytes())
    }

    /// What the check of a block against a recomputed hash reports.
    pub open spec fn check_against(self, computed: Seq<char>) -> Result<(), LedgerError> {
        if self.hash != computed {
            Err(LedgerError::InvalidHash)
        } else if self.difficulty > MAX_DIFFICULTY {
            Err(LedgerError::DifficultyTooHigh)
        } else if !has_leading_zeroes(computed, self.difficulty) {
            Err(LedgerError::LeadingZeroesMismatch)
        } else {
            Ok(())
        }
    }

    /// A block validates when it carries the hash of its canonical
    /// encoding, its difficulty is at most 64, and the hash starts with as
    /// many zeroes as the difficulty asks for.
    pub open spec fn validates(self) -> bool {
        self.check_against(self.canonical_hash()) is Ok
    }
}

/// A block that validates carries the hash of its canonical encoding.
pub proof fn lemma_valid_block_carries_its_hash(block: BlockView)
    ensures
        block.validates() ==> block.canonical_hash() == block.hash,
{
}

/// Round trip of the canonical encoding: among the blocks whose difficulty
/// is at most 64 and whose hash starts with the zeroes that the difficulty
/// asks for, a block validates exactly when the hash of its canonical
/// encoding is the hash it carries.
pub proof fn lemma_validates_iff_hash_matches(block: BlockView)
    requires
        block.difficulty <= MAX_DIFFICULTY,
        has_leading_zeroes(block.hash, block.difficulty),
    ensures
        block.validates() <==> block.canonical_hash() == block.hash,
{
}

/// What can be hashed: anything with a canonical encoding.
pub trait Hashable {
    /// The bytes over which the hash is taken.
    spec fn encoding(&self) -> Seq<u8>;

    /// Computes the bytes over which the hash is taken.
    fn bytes(&self) -> (out: Vec<u8>)
        ensures
            out@ == self.encoding(),
    ;

    /// The hash: `0x` followed by the hex SHA-256 digest of the encoding.
    fn hash(&self) -> (h: String)
        ensures
            h@ == prefixed_digest(self.encoding()),
    {
        let data = self.bytes();
        hash_bytes(data.as_slice())
    }
}

impl Hashable for Block {
    open spec fn encoding(&self) -> Seq<u8> {
        self@.canonical_bytes()
    }

    fn bytes(&self) -> (out: Vec<u8>) {
        let mut text = String::from_str("[\"");
        text.append(self.predecessor.as_str());
        text.append("\",[");
        let ghost head = text@;
        let mut i: usize = 0;
        while i < self.transactions.len()
            invariant
                i <= self.transactions.len(),
                text@ == head + transactions_text(self@.transactions.take(i as int)),
            decreases self.transactions.len() - i,
        {
            if i > 0 {
                text.append(",");
            }
            push_transaction(&mut text, &self.transactions[i]);
            proof {
                let next = self@.transactions.take(i + 1);
                assert(next.drop_last() =~= self@.transactions.take(i as int));
                assert(next.last() == self.transactions@[i as int]@);
                assert(text@ =~= head + transactions_text(next));
            }
            i = i + 1;
        }
        assert(self@.transactions.take(i as int) =~= self@.transactions);
        text.append("],");
        push_decimal(&mut text, self.difficulty as u64);
        text.append(",");
        push_decimal(&mut text, self.nonce);
        text.append("]");
        assert(text@ =~= self@.canonical_text());
        text.as_str().as_bytes_vec()
    }
}

/// Whether `hash` starts with `0x` followed by `difficulty` zeroes.
pub fn check_leading_zeroes(hash: &str, difficulty: u32) -> (ok: bool)
    ensures
        ok == has_leading_zeroes(hash@, difficulty),
{
    let len = hash.unicode_len();
    if len < 2 || len - 2 < difficulty as usize {
        return false;
    }
    if hash.get_char(0) != '0' || hash.get_char(1) != 'x' {
        return false;
    }
    let end: usize = 2 + difficulty as usize;
    let mut i: usize = 2;
    while i < end
        invariant
            2 <= i <= end,
            end == 2 + difficulty,
            end <= hash@.len(),
            forall|j: int| 2 <= j < i ==> hash@[j] == '0',
        decreases end - i,
    {
        if hash.get_char(i) != '0' {
            return false;
        }
        i = i + 1;
    }
    true
}

impl Block {
    /// A block of the given parts.
    pub fn new(
        difficulty: u32,
        hash: String,
        nonce: u64,
        predecessor: String,
        transactions: Vec<Transaction>,
    ) -> (block: Self)
        ensures
            block.difficulty == difficulty,
            block.hash == hash,
            block.nonce == nonce,
            block.predecessor == predecessor,
            block.transactions == transactions,
    {
        Block { difficulty, hash, nonce, predecessor, transactions }
    }

    /// Checks the block against a hash that was recomputed for it.
    pub fn validate_against(&self, computed: &String) -> (r: Result<(), LedgerError>)
        ensures
            r == self@.check_against(computed@),
    {
        if self.hash != *computed {
            return Err(LedgerError::InvalidHash);
        }
        if self.difficulty > MAX_DIFFICULTY {
            return Err(LedgerError::DifficultyTooHigh);
        }
        if !check_leading_zeroes(computed.as_str(), self.difficulty) {
            return Err(LedgerError::LeadingZeroesMismatch);
        }
        Ok(())
    }

    /// Checks that the block was mined as it claims: recomputes its hash
    /// and checks the block against it.
    pub fn validate(&self) -> (r: Result<(), LedgerError>)
        ensures
            r == self@.check_against(self@.canonical_hash()),
            r is Ok <==> self@.validates(),
    {
        let computed = self.hash();
        self.validate_against(&computed)
    }
}

impl Clone for Block {
    fn clone(&self) -> (copy: Self)
        ensures
            copy@ == self@,
    {
        let transactions = self.transactions.clone();
        assert(transaction_views(transactions@) =~= transaction_views(self.transactions@));
        Block {
            difficulty: self.difficulty,
            hash: self.hash.clone(),
            nonce: self.nonce,
            predecessor: self.predecessor.clone(),
            transactions,
        }
    }
}

} // verus!
