//! Accounts and transactions: the units of value transfer in the ledger.
use vstd::prelude::*;

verus! {

/// A balance holder, identified by an exact string.
#[derive(Debug)]
pub struct Account(pub String);

impl View for Account {
    type V = Seq<char>;

    open spec fn view(&self) -> Seq<char> {
        self.0@
    }
}

impl Clone for Account {
    fn clone(&self) -> (r: Account)
        ensures
            r == *self,
    {
        Account(self.0.clone())
    }
}

/// The mathematical content of a transaction.
pub struct TxV {
    pub from: Seq<char>,
    pub to: Seq<char>,
    pub value: u64,
    pub data: Seq<char>,
}

impl TxV {
    /// A reward transaction mints value; it is marked by its data field alone.
    pub open spec fn is_reward(self) -> bool {
        self.data == "reward"@
    }
}

/// A transfer of `value` from one account to another, with a free-form data
/// tag; the exact tag "reward" marks the transaction as minting.
#[derive(Debug)]
pub struct Tx {
    pub from: Account,
    pub to: Account,
    pub value: u64,
    pub data: String,
}

impl View for Tx {
    type V = TxV;

    open spec fn view(&self) -> TxV {
        TxV { from: self.from@, to: self.to@, value: self.value, data: self.data@ }
    }
}

impl Clone for Tx {
    fn clone(&self) -> (r: Tx)
        ensures
            r@ == self@,
    {
        Tx { from: self.from.clone(), to: self.to.clone(), value: self.value, data: self.data.clone() }
    }
}

impl Tx {
    /// Whether this transaction is a reward: its data is exactly "reward".
    pub fn is_reward(&self) -> (r: bool)
        ensures
            r == self@.is_reward(),
    {
        self.data == "reward".to_owned()
    }

    pub fn new(from: String, to: String, value: u64, data: String) -> (r: Tx)
        ensures
            r@.from == from@,
            r@.to == to@,
            r@.value == value,
            r@.data == data@,
    {
        Tx { from: Account(from), to: Account(to), value, data }
    }
}

} // verus!
