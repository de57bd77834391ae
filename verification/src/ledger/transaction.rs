use vstd::prelude::*;
use crate::utils::encoding::{decimal, push_decimal};

verus! {

/// A transfer of `amount` from the account `sender` to the account `receiver`.
pub struct Transaction {
    pub sender: String,
    pub receiver: String,
    pub amount: u32,
}

/// The mathematical value of a [`Transaction`].
pub struct TxView {
    pub sender: Seq<char>,
    pub receiver: Seq<char>,
    pub amount: u32,
}

impl View for Transaction {
    type V = TxView;

    open spec fn view(&self) -> TxView {
        TxView { sender: self.sender@, receiver: self.receiver@, amount: self.amount }
    }
}

/// The text of a transaction as it enters a block's hash: sender, receiver and amount, run together.
pub open spec fn tx_text(tx: TxView) -> Seq<char> {
    tx.sender + tx.receiver + decimal(tx.amount as nat)
}

/// The views of a list of transactions.
pub open spec fn txs_view(txs: Seq<Transaction>) -> Seq<TxView> {
    txs.map_values(|t: Transaction| t@)
}

impl Clone for Transaction {
    fn clone(&self) -> (r: Self)
        ensures
            r@ == self@,
    {
        Transaction { sender: self.sender.clone(), receiver: self.receiver.clone(), amount: self.amount }
    }
}

impl Transaction {
    /// The text of the transaction: sender, receiver and amount in decimal, with no separator.
    pub fn to_string(&self) -> (s: String)
        ensures
            s@ == tx_text(self@),
    {
        let mut s = self.sender.clone();
        s.append(self.receiver.as_str());
        push_decimal(&mut s, self.amount as u64);
        s
    }
}

/// A copy of a list of transactions.
pub(crate) fn clone_txs(txs: &Vec<Transaction>) -> (r: Vec<Transaction>)
    ensures
        txs_view(r@) == txs_view(txs@),
{
    let mut r: Vec<Transaction> = Vec::new();
    let n = txs.len();
    let mut i: usize = 0;
    while i < n
        invariant
            n == txs@.len(),
            i <= n,
            r@.len() == i,
            forall|j: int| 0 <= j < i ==> #[trigger] r@[j]@ == txs@[j]@,
        decreases n - i,
    {
        r.push(txs[i].clone());
        i = i + 1;
    }
    assert(txs_view(r@) =~= txs_view(txs@));
    r
}

} // verus!
