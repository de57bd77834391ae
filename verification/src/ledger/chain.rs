use vstd::prelude::*;
use crate::ledger::accounts::Accounts;
use crate::ledger::block::{Block, BlockView};
use crate::ledger::transaction::{Transaction, TxView, txs_view};
use crate::utils::hash::{block_hash, calculate_hash};

verus! {

/// The chain of blocks and the balance of each account.
pub struct Blockchain {
    pub chain: Vec<Block>,
    pub accounts: Accounts,
}

/// The mathematical value of a [`Blockchain`].
pub struct BlockchainView {
    pub chain: Seq<BlockView>,
    pub accounts: Map<Seq<char>, u32>,
}

/// The views of a list of blocks.
pub open spec fn blocks_view(blocks: Seq<Block>) -> Seq<BlockView> {
    blocks.map_values(|b: Block| b@)
}

impl View for Blockchain {
    type V = BlockchainView;

    open spec fn view(&self) -> BlockchainView {
        BlockchainView { chain: blocks_view(self.chain@), accounts: self.accounts@ }
    }
}

/// The balances every ledger starts with.
pub open spec fn initial_accounts() -> Map<Seq<char>, u32> {
    map!["Alice"@ => 100u32, "Bob"@ => 50u32, "Moi"@ => 75u32]
}

/// Every block after the first carries the hash of its own fields and the hash of the block before it.
pub open spec fn chain_valid(chain: Seq<BlockView>) -> bool {
    forall|i: int| 1 <= i < chain.len() ==> (#[trigger] chain[i]).is_sealed() && chain[i].prev_hash == chain[i - 1].hash
}

/// Every block after the first carries the hash and the next index of the block before it.
pub open spec fn chain_linked(chain: Seq<BlockView>) -> bool {
    forall|i: int| 1 <= i < chain.len() ==> (#[trigger] chain[i]).prev_hash == chain[i - 1].hash
        && chain[i].index == chain[i - 1].index + 1
}

/// No two blocks of the chain carry the same hash.
pub open spec fn hashes_distinct(chain: Seq<BlockView>) -> bool {
    forall|i: int, j: int| 0 <= i < chain.len() && 0 <= j < chain.len() && i != j
        ==> (#[trigger] chain[i]).hash != (#[trigger] chain[j]).hash
}

/// Some block of the chain carries the hash `hash`.
pub open spec fn chain_has_hash(chain: Seq<BlockView>, hash: Seq<char>) -> bool {
    exists|i: int| 0 <= i < chain.len() && (#[trigger] chain[i]).hash == hash
}

/// The balances after one transaction is applied, or `None` where the receiver's balance
/// would pass `u32::MAX`. A known sender loses the amount, down to 0 at most; a known
/// receiver gains it; an unknown receiver's amount is lost.
pub open spec fn apply_tx(m: Map<Seq<char>, u32>, tx: TxView) -> Option<Map<Seq<char>, u32>> {
    let m1 = if m.contains_key(tx.sender) {
        m.insert(tx.sender, if m[tx.sender] >= tx.amount { (m[tx.sender] - tx.amount) as u32 } else { 0u32 })
    } else {
        m
    };
    if m1.contains_key(tx.receiver) {
        if m1[tx.receiver] + tx.amount <= u32::MAX {
            Some(m1.insert(tx.receiver, (m1[tx.receiver] + tx.amount) as u32))
        } else {
            None
        }
    } else {
        Some(m1)
    }
}

/// The balances after the transactions are applied in order, or `None` where a balance overflows.
pub open spec fn apply_txs(m: Map<Seq<char>, u32>, txs: Seq<TxView>) -> Option<Map<Seq<char>, u32>>
    decreases txs.len(),
{
    if txs.len() == 0 {
        Some(m)
    } else {
        match apply_txs(m, txs.drop_last()) {
            Some(m2) => apply_tx(m2, txs.last()),
            None => None,
        }
    }
}

/// How a block's transactions fare against the balances when they are checked one after another.
pub enum Outcome {
    /// Every sender could pay; the balances afterwards, accounts first seen as receivers included.
    Accepted(Map<Seq<char>, u32>),
    /// Some sender spends more than it holds at that point.
    Overspent,
    /// Some receiver's balance would pass `u32::MAX`.
    Overflow,
}

/// One transaction checked against running balances: the sender (0 where unknown) must
/// hold the amount; it is taken from a known sender and given to the receiver, who is
/// opened at 0 where unknown.
pub open spec fn check_tx(m: Map<Seq<char>, u32>, tx: TxView) -> Outcome {
    let held: u32 = if m.contains_key(tx.sender) { m[tx.sender] } else { 0u32 };
    if held < tx.amount {
        Outcome::Overspent
    } else {
        let m1 = if m.contains_key(tx.sender) {
            m.insert(tx.sender, (m[tx.sender] - tx.amount) as u32)
        } else {
            m
        };
        let got: u32 = if m1.contains_key(tx.receiver) { m1[tx.receiver] } else { 0u32 };
        if got + tx.amount > u32::MAX {
            Outcome::Overflow
        } else {
            Outcome::Accepted(m1.insert(tx.receiver, (got + tx.amount) as u32))
        }
    }
}

/// The transactions checked in order; the first that fails decides.
pub open spec fn check_txs(m: Map<Seq<char>, u32>, txs: Seq<TxView>) -> Outcome
    decreases txs.len(),
{
    if txs.len() == 0 {
        Outcome::Accepted(m)
    } else {
        match check_txs(m, txs.drop_last()) {
            Outcome::Accepted(m2) => check_tx(m2, txs.last()),
            other => other,
        }
    }
}

/// Once a prefix of the transactions fails, every longer prefix fails the same way.
pub proof fn lemma_check_txs_failure_sticks(m: Map<Seq<char>, u32>, txs: Seq<TxView>, i: int, j: int)
    requires
        0 <= i <= j <= txs.len(),
        !(check_txs(m, txs.take(i)) is Accepted),
    ensures
        check_txs(m, txs.take(j)) == check_txs(m, txs.take(i)),
    decreases j - i,
{
    if j > i {
        lemma_check_txs_failure_sticks(m, txs, i, j - 1);
        assert(txs.take(j).drop_last() =~= txs.take(j - 1));
    }
}

/// Once a prefix of the transactions overflows, every longer prefix fails too.
pub proof fn lemma_apply_txs_failure_sticks(m: Map<Seq<char>, u32>, txs: Seq<TxView>, i: int, j: int)
    requires
        0 <= i <= j <= txs.len(),
        apply_txs(m, txs.take(i)) is None,
    ensures
        apply_txs(m, txs.take(j)) is None,
    decreases j - i,
{
    if j > i {
        lemma_apply_txs_failure_sticks(m, txs, i, j - 1);
        assert(txs.take(j).drop_last() =~= txs.take(j - 1));
    }
}

/// Applying transactions never opens or closes an account.
pub proof fn lemma_apply_keeps_accounts(m: Map<Seq<char>, u32>, txs: Seq<TxView>)
    requires
        apply_txs(m, txs) is Some,
    ensures
        apply_txs(m, txs).unwrap().dom() == m.dom(),
    decreases txs.len(),
{
    if txs.len() > 0 {
        lemma_apply_keeps_accounts(m, txs.drop_last());
        let m2 = apply_txs(m, txs.drop_last()).unwrap();
        let tx = txs.last();
        assert(apply_tx(m2, tx).unwrap().dom() =~= m2.dom());
    }
}

/// A block whose transactions pass the balance check applies exactly: no balance is
/// clamped at 0 or overflows, and every account ends where the check said it would.
pub proof fn lemma_checked_block_applies_exactly(m: Map<Seq<char>, u32>, txs: Seq<TxView>)
    requires
        check_txs(m, txs) is Accepted,
    ensures
        m.dom().subset_of(check_txs(m, txs)->Accepted_0.dom()),
        apply_txs(m, txs) == Some(check_txs(m, txs)->Accepted_0.restrict(m.dom())),
    decreases txs.len(),
{
    if txs.len() > 0 {
        let prev = txs.drop_last();
        assert(check_txs(m, prev) is Accepted);
        lemma_checked_block_applies_exactly(m, prev);
        let t = check_txs(m, prev)->Accepted_0;
        let a = t.restrict(m.dom());
        let tx = txs.last();
        let t2 = check_txs(m, txs)->Accepted_0;
        let a2 = apply_tx(a, tx);
        assert(a2 is Some);
        assert(a2.unwrap() =~= t2.restrict(m.dom()));
    }
}

/// The verdict of the balance check on a list of transactions.
#[derive(Clone, Copy)]
pub enum TxCheck {
    Accepted,
    Overspent,
    Overflow,
}

/// The verdict that [`check_txs`] gives.
pub open spec fn verdict(o: Outcome) -> TxCheck {
    match o {
        Outcome::Accepted(_) => TxCheck::Accepted,
        Outcome::Overspent => TxCheck::Overspent,
        Outcome::Overflow => TxCheck::Overflow,
    }
}

/// What one transaction does to the balances: a known sender loses the amount (down to 0
/// at most); a known receiver other than the sender gains the full amount, whatever the
/// sender held, and the step fails exactly where that passes `u32::MAX`; a sender paying
/// itself ends at its clamped balance plus the amount; no other account moves.
pub proof fn lemma_apply_one_tx(m: Map<Seq<char>, u32>, tx: TxView)
    ensures
        ({
            let out = apply_txs(m, seq![tx]);
            let s = tx.sender;
            let r = tx.receiver;
            let a = tx.amount as int;
            let left: int = if m.contains_key(s) && m[s] >= a { m[s] - a } else { 0 };
            &&& (m.contains_key(r) && r != s) ==> (out is Some <==> m[r] + a <= u32::MAX)
            &&& (m.contains_key(s) && s == r) ==> (out is Some <==> left + a <= u32::MAX)
            &&& !m.contains_key(r) ==> out is Some
            &&& out is Some ==> {
                let o = out.unwrap();
                &&& o.dom() == m.dom()
                &&& (m.contains_key(s) && s != r) ==> o[s] == left
                &&& (m.contains_key(r) && r != s) ==> o[r] == m[r] + a
                &&& (m.contains_key(s) && s == r) ==> o[s] == left + a
                &&& forall|k: Seq<char>| #[trigger] m.contains_key(k) && k != s && k != r ==> o[k] == m[k]
            }
        }),
{
    assert(seq![tx].drop_last() =~= Seq::<TxView>::empty());
    assert(seq![tx].last() == tx);
    assert(apply_txs(m, Seq::<TxView>::empty()) == Some(m));
    assert(apply_txs(m, seq![tx]) == apply_tx(m, tx));
    let out = apply_txs(m, seq![tx]);
    if out is Some {
        lemma_apply_keeps_accounts(m, seq![tx]);
    }
}

/// Applying two lists of transactions one after the other is applying their concatenation.
pub proof fn lemma_apply_txs_append(m: Map<Seq<char>, u32>, x: Seq<TxView>, y: Seq<TxView>)
    ensures
        apply_txs(m, x + y) == match apply_txs(m, x) {
            Some(m2) => apply_txs(m2, y),
            None => None,
        },
    decreases y.len(),
{
    if y.len() == 0 {
        assert(x + y =~= x);
    } else {
        lemma_apply_txs_append(m, x, y.drop_last());
        assert((x + y).drop_last() =~= x + y.drop_last());
        assert((x + y).last() == y.last());
        match apply_txs(m, x) {
            Some(m2) => {},
            None => {
                lemma_apply_none_stays(m, x + y.drop_last(), y.last());
            },
        }
    }
}

proof fn lemma_apply_none_stays(m: Map<Seq<char>, u32>, x: Seq<TxView>, t: TxView)
    requires
        apply_txs(m, x) is None,
    ensures
        apply_txs(m, x.push(t)) is None,
{
    assert(x.push(t).drop_last() =~= x);
}

/// A chain is valid exactly where every block after the first, not only the last, carries
/// the hash of its own fields and the hash of the block before it.
pub proof fn lemma_chain_valid_every_block(c: Seq<BlockView>)
    ensures
        chain_valid(c) <==> forall|i: int| 1 <= i < c.len() ==> {
            &&& (#[trigger] c[i]).hash == block_hash(c[i].index, c[i].timestamp, c[i].data, c[i].prev_hash)
            &&& c[i].prev_hash == c[i - 1].hash
        },
{
}

/// Every prefix of a valid chain is valid, and a block whose hash does not match its
/// fields makes every chain that holds it past the first place invalid.
pub proof fn lemma_chain_valid_prefix(c: Seq<BlockView>, k: int, i: int)
    requires
        0 <= k <= c.len(),
    ensures
        chain_valid(c) ==> chain_valid(c.take(k)),
        (1 <= i < c.len() && c[i].hash != block_hash(c[i].index, c[i].timestamp, c[i].data, c[i].prev_hash))
            ==> !chain_valid(c),
{
    if chain_valid(c) {
        assert forall|j: int| 1 <= j < c.take(k).len() implies (#[trigger] c.take(k)[j]).is_sealed()
            && c.take(k)[j].prev_hash == c.take(k)[j - 1].hash by {
            assert(c.take(k)[j] == c[j] && c.take(k)[j - 1] == c[j - 1]);
        }
    }
    if 1 <= i < c.len() && c[i].hash != block_hash(c[i].index, c[i].timestamp, c[i].data, c[i].prev_hash) {
        assert(!c[i].is_sealed());
    }
}

/// The sum of all balances of a finite map of accounts.
pub open spec fn balance_total(m: Map<Seq<char>, u32>) -> int
    decreases m.dom().len(),
    when m.dom().finite()
{
    if m.dom().len() == 0 {
        0
    } else {
        let k = m.dom().choose();
        proof {
            assert(m.dom().contains(k));
            assert(m.remove(k).dom() =~= m.dom().remove(k));
        }
        m[k] + balance_total(m.remove(k))
    }
}

/// The total splits off any one account.
pub proof fn lemma_total_remove(m: Map<Seq<char>, u32>, k: Seq<char>)
    requires
        m.dom().finite(),
        m.dom().contains(k),
    ensures
        balance_total(m) == m[k] + balance_total(m.remove(k)),
    decreases m.dom().len(),
{
    assert(m.remove(k).dom() =~= m.dom().remove(k));
    let c = m.dom().choose();
    assert(m.dom().contains(c));
    if c != k {
        assert(m.remove(c).dom() =~= m.dom().remove(c));
        lemma_total_remove(m.remove(c), k);
        lemma_total_remove(m.remove(k), c);
        assert(m.remove(c).remove(k) =~= m.remove(k).remove(c));
    }
}

/// Setting one account to `v` changes the total by the difference.
pub proof fn lemma_total_insert(m: Map<Seq<char>, u32>, k: Seq<char>, v: u32)
    requires
        m.dom().finite(),
        m.dom().contains(k),
    ensures
        balance_total(m.insert(k, v)) == balance_total(m) - m[k] + v,
{
    lemma_total_remove(m, k);
    assert(m.insert(k, v).dom() =~= m.dom());
    lemma_total_remove(m.insert(k, v), k);
    assert(m.insert(k, v).remove(k) =~= m.remove(k));
}

/// Applying transactions between known accounts, where every sender holds the amount when
/// its turn comes and no balance overflows, keeps the sum of all balances.
pub proof fn lemma_apply_conserves_total(m: Map<Seq<char>, u32>, txs: Seq<TxView>)
    requires
        m.dom().finite(),
        apply_txs(m, txs) is Some,
        forall|k: int| 0 <= k < txs.len() ==> {
            &&& m.dom().contains(#[trigger] txs[k].sender)
            &&& m.dom().contains(txs[k].receiver)
            &&& apply_txs(m, txs.take(k)).unwrap()[txs[k].sender] >= txs[k].amount
        },
    ensures
        balance_total(apply_txs(m, txs).unwrap()) == balance_total(m),
    decreases txs.len(),
{
    if txs.len() > 0 {
        let n = txs.len() as int;
        let prev = txs.drop_last();
        assert(txs.take(n - 1) =~= prev);
        if apply_txs(m, prev) is None {
            lemma_apply_txs_failure_sticks(m, txs, n - 1, n);
            assert(txs.take(n) =~= txs);
        }
        assert forall|k: int| 0 <= k < prev.len() implies {
            &&& m.dom().contains(#[trigger] prev[k].sender)
            &&& m.dom().contains(prev[k].receiver)
            &&& apply_txs(m, prev.take(k)).unwrap()[prev[k].sender] >= prev[k].amount
        } by {
            assert(prev[k] == txs[k]);
            assert(prev.take(k) =~= txs.take(k));
        }
        lemma_apply_conserves_total(m, prev);
        lemma_apply_keeps_accounts(m, prev);
        let m2 = apply_txs(m, prev).unwrap();
        let tx = txs.last();
        assert(tx == txs[n - 1]);
        assert(m.dom().contains(tx.sender) && m.dom().contains(tx.receiver));
        assert(m2[tx.sender] >= tx.amount);
        let m1 = m2.insert(tx.sender, (m2[tx.sender] - tx.amount) as u32);
        lemma_total_insert(m2, tx.sender, (m2[tx.sender] - tx.amount) as u32);
        assert(m1.dom() =~= m2.dom());
        assert(apply_tx(m2, tx) is Some);
        lemma_total_insert(m1, tx.receiver, (m1[tx.receiver] + tx.amount) as u32);
    }
}

impl Clone for Blockchain {
    fn clone(&self) -> (r: Self)
        ensures
            r@ == self@,
    {
        let mut chain: Vec<Block> = Vec::new();
        let n = self.chain.len();
        let mut i: usize = 0;
        while i < n
            invariant
                n == self.chain@.len(),
                i <= n,
                chain@.len() == i,
                forall|j: int| 0 <= j < i ==> #[trigger] chain@[j]@ == self.chain@[j]@,
            decreases n - i,
        {
            chain.push(self.chain[i].clone());
            i = i + 1;
        }
        assert(blocks_view(chain@) =~= blocks_view(self.chain@));
        Blockchain { chain, accounts: self.accounts.clone() }
    }
}

impl Blockchain {
    /// A chain holding only its first block (index 0, previous hash `"0"`, no
    /// transactions), with Alice at 100, Bob at 50 and Moi at 75.
    pub fn new_blockchain() -> (r: Blockchain)
        ensures
            r@.chain.len() == 1,
            r@.chain[0].index == 0,
            r@.chain[0].prev_hash == "0"@,
            r@.chain[0].data.len() == 0,
            r@.chain[0].is_sealed(),
            r@.chain[0].hash.len() == 64,
            r@.accounts == initial_accounts(),
            chain_valid(r@.chain),
            chain_linked(r@.chain),
            hashes_distinct(r@.chain),
    {
        let mut initial = Accounts::new();
        initial.insert("Alice".to_owned(), 100);
        initial.insert("Bob".to_owned(), 50);
        initial.insert("Moi".to_owned(), 75);
        let genesis = Block::new_block(0, "0".to_owned(), Vec::new());
        let mut chain: Vec<Block> = Vec::new();
        chain.push(genesis);
        let r = Blockchain { chain, accounts: initial };
        assert(r@.accounts =~= initial_accounts());
        r
    }

    /// Seals a block of `data` on top of the chain, linked to the last block.
    pub fn add_block(&mut self, data: Vec<Transaction>)
        requires
            old(self).chain@.len() > 0,
            old(self).chain@.last().index < u32::MAX,
        ensures
            final(self)@.accounts == old(self)@.accounts,
            final(self)@.chain.len() == old(self)@.chain.len() + 1,
            final(self)@.chain.drop_last() == old(self)@.chain,
            final(self)@.chain.last().index == old(self)@.chain.last().index + 1,
            final(self)@.chain.last().prev_hash == old(self)@.chain.last().hash,
            final(self)@.chain.last().data == txs_view(data@),
            final(self)@.chain.last().is_sealed(),
            chain_valid(old(self)@.chain) ==> chain_valid(final(self)@.chain),
            chain_linked(old(self)@.chain) ==> chain_linked(final(self)@.chain),
    {
        let last = self.chain.len() - 1;
        let new_block = Block::new_block(self.chain[last].index + 1, self.chain[last].hash.clone(), data);
        self.chain.push(new_block);
        assert(blocks_view(self.chain@).drop_last() =~= blocks_view(old(self).chain@));
        proof {
            let c = blocks_view(self.chain@);
            let o = blocks_view(old(self).chain@);
            if chain_linked(o) {
                assert forall|i: int| 1 <= i < c.len() implies (#[trigger] c[i]).prev_hash == c[i - 1].hash
                    && c[i].index == c[i - 1].index + 1 by {
                    assert(c[i - 1] == o[i - 1]);
                    if i < o.len() {
                        assert(c[i] == o[i]);
                    }
                }
            }
            if chain_valid(o) {
                assert forall|i: int| 1 <= i < c.len() implies (#[trigger] c[i]).is_sealed()
                    && c[i].prev_hash == c[i - 1].hash by {
                    if i < o.len() {
                        assert(c[i] == o[i] && c[i - 1] == o[i - 1]);
                    } else {
                        assert(c[i - 1] == o[i - 1]);
                    }
                }
            }
        }
    }

    /// Applies a block's transactions to the balances (see [`apply_tx`]); the chain is left as it is.
    pub fn apply_block(&mut self, block: &Block)
        requires
            apply_txs(old(self)@.accounts, block@.data) is Some,
        ensures
            final(self)@.chain == old(self)@.chain,
            final(self)@.accounts == apply_txs(old(self)@.accounts, block@.data).unwrap(),
    {
        let ghost start = self.accounts@;
        let ghost txs = block@.data;
        let n = block.data.len();
        let mut i: usize = 0;
        while i < n
            invariant
                n == txs.len(),
                txs == txs_view(block.data@),
                i <= n,
                apply_txs(start, txs) is Some,
                apply_txs(start, txs.take(i as int)) == Some(self.accounts@),
                self@.chain == old(self)@.chain,
            decreases n - i,
        {
            let tx = &block.data[i];
            assert(txs.take(i + 1).drop_last() =~= txs.take(i as int));
            assert(txs[i as int] == tx@);
            proof {
                if apply_txs(start, txs.take(i + 1)) is None {
                    lemma_apply_txs_failure_sticks(start, txs, i + 1, n as int);
                    assert(txs.take(n as int) =~= txs);
                }
            }
            match self.accounts.get(&tx.sender) {
                Some(balance) => {
                    let left: u32 = if balance >= tx.amount { balance - tx.amount } else { 0 };
                    self.accounts.insert(tx.sender.clone(), left);
                },
                None => {},
            }
            match self.accounts.get(&tx.receiver) {
                Some(balance) => {
                    self.accounts.insert(tx.receiver.clone(), balance + tx.amount);
                },
                None => {},
            }
            i = i + 1;
        }
        assert(txs.take(n as int) =~= txs);
    }

    /// Checks the transactions one after another against running copies of the balances
    /// (see [`check_tx`]); the ledger itself is left as it is.
    pub fn check_transactions(&self, data: &Vec<Transaction>) -> (r: TxCheck)
        ensures
            r == verdict(check_txs(self@.accounts, txs_view(data@))),
    {
        let ghost start = self@.accounts;
        let ghost txs = txs_view(data@);
        let mut balances = self.accounts.clone();
        let n = data.len();
        let mut i: usize = 0;
        while i < n
            invariant
                n == txs.len(),
                txs == txs_view(data@),
                start == self@.accounts,
                i <= n,
                check_txs(start, txs.take(i as int)) == Outcome::Accepted(balances@),
            decreases n - i,
        {
            let tx = &data[i];
            assert(txs.take(i + 1).drop_last() =~= txs.take(i as int));
            assert(txs.take(i + 1).last() == tx@);
            let held: u32 = match balances.get(&tx.sender) {
                Some(b) => b,
                None => 0,
            };
            if held < tx.amount {
                proof {
                    lemma_check_txs_failure_sticks(start, txs, i + 1, n as int);
                    assert(txs.take(n as int) =~= txs);
                }
                return TxCheck::Overspent;
            }
            match balances.get(&tx.sender) {
                Some(b) => balances.insert(tx.sender.clone(), b - tx.amount),
                None => {},
            }
            let got: u32 = match balances.get(&tx.receiver) {
                Some(b) => b,
                None => 0,
            };
            if got > u32::MAX - tx.amount {
                proof {
                    lemma_check_txs_failure_sticks(start, txs, i + 1, n as int);
                    assert(txs.take(n as int) =~= txs);
                }
                return TxCheck::Overflow;
            }
            balances.insert(tx.receiver.clone(), got + tx.amount);
            i = i + 1;
        }
        assert(txs.take(n as int) =~= txs);
        TxCheck::Accepted
    }

    /// Whether applying the block's transactions keeps every balance within `u32`.
    pub fn apply_fits(&self, block: &Block) -> (r: bool)
        ensures
            r == (apply_txs(self@.accounts, block@.data) is Some),
    {
        let ghost start = self@.accounts;
        let ghost txs = block@.data;
        let mut balances = self.accounts.clone();
        let n = block.data.len();
        let mut i: usize = 0;
        while i < n
            invariant
                n == txs.len(),
                txs == txs_view(block.data@),
                start == self@.accounts,
                i <= n,
                apply_txs(start, txs.take(i as int)) == Some(balances@),
            decreases n - i,
        {
            let tx = &block.data[i];
            assert(txs.take(i + 1).drop_last() =~= txs.take(i as int));
            assert(txs.take(i + 1).last() == tx@);
            match balances.get(&tx.sender) {
                Some(b) => {
                    let left: u32 = if b >= tx.amount { b - tx.amount } else { 0 };
                    balances.insert(tx.sender.clone(), left);
                },
                None => {},
            }
            match balances.get(&tx.receiver) {
                Some(b) => {
                    if b > u32::MAX - tx.amount {
                        proof {
                            lemma_apply_txs_failure_sticks(start, txs, i + 1, n as int);
                            assert(txs.take(n as int) =~= txs);
                        }
                        return false;
                    }
                    balances.insert(tx.receiver.clone(), b + tx.amount);
                },
                None => {},
            }
            i = i + 1;
        }
        assert(txs.take(n as int) =~= txs);
        true
    }

    /// Every block after the first carries the hash of its own fields and the hash of the block before it.
    pub fn is_chain_valid(&self) -> (valid: bool)
        ensures
            valid == chain_valid(self@.chain),
    {
        let n = self.chain.len();
        let mut i: usize = 1;
        while i < n
            invariant
                n == self.chain@.len(),
                1 <= i,
                i <= n || n == 0,
                forall|j: int| 1 <= j < i && j < n ==> (#[trigger] self@.chain[j]).is_sealed()
                    && self@.chain[j].prev_hash == self@.chain[j - 1].hash,
            decreases n - i,
        {
            let current = &self.chain[i];
            let previous = &self.chain[i - 1];
            assert(self@.chain[i as int] == current@ && self@.chain[i - 1] == previous@);
            if current.hash != calculate_hash(current) || current.prev_hash != previous.hash {
                return false;
            }
            i = i + 1;
        }
        true
    }

    /// Whether the sender is a known account holding at least the amount, with the sender's name.
    pub fn verify_transaction(&self, tx: &Transaction) -> (r: (bool, String))
        ensures
            r.0 == (self@.accounts.contains_key(tx.sender@) && self@.accounts[tx.sender@] >= tx.amount),
            r.1@ == tx.sender@,
    {
        match self.accounts.get(&tx.sender) {
            Some(balance) => (balance >= tx.amount, tx.sender.clone()),
            None => (false, tx.sender.clone()),
        }
    }
}

} // verus!
