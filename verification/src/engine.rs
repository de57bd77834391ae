use vstd::prelude::*;
use crate::config::Config;
use crate::consensus::message::MessageView;
use crate::consensus::pbft::{Node, NodeView};
use crate::ledger::block::Block;
use crate::ledger::chain::{apply_txs, initial_accounts, BlockchainView};
use crate::ledger::transaction::{Transaction, TxView, txs_view};
use rand::Rng;

verus! {

/// Calls `rand::rng().random_range(0..bound)`, a number drawn at random from the thread's
/// generator. Trusted: the result is below `bound`, and nothing more is stated, for it
/// rests on chance. `random_range` panics on an empty range, which `requires` leaves out.
#[verifier::external_body]
fn random_below(bound: usize) -> (r: usize)
    requires
        bound > 0,
    ensures
        r < bound,
{
    rand::rng().random_range(0..bound)
}

/// The accounts between which the engine draws its transfers.
pub open spec fn user_names() -> Seq<Seq<char>> {
    seq!["Alice"@, "Bob"@, "Moi"@]
}

/// The drawn receiver: one of the two users other than the sender, in order.
pub open spec fn other_user(sender_draw: int, receiver_draw: int) -> int {
    if receiver_draw < sender_draw { receiver_draw } else { receiver_draw + 1 }
}

/// A transfer drawn for a round: sender and receiver are users, distinct, and the amount is below 10.
pub open spec fn is_drawn_transfer(tx: TxView) -> bool {
    &&& user_names().contains(tx.sender)
    &&& user_names().contains(tx.receiver)
    &&& tx.sender != tx.receiver
    &&& tx.amount < 10
}

/// The three users' names differ.
pub proof fn lemma_user_names_distinct()
    ensures
        forall|i: int, j: int| 0 <= i < 3 && 0 <= j < 3 && i != j ==> #[trigger] user_names()[i] != #[trigger] user_names()[j],
{
    reveal_strlit("Alice");
    reveal_strlit("Bob");
    reveal_strlit("Moi");
    assert("Alice"@[0] != "Bob"@[0]);
    assert("Alice"@[0] != "Moi"@[0]);
    assert("Bob"@[0] != "Moi"@[0]);
}

fn user_name(i: usize) -> (name: String)
    requires
        i < 3,
    ensures
        name@ == user_names()[i as int],
{
    if i == 0 {
        "Alice".to_owned()
    } else if i == 1 {
        "Bob".to_owned()
    } else {
        "Moi".to_owned()
    }
}

/// The transfer that a round's draws give: sender `sender_draw` among the three users,
/// receiver `receiver_draw` among the two others, and the amount.
pub fn transfer_from_draws(sender_draw: usize, receiver_draw: usize, amount: u32) -> (tx: Transaction)
    requires
        sender_draw < 3,
        receiver_draw < 2,
    ensures
        tx@.sender == user_names()[sender_draw as int],
        tx@.receiver == user_names()[other_user(sender_draw as int, receiver_draw as int)],
        tx@.amount == amount,
{
    let receiver = if receiver_draw < sender_draw { receiver_draw } else { receiver_draw + 1 };
    Transaction { sender: user_name(sender_draw), receiver: user_name(receiver), amount }
}

/// One to three transfers drawn at random between Alice, Bob and Moi, each between two
/// different users and of an amount below 10.
pub fn draw_transactions() -> (txs: Vec<Transaction>)
    ensures
        1 <= txs@.len() <= 3,
        forall|i: int| 0 <= i < txs@.len() ==> is_drawn_transfer(#[trigger] txs@[i]@),
{
    let count = 1 + random_below(3);
    let mut txs: Vec<Transaction> = Vec::new();
    let mut k: usize = 0;
    while k < count
        invariant
            k <= count <= 3,
            txs@.len() == k,
            forall|i: int| 0 <= i < txs@.len() ==> is_drawn_transfer(#[trigger] txs@[i]@),
        decreases count - k,
    {
        let sender_draw = random_below(3);
        let receiver_draw = random_below(2);
        let amount = random_below(10) as u32;
        let tx = transfer_from_draws(sender_draw, receiver_draw, amount);
        proof {
            lemma_user_names_distinct();
            let r = other_user(sender_draw as int, receiver_draw as int);
            assert(user_names()[sender_draw as int] != user_names()[r]);
            assert(user_names().contains(tx@.sender));
            assert(user_names().contains(tx@.receiver));
        }
        txs.push(tx);
        k = k + 1;
    }
    txs
}

/// The nodes of a network and its parameters.
pub struct ConsensusEngine {
    pub nodes: Vec<Node>,
    pub config: Config,
}

/// The views of a list of nodes.
pub open spec fn nodes_view(nodes: Seq<Node>) -> Seq<NodeView> {
    nodes.map_values(|n: Node| n@)
}

/// The node that proposes block `block_index` in a network of `total_nodes` nodes.
pub open spec fn leader_of(block_index: u32, total_nodes: usize) -> int {
    (block_index as usize % total_nodes) as int
}

impl ConsensusEngine {
    /// One fresh node (see [`Node::new`]) per member of the network, node `i` with identifier `i`.
    pub fn new(config: Config) -> (engine: ConsensusEngine)
        ensures
            engine.config == config,
            engine.nodes@.len() == config.total_nodes,
            forall|i: int| 0 <= i < engine.nodes@.len() ==> {
                let node = #[trigger] nodes_view(engine.nodes@)[i];
                &&& node.id == i as u32
                &&& node.log == Seq::<MessageView>::empty()
                &&& node.ledger.chain.len() == 1
                &&& node.ledger.chain[0].index == 0
                &&& node.ledger.chain[0].prev_hash == "0"@
                &&& node.ledger.chain[0].data.len() == 0
                &&& node.ledger.chain[0].is_sealed()
                &&& node.ledger.accounts == initial_accounts()
            },
    {
        let mut nodes: Vec<Node> = Vec::new();
        let n = config.total_nodes;
        let mut id: usize = 0;
        while id < n
            invariant
                n == config.total_nodes,
                id <= n,
                nodes@.len() == id,
                forall|i: int| 0 <= i < id ==> {
                    let node = #[trigger] nodes_view(nodes@)[i];
                    &&& node.id == i as u32
                    &&& node.log == Seq::<MessageView>::empty()
                    &&& node.ledger.chain.len() == 1
                    &&& node.ledger.chain[0].index == 0
                    &&& node.ledger.chain[0].prev_hash == "0"@
                    &&& node.ledger.chain[0].data.len() == 0
                    &&& node.ledger.chain[0].is_sealed()
                    &&& node.ledger.accounts == initial_accounts()
                },
            decreases n - id,
        {
            let node = Node::new(id as u32);
            let ghost prev = nodes@;
            nodes.push(node);
            assert forall|i: int| 0 <= i < id implies #[trigger] nodes_view(nodes@)[i] == nodes_view(prev)[i] by {
                assert(nodes@[i] == prev[i]);
            }
            assert(nodes_view(nodes@)[id as int] == node@);
            id = id + 1;
        }
        ConsensusEngine { nodes, config }
    }

    /// The block that the leader of round `block_index` proposes: the given transactions on
    /// top of the leader's last block.
    pub fn propose_block(&self, block_index: u32, txs: Vec<Transaction>) -> (block: Block)
        requires
            self.config.total_nodes > 0,
            leader_of(block_index, self.config.total_nodes) < self.nodes@.len(),
            self.nodes@[leader_of(block_index, self.config.total_nodes)]@.ledger.chain.len() > 0,
        ensures
            block@.index == block_index,
            block@.prev_hash == self.nodes@[leader_of(block_index, self.config.total_nodes)]@.ledger.chain.last().hash,
            block@.data == txs_view(txs@),
            block@.is_sealed(),
    {
        let leader = block_index as usize % self.config.total_nodes;
        let chain = &self.nodes[leader].blockchain.chain;
        let last = chain.len() - 1;
        assert(self.nodes@[leader as int]@.ledger.chain.last() == chain@[last as int]@);
        Block::new_block(block_index, chain[last].hash.clone(), txs)
    }

    /// Every node applies the block's transactions and appends the block.
    pub fn commit_block(&mut self, block: &Block)
        requires
            forall|i: int| 0 <= i < old(self).nodes@.len()
                ==> apply_txs((#[trigger] old(self).nodes@[i])@.ledger.accounts, block@.data) is Some,
        ensures
            final(self).config == old(self).config,
            final(self).nodes@.len() == old(self).nodes@.len(),
            forall|i: int| 0 <= i < final(self).nodes@.len() ==> {
                let before = #[trigger] old(self).nodes@[i]@;
                (#[trigger] final(self).nodes@[i])@ == NodeView {
                    ledger: BlockchainView {
                        chain: before.ledger.chain.push(block@),
                        accounts: apply_txs(before.ledger.accounts, block@.data).unwrap(),
                    },
                    ..before
                }
            },
    {
        let n = self.nodes.len();
        let mut i: usize = 0;
        while i < n
            invariant
                n == self.nodes@.len(),
                n == old(self).nodes@.len(),
                i <= n,
                self.config == old(self).config,
                forall|j: int| i <= j < n ==> #[trigger] self.nodes@[j] == old(self).nodes@[j],
                forall|j: int| 0 <= j < n ==> apply_txs((#[trigger] old(self).nodes@[j])@.ledger.accounts, block@.data) is Some,
                forall|j: int| 0 <= j < i ==> {
                    let before = #[trigger] old(self).nodes@[j]@;
                    (#[trigger] self.nodes@[j])@ == NodeView {
                        ledger: BlockchainView {
                            chain: before.ledger.chain.push(block@),
                            accounts: apply_txs(before.ledger.accounts, block@.data).unwrap(),
                        },
                        ..before
                    }
                },
            decreases n - i,
        {
            assert(self.nodes@[i as int] == old(self).nodes@[i as int]);
            self.nodes[i].blockchain.apply_block(block);
            self.nodes[i].blockchain.chain.push(block.clone());
            proof {
                let before = old(self).nodes@[i as int]@;
                let after = self.nodes@[i as int]@;
                assert(after.ledger.chain =~= before.ledger.chain.push(block@));
                assert(after =~= NodeView {
                    ledger: BlockchainView {
                        chain: before.ledger.chain.push(block@),
                        accounts: apply_txs(before.ledger.accounts, block@.data).unwrap(),
                    },
                    ..before
                });
            }
            i = i + 1;
        }
    }
}

} // verus!
