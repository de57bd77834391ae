use vstd::prelude::*;
use crate::consensus::message::{ConsensusMessage, MessageView, msgs_view, opt_msg_view};
use crate::ledger::block::{Block, BlockView};
use crate::ledger::chain::{
    Blockchain, BlockchainView, apply_txs, chain_has_hash, chain_linked, check_txs, hashes_distinct,
    initial_accounts, lemma_check_txs_failure_sticks, lemma_checked_block_applies_exactly, TxCheck,
};
use crate::config::{node_port, BASE_PORT, MAX_NODES};

verus! {

/// A replica: its identifier, its copy of the ledger and the messages of the round under way.
pub struct Node {
    pub id: u32,
    pub blockchain: Blockchain,
    pub messages_received: Vec<ConsensusMessage>,
}

/// The mathematical value of a [`Node`].
#[verifier::ext_equal]
pub struct NodeView {
    pub id: u32,
    pub ledger: BlockchainView,
    pub log: Seq<MessageView>,
}

impl View for Node {
    type V = NodeView;

    open spec fn view(&self) -> NodeView {
        NodeView { id: self.id, ledger: self.blockchain@, log: msgs_view(self.messages_received@) }
    }
}

/// The two kinds of votes.
#[derive(Clone, Copy)]
pub enum VoteKind {
    Prepare,
    Commit,
}

/// `m` is a vote of kind `kind` by node `id` for the block with hash `hash`.
pub open spec fn is_vote(m: MessageView, kind: VoteKind, hash: Seq<char>, id: u32) -> bool {
    match m {
        MessageView::Prepare { block_hash, node_id } => kind is Prepare && block_hash == hash && node_id == id,
        MessageView::Commit { block_hash, node_id } => kind is Commit && block_hash == hash && node_id == id,
        MessageView::PrePrepare { .. } => false,
    }
}

/// The nodes that cast a vote of kind `kind` for `hash` in `log`, each counted once.
pub open spec fn voters(log: Seq<MessageView>, hash: Seq<char>, kind: VoteKind) -> Set<u32> {
    Set::new(|id: u32| exists|i: int| 0 <= i < log.len() && #[trigger] is_vote(log[i], kind, hash, id))
}

/// `m` proposes a block whose hash is `hash`.
pub open spec fn proposes(m: MessageView, hash: Seq<char>) -> bool {
    m is PrePrepare && m->block.hash == hash
}

/// Message `i` of `log` is the first that proposes a block with hash `hash`.
pub open spec fn first_proposal_at(log: Seq<MessageView>, hash: Seq<char>, i: int) -> bool {
    &&& 0 <= i < log.len()
    &&& proposes(log[i], hash)
    &&& forall|j: int| 0 <= j < i ==> !proposes(#[trigger] log[j], hash)
}

/// The block of the first proposal in `log` with hash `hash`, if any.
pub open spec fn proposed_block(log: Seq<MessageView>, hash: Seq<char>) -> Option<BlockView> {
    if exists|i: int| first_proposal_at(log, hash, i) {
        Some(log[choose|i: int| first_proposal_at(log, hash, i)]->block)
    } else {
        None
    }
}

/// A block extends the node's last block: it carries that block's hash as previous hash
/// and the next index.
pub open spec fn extends_chain(n: NodeView, block: BlockView) -> bool {
    &&& n.ledger.chain.len() > 0
    &&& block.prev_hash == n.ledger.chain.last().hash
    &&& block.index == n.ledger.chain.last().index + 1
}

/// A proposed block extends the node's last block and its transactions pass the balance check.
pub open spec fn block_acceptable(n: NodeView, block: BlockView) -> bool {
    &&& extends_chain(n, block)
    &&& check_txs(n.ledger.accounts, block.data) is Accepted
}

/// With the log `log`, a commit for `hash` appends a block: a quorum of distinct nodes
/// committed to it, it was proposed, no block of the chain carries its hash, and it is
/// acceptable on top of the chain.
pub open spec fn commit_appends(n: NodeView, log: Seq<MessageView>, hash: Seq<char>, quorum: nat) -> bool {
    &&& voters(log, hash, VoteKind::Commit).len() >= quorum
    &&& proposed_block(log, hash) is Some
    &&& !chain_has_hash(n.ledger.chain, proposed_block(log, hash).unwrap().hash)
    &&& block_acceptable(n, proposed_block(log, hash).unwrap())
}

/// The inputs on which handling a message neither reads an empty chain nor overflows a balance.
pub open spec fn receive_safe(n: NodeView, msg: MessageView, quorum: nat) -> bool {
    match msg {
        MessageView::PrePrepare { block, .. } => {
            &&& n.ledger.chain.len() > 0
            &&& extends_chain(n, block) ==> !(check_txs(n.ledger.accounts, block.data) is Overflow)
        },
        MessageView::Prepare { .. } => true,
        MessageView::Commit { .. } => true,
    }
}

/// The node after handling `msg`: the message is logged; a commit that appends a block
/// applies its transactions, appends it and empties the log.
pub open spec fn node_after(n: NodeView, msg: MessageView, quorum: nat) -> NodeView {
    let log = n.log.push(msg);
    match msg {
        MessageView::Commit { block_hash, .. } => if commit_appends(n, log, block_hash, quorum) {
            let block = proposed_block(log, block_hash).unwrap();
            NodeView {
                id: n.id,
                ledger: BlockchainView {
                    chain: n.ledger.chain.push(block),
                    accounts: apply_txs(n.ledger.accounts, block.data).unwrap(),
                },
                log: Seq::empty(),
            }
        } else {
            NodeView { log, ..n }
        },
        _ => NodeView { log, ..n },
    }
}

/// The answer to `msg`: a prepare for an acceptable proposal, a commit once a quorum of
/// distinct nodes prepared the block, nothing otherwise.
pub open spec fn reply_to(n: NodeView, msg: MessageView, quorum: nat) -> Option<MessageView> {
    let log = n.log.push(msg);
    match msg {
        MessageView::PrePrepare { block, .. } => if block_acceptable(n, block) {
            Some(MessageView::Prepare { block_hash: block.hash, node_id: n.id })
        } else {
            None
        },
        MessageView::Prepare { block_hash, .. } => if voters(log, block_hash, VoteKind::Prepare).len() >= quorum {
            Some(MessageView::Commit { block_hash, node_id: n.id })
        } else {
            None
        },
        MessageView::Commit { .. } => None,
    }
}

/// A vote that is already in the log counts once: logging it again changes no tally.
pub proof fn lemma_repeated_vote_not_counted(log: Seq<MessageView>, m: MessageView, hash: Seq<char>, kind: VoteKind)
    requires
        log.contains(m),
    ensures
        voters(log.push(m), hash, kind) == voters(log, hash, kind),
{
    let k = choose|k: int| 0 <= k < log.len() && log[k] == m;
    assert forall|id: u32| voters(log.push(m), hash, kind).contains(id) implies voters(log, hash, kind).contains(id) by {
        let i = choose|i: int| 0 <= i < log.push(m).len() && #[trigger] is_vote(log.push(m)[i], kind, hash, id);
        if i == log.len() {
            assert(is_vote(log[k], kind, hash, id));
        } else {
            assert(is_vote(log[i], kind, hash, id));
        }
    }
    assert forall|id: u32| voters(log, hash, kind).contains(id) implies voters(log.push(m), hash, kind).contains(id) by {
        let i = choose|i: int| 0 <= i < log.len() && #[trigger] is_vote(log[i], kind, hash, id);
        assert(is_vote(log.push(m)[i], kind, hash, id));
    }
    assert(voters(log.push(m), hash, kind) =~= voters(log, hash, kind));
}

/// A node answers only in its own name: an acceptable proposal gets a prepare for that
/// block's hash, a prepare quorum a commit for the prepared hash, both signed with the
/// receiving node's id, whatever the message carries; a commit gets no answer.
pub proof fn lemma_replies_are_own_votes(n: NodeView, msg: MessageView, quorum: nat)
    ensures
        match msg {
            MessageView::PrePrepare { block, view } => reply_to(n, msg, quorum) is Some ==>
                reply_to(n, msg, quorum) == Some(MessageView::Prepare { block_hash: block.hash, node_id: n.id }),
            MessageView::Prepare { block_hash, node_id } => reply_to(n, msg, quorum) is Some ==>
                reply_to(n, msg, quorum) == Some(MessageView::Commit { block_hash, node_id: n.id }),
            MessageView::Commit { .. } => reply_to(n, msg, quorum) is None,
        },
        msg is PrePrepare ==> (reply_to(n, msg, quorum) is Some <==> {
            &&& n.ledger.chain.len() > 0
            &&& msg->block.prev_hash == n.ledger.chain.last().hash
            &&& msg->block.index == n.ledger.chain.last().index + 1
            &&& check_txs(n.ledger.accounts, msg->block.data) is Accepted
        }),
{
}

/// A tally of kind `kind` for `hash` holds exactly the nodes that sent a vote of that kind
/// naming that very hash; votes for other hashes, or of the other kind, never count.
pub proof fn lemma_voters_are_senders(log: Seq<MessageView>, hash: Seq<char>, kind: VoteKind, id: u32)
    ensures
        voters(log, hash, kind).contains(id) <==> exists|i: int| 0 <= i < log.len() && {
            ||| kind is Prepare && #[trigger] log[i] == MessageView::Prepare { block_hash: hash, node_id: id }
            ||| kind is Commit && log[i] == MessageView::Commit { block_hash: hash, node_id: id }
        },
{
    if voters(log, hash, kind).contains(id) {
        let i = choose|i: int| 0 <= i < log.len() && #[trigger] is_vote(log[i], kind, hash, id);
        match log[i] {
            MessageView::Prepare { block_hash, node_id } => {
                assert(log[i] == MessageView::Prepare { block_hash: hash, node_id: id });
            },
            MessageView::Commit { block_hash, node_id } => {
                assert(log[i] == MessageView::Commit { block_hash: hash, node_id: id });
            },
            _ => {},
        }
    }
    if exists|i: int| 0 <= i < log.len() && {
        ||| kind is Prepare && #[trigger] log[i] == MessageView::Prepare { block_hash: hash, node_id: id }
        ||| kind is Commit && log[i] == MessageView::Commit { block_hash: hash, node_id: id }
    } {
        let i = choose|i: int| 0 <= i < log.len() && {
            ||| kind is Prepare && #[trigger] log[i] == MessageView::Prepare { block_hash: hash, node_id: id }
            ||| kind is Commit && log[i] == MessageView::Commit { block_hash: hash, node_id: id }
        };
        assert(is_vote(log[i], kind, hash, id));
    }
}

/// A block is appended only after commits naming its own hash came from at least `quorum`
/// distinct nodes, and only if it was proposed in the log.
pub proof fn lemma_appended_block_has_commit_quorum(n: NodeView, msg: MessageView, quorum: nat)
    ensures
        ({
            let after = node_after(n, msg, quorum);
            let log = n.log.push(msg);
            after.ledger.chain.len() > n.ledger.chain.len() ==> {
                let b = after.ledger.chain.last();
                &&& voters(log, b.hash, VoteKind::Commit).len() >= quorum
                &&& forall|id: u32| #[trigger] voters(log, b.hash, VoteKind::Commit).contains(id) ==>
                    exists|i: int| 0 <= i < log.len() && #[trigger] log[i] == MessageView::Commit { block_hash: b.hash, node_id: id }
                &&& exists|i: int| 0 <= i < log.len() && #[trigger] log[i] == MessageView::PrePrepare { block: b, view: log[i]->view }
            }
        }),
{
    let after = node_after(n, msg, quorum);
    let log = n.log.push(msg);
    if after.ledger.chain.len() > n.ledger.chain.len() {
        let h = msg->Commit_block_hash;
        let k = choose|k: int| first_proposal_at(log, h, k);
        let b = log[k]->block;
        assert(after.ledger.chain.last() == b);
        assert(b.hash == h);
        assert forall|id: u32| #[trigger] voters(log, b.hash, VoteKind::Commit).contains(id) implies
            exists|i: int| 0 <= i < log.len() && #[trigger] log[i] == MessageView::Commit { block_hash: b.hash, node_id: id } by {
            lemma_voters_are_senders(log, b.hash, VoteKind::Commit, id);
        }
        assert(log[k] == MessageView::PrePrepare { block: b, view: log[k]->view });
    }
}

/// The node whose vote `m` is, where `m` is a vote of kind `kind` for `hash`.
pub open spec fn vote_id(m: MessageView, kind: VoteKind, hash: Seq<char>) -> Option<u32> {
    match m {
        MessageView::Prepare { block_hash, node_id } => if kind is Prepare && block_hash == hash { Some(node_id) } else { None },
        MessageView::Commit { block_hash, node_id } => if kind is Commit && block_hash == hash { Some(node_id) } else { None },
        MessageView::PrePrepare { .. } => None,
    }
}

/// Logging one more message adds at most its sender to a tally.
pub proof fn lemma_voters_push(log: Seq<MessageView>, m: MessageView, hash: Seq<char>, kind: VoteKind)
    ensures
        voters(log.push(m), hash, kind) == match vote_id(m, kind, hash) {
            Some(id) => voters(log, hash, kind).insert(id),
            None => voters(log, hash, kind),
        },
{
    let after = voters(log.push(m), hash, kind);
    let expected = match vote_id(m, kind, hash) {
        Some(id) => voters(log, hash, kind).insert(id),
        None => voters(log, hash, kind),
    };
    assert forall|id: u32| after.contains(id) == expected.contains(id) by {
        if after.contains(id) {
            let i = choose|i: int| 0 <= i < log.push(m).len() && #[trigger] is_vote(log.push(m)[i], kind, hash, id);
            if i < log.len() {
                assert(is_vote(log[i], kind, hash, id));
            }
        }
        if voters(log, hash, kind).contains(id) {
            let i = choose|i: int| 0 <= i < log.len() && #[trigger] is_vote(log[i], kind, hash, id);
            assert(is_vote(log.push(m)[i], kind, hash, id));
        }
        if vote_id(m, kind, hash) == Some(id) {
            assert(is_vote(log.push(m)[log.len() as int], kind, hash, id));
        }
    }
    assert(after =~= expected);
}

/// Every tally is a finite set.
pub proof fn lemma_voters_finite(log: Seq<MessageView>, hash: Seq<char>, kind: VoteKind)
    ensures
        voters(log, hash, kind).finite(),
    decreases log.len(),
{
    if log.len() == 0 {
        assert(voters(log, hash, kind) =~= Set::<u32>::empty());
    } else {
        lemma_voters_finite(log.drop_last(), hash, kind);
        lemma_voters_push(log.drop_last(), log.last(), hash, kind);
        assert(log.drop_last().push(log.last()) =~= log);
    }
}

/// One more logged message never lowers a tally and raises it by one at most.
pub proof fn lemma_tally_step(log: Seq<MessageView>, m: MessageView, hash: Seq<char>, kind: VoteKind)
    ensures
        voters(log, hash, kind).len() <= voters(log.push(m), hash, kind).len() <= voters(log, hash, kind).len() + 1,
{
    lemma_voters_finite(log, hash, kind);
    lemma_voters_push(log, m, hash, kind);
}

/// Handling a message leaves the chain as it was, or appends exactly one block: the block
/// first proposed in the log with the commit's hash, once a quorum of distinct nodes committed
/// to it, and only where that block links to the last block by hash and index and its
/// transactions pass the balance check; the balances change only then, by that block's
/// transactions.
pub proof fn lemma_chain_grows_only_by_committed_block(n: NodeView, msg: MessageView, quorum: nat)
    ensures
        ({
            let after = node_after(n, msg, quorum);
            let log = n.log.push(msg);
            ||| after.ledger == n.ledger
            ||| {
                &&& msg is Commit
                &&& voters(log, msg->Commit_block_hash, VoteKind::Commit).len() >= quorum
                &&& proposed_block(log, msg->Commit_block_hash) is Some
                &&& block_acceptable(n, proposed_block(log, msg->Commit_block_hash).unwrap())
                &&& after.ledger.chain.last().prev_hash == n.ledger.chain.last().hash
                &&& after.ledger.chain.last().index == n.ledger.chain.last().index + 1
                &&& after.ledger.chain == n.ledger.chain.push(proposed_block(log, msg->Commit_block_hash).unwrap())
                &&& after.ledger.accounts == apply_txs(
                    n.ledger.accounts,
                    proposed_block(log, msg->Commit_block_hash).unwrap().data,
                ).unwrap()
            }
        }),
{
}

/// No handled message breaks the links of the chain.
pub proof fn lemma_receive_keeps_chain_linked(n: NodeView, msg: MessageView, quorum: nat)
    requires
        chain_linked(n.ledger.chain),
    ensures
        chain_linked(node_after(n, msg, quorum).ledger.chain),
{
    let c = node_after(n, msg, quorum).ledger.chain;
    if c != n.ledger.chain {
        assert forall|i: int| 1 <= i < c.len() implies (#[trigger] c[i]).prev_hash == c[i - 1].hash
            && c[i].index == c[i - 1].index + 1 by {
            assert(c[i - 1] == n.ledger.chain[i - 1]);
            if i < c.len() - 1 {
                assert(c[i] == n.ledger.chain[i]);
            }
        }
    }
}

/// Dropping trailing transactions from an acceptable block leaves it acceptable.
pub proof fn lemma_acceptable_prefix(n: NodeView, b1: BlockView, b2: BlockView, j: int)
    requires
        block_acceptable(n, b1),
        b2.prev_hash == b1.prev_hash,
        b2.index == b1.index,
        0 <= j <= b1.data.len(),
        b2.data == b1.data.take(j),
    ensures
        block_acceptable(n, b2),
{
    if !(check_txs(n.ledger.accounts, b1.data.take(j)) is Accepted) {
        lemma_check_txs_failure_sticks(n.ledger.accounts, b1.data, j, b1.data.len() as int);
        assert(b1.data.take(b1.data.len() as int) =~= b1.data);
    }
}

/// No handled message gives the chain two blocks with the same hash.
pub proof fn lemma_receive_keeps_hashes_distinct(n: NodeView, msg: MessageView, quorum: nat)
    requires
        hashes_distinct(n.ledger.chain),
    ensures
        hashes_distinct(node_after(n, msg, quorum).ledger.chain),
{
    let after = node_after(n, msg, quorum);
    if after.ledger.chain != n.ledger.chain {
        let log = n.log.push(msg);
        let hash = msg->Commit_block_hash;
        let b = proposed_block(log, hash).unwrap();
        let c = after.ledger.chain;
        assert forall|i: int, j: int| 0 <= i < c.len() && 0 <= j < c.len() && i != j
            implies (#[trigger] c[i]).hash != (#[trigger] c[j]).hash by {
            if i == c.len() - 1 {
                assert(c[j] == n.ledger.chain[j]);
            } else if j == c.len() - 1 {
                assert(c[i] == n.ledger.chain[i]);
            }
        }
    }
}

/// The ports of the nodes `0 .. total_nodes` other than `id`, in order.
pub open spec fn peer_ports_of(id: u32, total_nodes: nat) -> Seq<u16>
    decreases total_nodes,
{
    if total_nodes == 0 {
        Seq::empty()
    } else {
        let last = (total_nodes - 1) as nat;
        let rest = peer_ports_of(id, last);
        if last == id as nat {
            rest
        } else {
            rest.push((BASE_PORT + last) as u16)
        }
    }
}

fn vote_of(m: &ConsensusMessage, kind: VoteKind, hash: &String) -> (r: Option<u32>)
    ensures
        match r {
            Some(id) => is_vote(m@, kind, hash@, id),
            None => forall|id: u32| !is_vote(m@, kind, hash@, id),
        },
{
    match m {
        ConsensusMessage::Prepare { block_hash, node_id } => match kind {
            VoteKind::Prepare => if *block_hash == *hash { Some(*node_id) } else { None },
            VoteKind::Commit => None,
        },
        ConsensusMessage::Commit { block_hash, node_id } => match kind {
            VoteKind::Commit => if *block_hash == *hash { Some(*node_id) } else { None },
            VoteKind::Prepare => None,
        },
        ConsensusMessage::PrePrepare { .. } => None,
    }
}

fn contains_id(ids: &Vec<u32>, id: u32) -> (r: bool)
    ensures
        r == ids@.contains(id),
{
    let n = ids.len();
    let mut i: usize = 0;
    while i < n
        invariant
            n == ids@.len(),
            i <= n,
            forall|j: int| 0 <= j < i ==> ids@[j] != id,
        decreases n - i,
    {
        if ids[i] == id {
            return true;
        }
        i = i + 1;
    }
    false
}

impl Clone for Node {
    fn clone(&self) -> (r: Self)
        ensures
            r@ == self@,
    {
        let mut messages: Vec<ConsensusMessage> = Vec::new();
        let n = self.messages_received.len();
        let mut i: usize = 0;
        while i < n
            invariant
                n == self.messages_received@.len(),
                i <= n,
                messages@.len() == i,
                forall|j: int| 0 <= j < i ==> #[trigger] messages@[j]@ == self.messages_received@[j]@,
            decreases n - i,
        {
            messages.push(self.messages_received[i].clone());
            i = i + 1;
        }
        assert(msgs_view(messages@) =~= msgs_view(self.messages_received@));
        Node { id: self.id, blockchain: self.blockchain.clone(), messages_received: messages }
    }
}

impl Node {
    /// A node with a fresh ledger (see [`Blockchain::new_blockchain`]) and no message.
    pub fn new(id: u32) -> (node: Node)
        ensures
            node@.id == id,
            node@.log == Seq::<MessageView>::empty(),
            node@.ledger.chain.len() == 1,
            node@.ledger.chain[0].index == 0,
            node@.ledger.chain[0].prev_hash == "0"@,
            node@.ledger.chain[0].data.len() == 0,
            node@.ledger.chain[0].is_sealed(),
            node@.ledger.accounts == initial_accounts(),
    {
        let node = Node { id, blockchain: Blockchain::new_blockchain(), messages_received: Vec::new() };
        assert(node@.log =~= Seq::<MessageView>::empty());
        node
    }

    /// Handles one message of a round and gives the message to broadcast in answer, if any.
    pub fn receive_message(&mut self, msg: ConsensusMessage, quorum: usize) -> (reply: Option<ConsensusMessage>)
        requires
            receive_safe(old(self)@, msg@, quorum as nat),
        ensures
            final(self)@ == node_after(old(self)@, msg@, quorum as nat),
            opt_msg_view(reply) == reply_to(old(self)@, msg@, quorum as nat),
    {
        let ghost n0 = self@;
        self.messages_received.push(msg.clone());
        assert(msgs_view(self.messages_received@) =~= n0.log.push(msg@));
        match msg {
            ConsensusMessage::PrePrepare { block, view: _ } => {
                if self.is_block_valid(&block) {
                    Some(ConsensusMessage::Prepare { block_hash: block.hash.clone(), node_id: self.id })
                } else {
                    None
                }
            },
            ConsensusMessage::Prepare { block_hash, .. } => {
                if self.count_unique_votes(&block_hash, VoteKind::Prepare) >= quorum {
                    Some(ConsensusMessage::Commit { block_hash: block_hash.clone(), node_id: self.id })
                } else {
                    None
                }
            },
            ConsensusMessage::Commit { block_hash, .. } => {
                if self.count_unique_votes(&block_hash, VoteKind::Commit) >= quorum {
                    if let Some(block) = self.find_block_in_messages(&block_hash) {
                        if !self.chain_has(&block.hash) && self.is_block_valid(&block) {
                            proof {
                                lemma_checked_block_applies_exactly(self@.ledger.accounts, block@.data);
                            }
                            self.blockchain.apply_block(&block);
                            self.blockchain.chain.push(block);
                            self.messages_received.clear();
                            assert(msgs_view(self.messages_received@) =~= Seq::<MessageView>::empty());
                            assert(self@.ledger.chain =~= n0.ledger.chain.push(proposed_block(n0.log.push(msg@), block_hash@).unwrap()));
                        }
                    }
                }
                None
            },
        }
    }

    /// The proposed block extends the last block and its transactions pass the balance check.
    fn is_block_valid(&self, block: &Block) -> (valid: bool)
        ensures
            valid == block_acceptable(self@, block@),
    {
        if !self.extends_chain(block) {
            return false;
        }
        match self.blockchain.check_transactions(&block.data) {
            TxCheck::Accepted => true,
            _ => false,
        }
    }

    /// The block carries the hash of the last block of the chain and the next index.
    fn extends_chain(&self, block: &Block) -> (r: bool)
        ensures
            r == extends_chain(self@, block@),
    {
        let n = self.blockchain.chain.len();
        if n == 0 {
            return false;
        }
        let last = &self.blockchain.chain[n - 1];
        assert(self@.ledger.chain.last() == last@);
        block.prev_hash == last.hash && last.index < u32::MAX && block.index == last.index + 1
    }

    /// Whether handling `msg` stays clear of the inputs [`Node::receive_message`] leaves out:
    /// a proposal read against an empty chain, or a balance pushed past `u32::MAX`.
    pub fn receive_is_safe(&self, msg: &ConsensusMessage, quorum: usize) -> (safe: bool)
        ensures
            safe == receive_safe(self@, msg@, quorum as nat),
    {
        match msg {
            ConsensusMessage::PrePrepare { block, .. } => {
                if self.blockchain.chain.len() == 0 {
                    return false;
                }
                if !self.extends_chain(block) {
                    return true;
                }
                match self.blockchain.check_transactions(&block.data) {
                    TxCheck::Overflow => false,
                    _ => true,
                }
            },
            ConsensusMessage::Prepare { .. } => true,
            ConsensusMessage::Commit { .. } => true,
        }
    }

    /// The first proposed block in the log whose hash is `hash`.
    fn find_block_in_messages(&self, hash: &String) -> (found: Option<Block>)
        ensures
            match found {
                Some(b) => proposed_block(self@.log, hash@) == Some(b@),
                None => proposed_block(self@.log, hash@) is None,
            },
    {
        let ghost log = self@.log;
        let n = self.messages_received.len();
        let mut i: usize = 0;
        while i < n
            invariant
                n == log.len(),
                log == msgs_view(self.messages_received@),
                i <= n,
                forall|j: int| 0 <= j < i ==> !proposes(#[trigger] log[j], hash@),
            decreases n - i,
        {
            assert(log[i as int] == self.messages_received@[i as int]@);
            match &self.messages_received[i] {
                ConsensusMessage::PrePrepare { block, .. } => {
                    if block.hash == *hash {
                        proof {
                            assert(first_proposal_at(log, hash@, i as int));
                            let k = choose|k: int| first_proposal_at(log, hash@, k);
                            if k < i {
                                assert(!proposes(log[k], hash@));
                            }
                            if k > i {
                                assert(!proposes(log[i as int], hash@));
                            }
                        }
                        return Some(block.clone());
                    }
                },
                _ => {},
            }
            i = i + 1;
        }
        proof {
            if exists|k: int| first_proposal_at(log, hash@, k) {
                let k = choose|k: int| first_proposal_at(log, hash@, k);
                assert(!proposes(log[k], hash@));
            }
        }
        None
    }

    /// The number of distinct nodes whose vote of kind `kind` for `hash` is in the log.
    fn count_unique_votes(&self, hash: &String, kind: VoteKind) -> (count: usize)
        ensures
            voters(self@.log, hash@, kind).finite(),
            count == voters(self@.log, hash@, kind).len(),
    {
        let ghost log = self@.log;
        let mut seen: Vec<u32> = Vec::new();
        let n = self.messages_received.len();
        let mut i: usize = 0;
        while i < n
            invariant
                n == log.len(),
                log == msgs_view(self.messages_received@),
                i <= n,
                seen@.no_duplicates(),
                seen@.to_set() == voters(log.take(i as int), hash@, kind),
            decreases n - i,
        {
            assert(log[i as int] == self.messages_received@[i as int]@);
            let ghost before = seen@;
            let vote = vote_of(&self.messages_received[i], kind, hash);
            match vote {
                Some(id) => {
                    if !contains_id(&seen, id) {
                        seen.push(id);
                    }
                },
                None => {},
            }
            proof {
                let prev = log.take(i as int);
                let next = log.take(i + 1);
                assert forall|id: u32| seen@.to_set().contains(id) == voters(next, hash@, kind).contains(id) by {
                    if voters(next, hash@, kind).contains(id) {
                        let k = choose|k: int| 0 <= k < next.len() && #[trigger] is_vote(next[k], kind, hash@, id);
                        if k < i {
                            assert(is_vote(prev[k], kind, hash@, id));
                            assert(voters(prev, hash@, kind).contains(id));
                            assert(before.to_set().contains(id));
                            assert(seen@.contains(id)) by {
                                let p = choose|p: int| 0 <= p < before.len() && before[p] == id;
                                assert(seen@[p] == id);
                            }
                        } else {
                            assert(vote == Some(id));
                            if !before.contains(id) {
                                assert(seen@[seen@.len() - 1] == id);
                            } else {
                                let p = choose|p: int| 0 <= p < before.len() && before[p] == id;
                                assert(seen@[p] == id);
                            }
                        }
                    }
                    if seen@.contains(id) {
                        let p = choose|p: int| 0 <= p < seen@.len() && seen@[p] == id;
                        if p < before.len() {
                            assert(before[p] == id);
                            assert(before.to_set().contains(id));
                            let k = choose|k: int| 0 <= k < prev.len() && #[trigger] is_vote(prev[k], kind, hash@, id);
                            assert(is_vote(next[k], kind, hash@, id));
                        } else {
                            assert(is_vote(next[i as int], kind, hash@, id));
                        }
                    }
                }
                assert(seen@.to_set() =~= voters(next, hash@, kind));
            }
            i = i + 1;
        }
        assert(log.take(n as int) =~= log);
        proof {
            seen@.unique_seq_to_set();
        }
        seen.len()
    }

    /// The ports to which this node sends its answers: those of every other node of the network.
    pub fn peer_ports(&self, total_nodes: usize) -> (ports: Vec<u16>)
        requires
            total_nodes <= MAX_NODES || (total_nodes == MAX_NODES + 1 && self.id == MAX_NODES),
        ensures
            ports@ == peer_ports_of(self.id, total_nodes as nat),
    {
        let mut ports: Vec<u16> = Vec::new();
        let mut i: usize = 0;
        while i < total_nodes
            invariant
                i <= total_nodes,
                total_nodes <= MAX_NODES || (total_nodes == MAX_NODES + 1 && self.id == MAX_NODES),
                ports@ == peer_ports_of(self.id, i as nat),
            decreases total_nodes - i,
        {
            if i as u32 != self.id {
                ports.push(node_port(i));
            }
            i = i + 1;
        }
        ports
    }

    /// Some block of the chain carries the hash `hash`.
    fn chain_has(&self, hash: &String) -> (r: bool)
        ensures
            r == chain_has_hash(self@.ledger.chain, hash@),
    {
        let n = self.blockchain.chain.len();
        let mut i: usize = 0;
        while i < n
            invariant
                n == self@.ledger.chain.len(),
                i <= n,
                forall|j: int| 0 <= j < i ==> (#[trigger] self@.ledger.chain[j]).hash != hash@,
            decreases n - i,
        {
            assert(self@.ledger.chain[i as int] == self.blockchain.chain@[i as int]@);
            if self.blockchain.chain[i].hash == *hash {
                return true;
            }
            i = i + 1;
        }
        false
    }
}

} // verus!
