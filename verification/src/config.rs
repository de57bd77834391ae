use vstd::prelude::*;

verus! {

/// Static parameters of a network of nodes.
pub struct Config {
    pub total_nodes: usize,
    pub block_timeout_ms: u64,
}

/// The number of faulty nodes a network of `n` nodes tolerates: the largest `f` with `3f + 1 <= n`.
pub open spec fn max_faulty(n: int) -> int {
    (n - 1) / 3
}

/// The quorum of a network of `n` nodes: `2f + 1` votes.
pub open spec fn quorum_of(n: int) -> int {
    2 * max_faulty(n) + 1
}

/// The first TCP port of the network: node `i` listens on `BASE_PORT + i`.
pub const BASE_PORT: u16 = 8000;

/// The most nodes whose ports all fit in a `u16`.
pub const MAX_NODES: usize = 57536;

/// The port on which node `index` listens.
pub fn node_port(index: usize) -> (port: u16)
    requires
        index < MAX_NODES,
    ensures
        port == BASE_PORT + index,
{
    BASE_PORT + index as u16
}

impl Config {
    /// Number of distinct votes needed to move from one phase to the next.
    pub fn quorum_size(&self) -> (q: usize)
        requires
            self.total_nodes >= 1,
        ensures
            q == quorum_of(self.total_nodes as int),
            1 <= q <= self.total_nodes,
            3 * max_faulty(self.total_nodes as int) + 1 <= self.total_nodes,
    {
        let f = (self.total_nodes - 1) / 3;
        2 * f + 1
    }

    /// The node that proposes the block of a given index, round-robin over the network.
    pub fn get_leader_id(&self, block_index: u32) -> (leader: u32)
        requires
            self.total_nodes as u32 != 0,
        ensures
            leader == block_index % (self.total_nodes as u32),
            leader < self.total_nodes as u32,
    {
        block_index % self.total_nodes as u32
    }
}

} // verus!
