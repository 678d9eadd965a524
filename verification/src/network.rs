//! The network graph: nodes, channels, and budget-constrained route
//! enumeration.
//!
//! The graph maps a node identifier to its settings and keeps, per node,
//! an ordered neighbor list.  Well-formedness demands unique keys, an
//! adjacency entry for every node, and a symmetric neighbor relation.

use vstd::prelude::*;
use crate::htlc::{CLTV_EXPIRY_DELTA_MIN, DEFAULT_FINAL_CLTV_DELTA};

verus! {

/// A relay node of the network, immutable once added.
pub struct Node {
    pub pub_key: String,
    pub alias: String,
    pub cltv_expiry_delta: u32,
}

impl Node {
    pub fn new(pub_key: &str, alias: &str, cltv_expiry_delta: u32) -> (r: Node)
        ensures
            r.pub_key@ == pub_key@,
            r.alias@ == alias@,
            r.cltv_expiry_delta == cltv_expiry_delta,
    {
        Node { pub_key: pub_key.to_owned(), alias: alias.to_owned(), cltv_expiry_delta }
    }
}

impl Clone for Node {
    fn clone(&self) -> (r: Self)
        ensures
            r == *self,
    {
        Node {
            pub_key: self.pub_key.clone(),
            alias: self.alias.clone(),
            cltv_expiry_delta: self.cltv_expiry_delta,
        }
    }
}

/// A symmetric channel between two node identifiers.  The capacity is
/// carried along but plays no part in the analysis.
pub struct Channel {
    pub channel_id: String,
    pub node1: String,
    pub node2: String,
    pub capacity: u64,
}

impl Channel {
    pub fn new(channel_id: &str, node1: &str, node2: &str, capacity: u64) -> (r: Channel)
        ensures
            r.channel_id@ == channel_id@,
            r.node1@ == node1@,
            r.node2@ == node2@,
            r.capacity == capacity,
    {
        Channel {
            channel_id: channel_id.to_owned(),
            node1: node1.to_owned(),
            node2: node2.to_owned(),
            capacity,
        }
    }
}

/// Node store, channel list, adjacency lists, and the reference height.
pub struct LightningNetworkMap {
    pub nodes: Vec<Node>,
    pub channels: Vec<Channel>,
    pub adjacency_list: Vec<(String, Vec<String>)>,
    pub current_block_height: u32,
}

impl LightningNetworkMap {
    /// The node identifiers, in insertion order.
    pub open spec fn node_keys(self) -> Seq<Seq<char>> {
        self.nodes@.map_values(|n: Node| n.pub_key@)
    }

    /// The identifiers that own an adjacency entry, in insertion order.
    pub open spec fn adj_keys(self) -> Seq<Seq<char>> {
        self.adjacency_list@.map_values(|e: (String, Vec<String>)| e.0@)
    }

    pub open spec fn has_node(self, id: Seq<char>) -> bool {
        self.node_keys().contains(id)
    }

    pub open spec fn has_adj(self, id: Seq<char>) -> bool {
        self.adj_keys().contains(id)
    }

    /// The node registered under `id`; meaningful only when `has_node(id)`.
    pub open spec fn spec_node(self, id: Seq<char>) -> Node {
        self.nodes@[self.node_keys().index_of(id)]
    }

    /// Per-hop delta charged for entering `id`: its configured delta, or
    /// the global minimum when the node is unknown.
    pub open spec fn spec_delta_of(self, id: Seq<char>) -> u32 {
        if self.has_node(id) {
            self.spec_node(id).cltv_expiry_delta
        } else {
            CLTV_EXPIRY_DELTA_MIN
        }
    }

    /// The neighbor list of `id`, empty when `id` owns no entry.
    pub open spec fn neighbors_of(self, id: Seq<char>) -> Seq<Seq<char>> {
        if self.has_adj(id) {
            self.adjacency_list@[self.adj_keys().index_of(id)].1@.map_values(|s: String| s@)
        } else {
            Seq::empty()
        }
    }

    /// Well-formedness: unique keys, an adjacency entry for every node,
    /// and a symmetric neighbor relation.
    pub open spec fn wf(self) -> bool {
        &&& self.node_keys().no_duplicates()
        &&& self.adj_keys().no_duplicates()
        &&& forall|id: Seq<char>| #[trigger] self.has_node(id) ==> self.has_adj(id)
        &&& forall|a: Seq<char>, b: Seq<char>|
            #[trigger] self.neighbors_of(a).contains(b) ==> self.neighbors_of(b).contains(a)
    }

    pub fn new(current_block_height: u32) -> (r: LightningNetworkMap)
        ensures
            r.wf(),
            r.nodes@.len() == 0,
            r.channels@.len() == 0,
            r.adjacency_list@.len() == 0,
            r.current_block_height == current_block_height,
    {
        let r = LightningNetworkMap {
            nodes: Vec::new(),
            channels: Vec::new(),
            adjacency_list: Vec::new(),
            current_block_height,
        };
        proof {
            assert(r.node_keys() =~= Seq::<Seq<char>>::empty());
            assert(r.adj_keys() =~= Seq::<Seq<char>>::empty());
        }
        r
    }

    /// Index of the node registered under `key`, by linear search.
    fn find_node_index(&self, key: &String) -> (r: Option<usize>)
        requires
            self.node_keys().no_duplicates(),
        ensures
            match r {
                Some(i) => self.has_node(key@) && i == self.node_keys().index_of(key@)
                    && i < self.nodes@.len(),
                None => !self.has_node(key@),
            },
    {
        let n = self.nodes.len();
        for i in 0..n
            invariant
                n == self.nodes@.len(),
                self.node_keys().no_duplicates(),
                forall|j: int| 0 <= j < i ==> self.node_keys()[j] != key@,
        {
            if self.nodes[i].pub_key == *key {
                proof {
                    let keys = self.node_keys();
                    assert(keys[i as int] == key@);
                    let w = keys.index_of(key@);
                    assert(keys[w] == key@);
                    assert(w == i as int);
                }
                return Some(i);
            }
        }
        proof {
            assert forall|j: int| 0 <= j < self.node_keys().len() implies
                self.node_keys()[j] != key@ by {}
        }
        None
    }

    /// Index of the adjacency entry owned by `key`, by linear search.
    pub(crate) fn find_adj_index(&self, key: &String) -> (r: Option<usize>)
        requires
            self.adj_keys().no_duplicates(),
        ensures
            match r {
                Some(i) => self.has_adj(key@) && i == self.adj_keys().index_of(key@)
                    && i < self.adjacency_list@.len(),
                None => !self.has_adj(key@),
            },
    {
        let n = self.adjacency_list.len();
        for i in 0..n
            invariant
                n == self.adjacency_list@.len(),
                self.adj_keys().no_duplicates(),
                forall|j: int| 0 <= j < i ==> self.adj_keys()[j] != key@,
        {
            if self.adjacency_list[i].0 == *key {
                proof {
                    let keys = self.adj_keys();
                    assert(keys[i as int] == key@);
                    let w = keys.index_of(key@);
                    assert(keys[w] == key@);
                    assert(w == i as int);
                }
                return Some(i);
            }
        }
        None
    }

    /// The node registered under `key`, if any.
    pub fn get_node(&self, key: &String) -> (r: Option<&Node>)
        requires
            self.wf(),
        ensures
            match r {
                Some(n) => self.has_node(key@) && *n == self.spec_node(key@),
                None => !self.has_node(key@),
            },
    {
        match self.find_node_index(key) {
            Some(i) => Some(&self.nodes[i]),
            None => None,
        }
    }

    /// Whether a node is registered under `key`.
    pub fn contains_node(&self, key: &str) -> (r: bool)
        requires
            self.wf(),
        ensures
            r == self.has_node(key@),
    {
        let owned = key.to_owned();
        match self.find_node_index(&owned) {
            Some(_) => true,
            None => false,
        }
    }

    /// Number of registered nodes.
    pub fn node_count(&self) -> (r: usize)
        ensures
            r == self.nodes@.len(),
    {
        self.nodes.len()
    }

    /// Number of registered channels.
    pub fn channel_count(&self) -> (r: usize)
        ensures
            r == self.channels@.len(),
    {
        self.channels.len()
    }

    /// Register a node.  A node with the same identifier is replaced;
    /// the identifier's adjacency entry (and so its neighbor list) is kept.
    pub fn add_node(&mut self, node: Node)
        requires
            old(self).wf(),
        ensures
            final(self).wf(),
            final(self).current_block_height == old(self).current_block_height,
            final(self).channels@ == old(self).channels@,
            final(self).has_node(node.pub_key@),
            final(self).spec_node(node.pub_key@) == node,
            forall|id: Seq<char>| id != node.pub_key@
                ==> #[trigger] final(self).has_node(id) == old(self).has_node(id),
            forall|id: Seq<char>| id != node.pub_key@ && old(self).has_node(id)
                ==> #[trigger] final(self).spec_node(id) == old(self).spec_node(id),
            forall|id: Seq<char>| #[trigger] final(self).neighbors_of(id)
                == old(self).neighbors_of(id),
            final(self).nodes@.len() == old(self).nodes@.len()
                + (if old(self).has_node(node.pub_key@) { 0int } else { 1int }),
    {
        let ghost pre = *self;
        match self.find_adj_index(&node.pub_key) {
            Some(_) => {},
            None => {
                let ghost before = *self;
                self.adjacency_list.push((node.pub_key.clone(), Vec::new()));
                proof {
                    assert(self.adj_keys() =~= before.adj_keys().push(node.pub_key@));
                    assert(self.node_keys() =~= before.node_keys());
                    assert forall|id: Seq<char>| before.has_adj(id)
                        implies #[trigger] self.has_adj(id) by {
                        let j = choose|j: int|
                            0 <= j < before.adj_keys().len() && before.adj_keys()[j] == id;
                        assert(self.adj_keys()[j] == id);
                    }
                    assert forall|id: Seq<char>| #[trigger] self.neighbors_of(id)
                        == before.neighbors_of(id) by {
                        let keys = self.adj_keys();
                        if id == node.pub_key@ {
                            assert(keys[keys.len() - 1] == id);
                            lemma_index_of_unique(keys, id, keys.len() - 1);
                            assert(self.neighbors_of(id)
                                =~= Seq::<Seq<char>>::empty());
                            assert(before.neighbors_of(id)
                                =~= Seq::<Seq<char>>::empty());
                        } else {
                            if before.has_adj(id) {
                                let j = choose|j: int|
                                    0 <= j < before.adj_keys().len()
                                        && before.adj_keys()[j] == id;
                                assert(keys[j] == id);
                                lemma_index_of_unique(keys, id, j);
                                lemma_index_of_unique(before.adj_keys(), id, j);
                            } else {
                                assert forall|j: int| 0 <= j < keys.len()
                                    implies keys[j] != id by {
                                    if j < before.adj_keys().len() {
                                        assert(before.adj_keys()[j] == keys[j]);
                                    }
                                }
                                assert(!self.has_adj(id));
                            }
                        }
                    }
                }
            },
        }
        proof {
            if !pre.has_adj(node.pub_key@) {
                let keys = self.adj_keys();
                assert(keys[keys.len() - 1] == node.pub_key@);
            }
            assert(self.has_adj(node.pub_key@));
        }
        let ghost mid = *self;
        let key_copy = node.pub_key.clone();
        match self.find_node_index(&key_copy) {
            Some(i) => {
                self.nodes.set(i, node);
                proof {
                    assert(self.node_keys()
                        =~= mid.node_keys().update(i as int, key_copy@));
                    assert(self.node_keys() =~= mid.node_keys());
                    assert(self.adj_keys() =~= mid.adj_keys());
                    lemma_index_of_unique(self.node_keys(), key_copy@, i as int);
                    assert forall|id: Seq<char>| #[trigger] self.neighbors_of(id)
                        == mid.neighbors_of(id) by {
                        lemma_same_adjacency(mid, *self, id);
                    }
                    assert forall|id: Seq<char>| id != key_copy@ && mid.has_node(id)
                        implies #[trigger] self.spec_node(id) == mid.spec_node(id) by {
                        let j = choose|j: int|
                            0 <= j < mid.node_keys().len() && mid.node_keys()[j] == id;
                        lemma_index_of_unique(mid.node_keys(), id, j);
                        lemma_index_of_unique(self.node_keys(), id, j);
                    }
                }
            },
            None => {
                self.nodes.push(node);
                proof {
                    assert(self.node_keys() =~= mid.node_keys().push(key_copy@));
                    assert(self.adj_keys() =~= mid.adj_keys());
                    let keys = self.node_keys();
                    assert(keys[keys.len() - 1] == key_copy@);
                    lemma_index_of_unique(keys, key_copy@, keys.len() - 1);
                    assert forall|id: Seq<char>| #[trigger] self.neighbors_of(id)
                        == mid.neighbors_of(id) by {
                        lemma_same_adjacency(mid, *self, id);
                    }
                    assert forall|id: Seq<char>| id != key_copy@ && mid.has_node(id)
                        implies #[trigger] self.spec_node(id) == mid.spec_node(id) by {
                        let j = choose|j: int|
                            0 <= j < mid.node_keys().len() && mid.node_keys()[j] == id;
                        lemma_index_of_unique(mid.node_keys(), id, j);
                        lemma_index_of_unique(self.node_keys(), id, j);
                    }
                    assert forall|id: Seq<char>| id != key_copy@
                        implies #[trigger] self.has_node(id) == mid.has_node(id) by {
                        if self.has_node(id) {
                            let j = choose|j: int|
                                0 <= j < keys.len() && keys[j] == id;
                            assert(j != keys.len() - 1);
                            assert(mid.node_keys()[j] == id);
                            assert(mid.has_node(id));
                        }
                        if mid.has_node(id) {
                            let j = choose|j: int|
                                0 <= j < mid.node_keys().len() && mid.node_keys()[j] == id;
                            assert(keys[j] == id);
                            assert(self.has_node(id));
                        }
                    }
                }
            },
        }
        proof {
            assert forall|id: Seq<char>| #[trigger] self.has_adj(id) == mid.has_adj(id) by {
                lemma_same_adjacency(mid, *self, id);
            }
            assert forall|id: Seq<char>| #[trigger] self.has_node(id)
                implies self.has_adj(id) by {
                if id == key_copy@ {
                    assert(mid.has_adj(id));
                    assert(self.has_adj(id));
                } else {
                    assert(pre.has_node(id) ==> pre.has_adj(id));
                }
            }
            assert forall|a: Seq<char>, b: Seq<char>|
                #[trigger] self.neighbors_of(a).contains(b)
                implies self.neighbors_of(b).contains(a) by {
                assert(self.neighbors_of(a) == pre.neighbors_of(a));
                assert(self.neighbors_of(b) == pre.neighbors_of(b));
            }
        }
    }

    /// Append `nb` to the neighbor list of `key`, creating the entry if
    /// it is missing.
    fn push_neighbor(&mut self, key: &String, nb: &String)
        requires
            old(self).adj_keys().no_duplicates(),
        ensures
            final(self).nodes@ == old(self).nodes@,
            final(self).channels@ == old(self).channels@,
            final(self).current_block_height == old(self).current_block_height,
            final(self).adj_keys().no_duplicates(),
            final(self).neighbors_of(key@) == old(self).neighbors_of(key@).push(nb@),
            forall|id: Seq<char>| id != key@
                ==> #[trigger] final(self).neighbors_of(id) == old(self).neighbors_of(id),
            forall|id: Seq<char>| id != key@
                ==> #[trigger] final(self).has_adj(id) == old(self).has_adj(id),
            final(self).has_adj(key@),
    {
        let ghost pre = *self;
        match self.find_adj_index(key) {
            Some(i) => {
                self.adjacency_list[i].1.push(nb.clone());
                proof {
                    assert(self.adjacency_list@[i as int].0 == pre.adjacency_list@[i as int].0);
                    assert(self.adj_keys() =~= pre.adj_keys());
                    lemma_index_of_unique(self.adj_keys(), key@, i as int);
                    assert(self.neighbors_of(key@)
                        =~= pre.neighbors_of(key@).push(nb@));
                    assert forall|id: Seq<char>| id != key@
                        implies #[trigger] self.neighbors_of(id)
                            == pre.neighbors_of(id) by {
                        if pre.has_adj(id) {
                            let j = choose|j: int|
                                0 <= j < pre.adj_keys().len() && pre.adj_keys()[j] == id;
                            lemma_index_of_unique(pre.adj_keys(), id, j);
                            lemma_index_of_unique(self.adj_keys(), id, j);
                            assert(j != i as int);
                            assert(self.neighbors_of(id) =~= pre.neighbors_of(id));
                        }
                    }
                }
            },
            None => {
                let mut fresh: Vec<String> = Vec::new();
                fresh.push(nb.clone());
                self.adjacency_list.push((key.clone(), fresh));
                proof {
                    assert(self.adj_keys() =~= pre.adj_keys().push(key@));
                    let keys = self.adj_keys();
                    assert(keys[keys.len() - 1] == key@);
                    lemma_index_of_unique(keys, key@, keys.len() - 1);
                    assert(self.neighbors_of(key@)
                        =~= Seq::<Seq<char>>::empty().push(nb@));
                    assert(pre.neighbors_of(key@) =~= Seq::<Seq<char>>::empty());
                    assert(self.neighbors_of(key@)
                        =~= pre.neighbors_of(key@).push(nb@));
                    assert forall|id: Seq<char>| id != key@
                        implies #[trigger] self.neighbors_of(id)
                            == pre.neighbors_of(id) by {
                        if pre.has_adj(id) {
                            let j = choose|j: int|
                                0 <= j < pre.adj_keys().len() && pre.adj_keys()[j] == id;
                            assert(keys[j] == id);
                            lemma_index_of_unique(pre.adj_keys(), id, j);
                            lemma_index_of_unique(keys, id, j);
                            assert(self.neighbors_of(id) =~= pre.neighbors_of(id));
                        } else {
                            assert forall|j: int| 0 <= j < keys.len()
                                implies keys[j] != id by {
                                if j < pre.adj_keys().len() {
                                    assert(pre.adj_keys()[j] == keys[j]);
                                }
                            }
                            assert(!self.has_adj(id));
                        }
                    }
                    assert forall|id: Seq<char>| id != key@
                        implies #[trigger] self.has_adj(id) == pre.has_adj(id) by {
                        if self.has_adj(id) {
                            let j = choose|j: int|
                                0 <= j < keys.len() && keys[j] == id;
                            assert(j != keys.len() - 1);
                            assert(pre.adj_keys()[j] == id);
                            assert(pre.has_adj(id));
                        }
                        if pre.has_adj(id) {
                            let j = choose|j: int|
                                0 <= j < pre.adj_keys().len() && pre.adj_keys()[j] == id;
                            assert(keys[j] == id);
                            assert(self.has_adj(id));
                        }
                    }
                }
            },
        }
    }

    /// Register a channel: the two endpoints become neighbors of each
    /// other, and the channel is recorded.
    pub fn add_channel(&mut self, channel: Channel)
        requires
            old(self).wf(),
        ensures
            final(self).wf(),
            final(self).nodes@ == old(self).nodes@,
            final(self).current_block_height == old(self).current_block_height,
            final(self).channels@ == old(self).channels@.push(channel),
            forall|id: Seq<char>| #[trigger] final(self).has_node(id) == old(self).has_node(id),
            forall|id: Seq<char>| old(self).has_node(id)
                ==> #[trigger] final(self).spec_node(id) == old(self).spec_node(id),
            channel.node1@ != channel.node2@ ==> final(self).neighbors_of(channel.node1@)
                == old(self).neighbors_of(channel.node1@).push(channel.node2@),
            channel.node1@ != channel.node2@ ==> final(self).neighbors_of(channel.node2@)
                == old(self).neighbors_of(channel.node2@).push(channel.node1@),
            channel.node1@ == channel.node2@ ==> final(self).neighbors_of(channel.node1@)
                == old(self).neighbors_of(channel.node1@).push(channel.node2@).push(
                channel.node1@),
            forall|id: Seq<char>| id != channel.node1@ && id != channel.node2@
                ==> #[trigger] final(self).neighbors_of(id) == old(self).neighbors_of(id),
    {
        let ghost pre = *self;
        self.push_neighbor(&channel.node1, &channel.node2);
        let ghost s1 = *self;
        self.push_neighbor(&channel.node2, &channel.node1);
        let ghost s2 = *self;
        self.channels.push(channel);
        proof {
            let n1 = channel.node1@;
            let n2 = channel.node2@;
            assert forall|id: Seq<char>| #[trigger] self.neighbors_of(id)
                == s2.neighbors_of(id) by {
                lemma_same_adjacency(s2, *self, id);
            }
            assert forall|id: Seq<char>| #[trigger] self.has_adj(id) == s2.has_adj(id) by {
                lemma_same_adjacency(s2, *self, id);
            }
            assert(self.node_keys() =~= pre.node_keys());
            assert forall|id: Seq<char>| #[trigger] self.has_node(id) == pre.has_node(id)
                by {}
            if n1 == n2 {
                assert(s1.neighbors_of(n1) == pre.neighbors_of(n1).push(n2));
                assert(s2.neighbors_of(n1) == s1.neighbors_of(n1).push(n1));
                assert(self.neighbors_of(n1) == pre.neighbors_of(n1).push(n2).push(n1));
            } else {
                assert(s1.neighbors_of(n2) == pre.neighbors_of(n2));
                assert(s2.neighbors_of(n2) == s1.neighbors_of(n2).push(n1));
                assert(self.neighbors_of(n2) == pre.neighbors_of(n2).push(n1));
                assert(s1.neighbors_of(n1) == pre.neighbors_of(n1).push(n2));
                assert(s2.neighbors_of(n1) == s1.neighbors_of(n1));
                assert(self.neighbors_of(n1) == pre.neighbors_of(n1).push(n2));
            }
            assert forall|id: Seq<char>| id != n1 && id != n2
                implies #[trigger] self.neighbors_of(id) == pre.neighbors_of(id) by {
                assert(s1.neighbors_of(id) == pre.neighbors_of(id));
                assert(s2.neighbors_of(id) == s1.neighbors_of(id));
            }
            assert forall|id: Seq<char>, x: Seq<char>|
                #[trigger] pre.neighbors_of(id).contains(x)
                implies self.neighbors_of(id).contains(x) by {
                if id == n1 || id == n2 {
                    let base = pre.neighbors_of(id);
                    let j = choose|j: int| 0 <= j < base.len() && base[j] == x;
                    assert(self.neighbors_of(id)[j] == x);
                } else {
                    assert(self.neighbors_of(id) == pre.neighbors_of(id));
                }
            }
            assert forall|a: Seq<char>, b: Seq<char>|
                #[trigger] self.neighbors_of(a).contains(b)
                implies self.neighbors_of(b).contains(a) by {
                let n1 = channel.node1@;
                let n2 = channel.node2@;
                if n1 == n2 {
                    if a == n1 {
                        assert(self.neighbors_of(n1)
                            == pre.neighbors_of(n1).push(n2).push(n1));
                        if pre.neighbors_of(n1).contains(b) {
                            assert(pre.neighbors_of(b).contains(a));
                            assert(self.neighbors_of(b).contains(a));
                        } else {
                            assert(b == n1);
                            assert(self.neighbors_of(n1).contains(n1));
                        }
                    } else {
                        assert(self.neighbors_of(a) == pre.neighbors_of(a));
                        assert(pre.neighbors_of(b).contains(a));
                        assert(self.neighbors_of(b).contains(a));
                    }
                } else {
                    if a == n2 {
                        assert(s1.neighbors_of(n2) == pre.neighbors_of(n2));
                        assert(self.neighbors_of(n2)
                            == pre.neighbors_of(n2).push(n1));
                        if pre.neighbors_of(n2).contains(b) {
                            assert(pre.neighbors_of(b).contains(a));
                            assert(self.neighbors_of(b).contains(a));
                        } else {
                            assert(b == n1);
                            assert(self.neighbors_of(n1)
                                == pre.neighbors_of(n1).push(n2));
                            let nn = self.neighbors_of(n1);
                            assert(nn[nn.len() - 1] == n2);
                            assert(self.neighbors_of(n1).contains(n2));
                        }
                    } else if a == n1 {
                        assert(self.neighbors_of(n1) == s1.neighbors_of(n1));
                        assert(s1.neighbors_of(n1)
                            == pre.neighbors_of(n1).push(n2));
                        if pre.neighbors_of(n1).contains(b) {
                            assert(pre.neighbors_of(b).contains(a));
                            assert(self.neighbors_of(b).contains(a));
                        } else {
                            assert(b == n2);
                            assert(self.neighbors_of(n2)
                                == pre.neighbors_of(n2).push(n1));
                            let nn = self.neighbors_of(n2);
                            assert(nn[nn.len() - 1] == n1);
                            assert(self.neighbors_of(n2).contains(n1));
                        }
                    } else {
                        assert(self.neighbors_of(a) == pre.neighbors_of(a));
                        assert(pre.neighbors_of(a).contains(b));
                        assert(pre.neighbors_of(b).contains(a));
                        assert(self.neighbors_of(b).contains(a));
                    }
                }
            }
            assert forall|id: Seq<char>| #[trigger] self.has_node(id)
                implies self.has_adj(id) by {
                if id != channel.node1@ && id != channel.node2@ {
                    assert(pre.has_adj(id));
                    assert(s1.has_adj(id) == pre.has_adj(id));
                    assert(self.has_adj(id) == s1.has_adj(id));
                } else if id == channel.node2@ {
                    assert(self.has_adj(id));
                } else {
                    assert(s1.has_adj(id));
                    assert(self.has_adj(id));
                }
            }
        }
    }

    /// All neighbors of a node, in insertion order.
    pub fn get_neighbors(&self, node_pub_key: &str) -> (r: Option<&Vec<String>>)
        requires
            self.wf(),
        ensures
            match r {
                Some(v) => self.has_adj(node_pub_key@)
                    && v@.map_values(|s: String| s@) == self.neighbors_of(node_pub_key@),
                None => !self.has_adj(node_pub_key@)
                    && self.neighbors_of(node_pub_key@) == Seq::<Seq<char>>::empty(),
            },
    {
        let owned = node_pub_key.to_owned();
        match self.find_adj_index(&owned) {
            Some(i) => Some(&self.adjacency_list[i].1),
            None => None,
        }
    }
}

impl LightningNetworkMap {
    /// Timelock budget a route consumes: the sum of the per-hop deltas of
    /// every node after the first, unknown nodes costing the minimum.
    pub open spec fn spec_consumed(self, p: Seq<Seq<char>>) -> int
        decreases p.len(),
    {
        if p.len() <= 1 {
            0
        } else {
            self.spec_consumed(p.drop_last()) + self.spec_delta_of(p.last())
        }
    }

    /// Every consecutive pair of the route is joined by a channel.
    pub open spec fn spec_path_in_graph(self, p: Seq<Seq<char>>) -> bool {
        forall|i: int|
            #![trigger self.neighbors_of(p[i])]
            0 <= i && i + 1 < p.len() ==> self.neighbors_of(p[i]).contains(p[i + 1])
    }

    /// Lower edge of the acceptance window: the enumerator emits a route
    /// once its consumed budget is within one canonical final-hop delta of
    /// the full budget.  Saturates at zero.
    pub open spec fn spec_window_low(budget: u32) -> int {
        if budget >= DEFAULT_FINAL_CLTV_DELTA {
            budget - DEFAULT_FINAL_CLTV_DELTA
        } else {
            0
        }
    }

    /// Exactly the routes that budget-constrained enumeration returns:
    /// cycle-free paths from `start` of two or more nodes, of at most
    /// `max_hops` hops (so `max_hops + 1` nodes), whose consumed budget
    /// falls in the acceptance window.
    pub open spec fn spec_accepted_route(
        self,
        start: Seq<char>,
        budget: u32,
        max_hops: int,
        p: Seq<Seq<char>>,
    ) -> bool {
        &&& 2 <= p.len() <= max_hops + 1
        &&& p[0] == start
        &&& p.no_duplicates()
        &&& self.spec_path_in_graph(p)
        &&& Self::spec_window_low(budget) <= self.spec_consumed(p) <= budget
    }

    /// The routes that the depth-first search emits below a given base
    /// path: accepted routes that extend the base.
    pub open spec fn spec_route_extends(
        self,
        base: Seq<Seq<char>>,
        budget: u32,
        max_hops: int,
        p: Seq<Seq<char>>,
    ) -> bool {
        &&& base.is_prefix_of(p)
        &&& 2 <= p.len() <= max_hops + 1
        &&& p.no_duplicates()
        &&& self.spec_path_in_graph(p)
        &&& Self::spec_window_low(budget) <= self.spec_consumed(p) <= budget
    }

    /// Find the candidate routes a payment with the given remaining
    /// timelock budget could still take from `starting_node`.  The
    /// returned vector holds, in some order, exactly the accepted routes.
    pub fn find_possible_routes_with_budget(
        &self,
        starting_node: &str,
        cltv_budget: u32,
        max_hops: usize,
    ) -> (routes: Vec<Vec<String>>)
        requires
            self.wf(),
        ensures
            forall|p: Seq<Seq<char>>| #[trigger] routes.deep_view().contains(p)
                <==> self.spec_accepted_route(starting_node@, cltv_budget, max_hops as int, p),
    {
        let mut routes: Vec<Vec<String>> = Vec::new();
        let mut current_path: Vec<String> = Vec::new();
        current_path.push(starting_node.to_owned());
        proof {
            assert(current_path.deep_view() =~= seq![starting_node@]);
            assert(routes.deep_view() =~= Seq::<Seq<Seq<char>>>::empty());
        }
        self.dfs_routes(&mut routes, &mut current_path, cltv_budget, 0, max_hops);
        proof {
            let base = seq![starting_node@];
            assert forall|p: Seq<Seq<char>>| #[trigger] routes.deep_view().contains(p)
                implies self.spec_accepted_route(starting_node@, cltv_budget, max_hops as int, p)
                by {
                assert(self.spec_route_extends(base, cltv_budget, max_hops as int, p));
                assert(base =~= p.subrange(0, 1));
                assert(p[0] == p.subrange(0, 1)[0]);
                assert(p[0] == starting_node@);
            }
            assert forall|p: Seq<Seq<char>>|
                self.spec_accepted_route(starting_node@, cltv_budget, max_hops as int, p)
                implies #[trigger] routes.deep_view().contains(p) by {
                assert(base =~= p.subrange(0, 1));
                assert(base.is_prefix_of(p));
                assert(self.spec_route_extends(base, cltv_budget, max_hops as int, p));
            }
        }
        routes
    }

    /// Depth-first search below `current_path`, appending to `routes`
    /// every accepted route that extends it.
    #[verifier::loop_isolation(false)]
    fn dfs_routes(
        &self,
        routes: &mut Vec<Vec<String>>,
        current_path: &mut Vec<String>,
        budget: u32,
        used_budget: u64,
        max_depth: usize,
    )
        requires
            self.wf(),
            1 <= old(current_path)@.len() <= max_depth + 2,
            old(current_path).deep_view().no_duplicates(),
            self.spec_path_in_graph(old(current_path).deep_view()),
            used_budget == self.spec_consumed(old(current_path).deep_view()),
        ensures
            final(current_path)@ == old(current_path)@,
            forall|p: Seq<Seq<char>>| #[trigger] final(routes).deep_view().contains(p)
                ==> old(routes).deep_view().contains(p)
                    || self.spec_route_extends(
                    old(current_path).deep_view(),
                    budget,
                    max_depth as int,
                    p,
                ),
            forall|p: Seq<Seq<char>>| #[trigger] old(routes).deep_view().contains(p)
                ==> final(routes).deep_view().contains(p),
            forall|p: Seq<Seq<char>>|
                #[trigger] self.spec_route_extends(
                    old(current_path).deep_view(),
                    budget,
                    max_depth as int,
                    p,
                ) ==> final(routes).deep_view().contains(p),
        decreases max_depth + 2 - current_path@.len(),
    {
        let ghost base = current_path.deep_view();
        let ghost base_strs = current_path@;
        let plen = current_path.len();
        proof {
            assert(base.len() == current_path@.len());
        }
        if plen - 1 > max_depth || used_budget > budget as u64 {
            proof {
                assert forall|p: Seq<Seq<char>>|
                    #[trigger] self.spec_route_extends(base, budget, max_depth as int, p)
                    implies false by {
                    if plen - 1 > max_depth {
                        assert(p.len() >= base.len());
                    } else {
                        self.lemma_consumed_prefix(base, p);
                    }
                }
            }
            return;
        }
        if plen > 1 {
            let low = if budget >= DEFAULT_FINAL_CLTV_DELTA {
                budget - DEFAULT_FINAL_CLTV_DELTA
            } else {
                0
            };
            if used_budget >= low as u64 {
                let copy = clone_string_vec(current_path);
                routes.push(copy);
                proof {
                    assert(routes.deep_view() =~= old(routes).deep_view().push(base));
                    assert(routes.deep_view()[routes.deep_view().len() - 1] == base);
                    assert(routes.deep_view().contains(base));
                }
            }
        }
        let ghost pre_loop = routes.deep_view();
        proof {
            assert forall|p: Seq<Seq<char>>| #[trigger] old(routes).deep_view().contains(p)
                implies pre_loop.contains(p) by {
                let j = choose|j: int|
                    0 <= j < old(routes).deep_view().len()
                        && old(routes).deep_view()[j] == p;
                assert(pre_loop[j] == p);
            }
            assert forall|p: Seq<Seq<char>>| #[trigger] pre_loop.contains(p)
                implies old(routes).deep_view().contains(p)
                    || self.spec_route_extends(base, budget, max_depth as int, p) by {
                if !old(routes).deep_view().contains(p) {
                    assert(p == base);
                    assert(base.is_prefix_of(base));
                }
            }
            assert forall|p: Seq<Seq<char>>|
                #[trigger] self.spec_route_extends(base, budget, max_depth as int, p)
                    && p == base implies pre_loop.contains(p) by {}
        }
        let last = current_path[plen - 1].clone();
        proof {
            assert(last@ == base[base.len() - 1]);
            assert(base.last() == last@);
        }
        match self.get_neighbors(last.as_str()) {
            None => {
                proof {
                    assert forall|p: Seq<Seq<char>>|
                        #[trigger] self.spec_route_extends(base, budget, max_depth as int, p)
                        implies routes.deep_view().contains(p) by {
                        if p.len() > base.len() {
                            assert(self.neighbors_of(p[base.len() - 1]).contains(
                                p[base.len() as int]));
                            assert(p[base.len() - 1] == base.last());
                        } else {
                            assert(p =~= base);
                        }
                    }
                }
            },
            Some(neighbors) => {
                let ghost nbs = self.neighbors_of(last@);
                proof {
                    assert(neighbors.deep_view() =~= nbs);
                }
                let n = neighbors.len();
                for i in 0..n
                    invariant
                        self.wf(),
                        n == neighbors@.len(),
                        nbs == self.neighbors_of(base.last()),
                        nbs.len() == n,
                        forall|j: int| 0 <= j < n ==> #[trigger] neighbors@[j]@ == nbs[j],
                        current_path@ == base_strs,
                        current_path.deep_view() == base,
                        current_path@.len() == plen,
                        1 <= plen <= max_depth + 1,
                        plen == base.len(),
                        base.no_duplicates(),
                        self.spec_path_in_graph(base),
                        used_budget == self.spec_consumed(base),
                        used_budget <= budget as u64,
                        forall|p: Seq<Seq<char>>| #[trigger] routes.deep_view().contains(p)
                            ==> pre_loop.contains(p)
                                || exists|j: int|
                                0 <= j < i && self.spec_route_extends(
                                    #[trigger] base.push(nbs[j]),
                                    budget,
                                    max_depth as int,
                                    p,
                                ),
                        forall|p: Seq<Seq<char>>| #[trigger] pre_loop.contains(p)
                            ==> routes.deep_view().contains(p),
                        forall|p: Seq<Seq<char>>, j: int|
                            0 <= j < i && #[trigger] self.spec_route_extends(
                                base.push(nbs[j]),
                                budget,
                                max_depth as int,
                                p,
                            ) ==> routes.deep_view().contains(p),
                {
                    let nb = &neighbors[i];
                    proof {
                        assert(nb@ == nbs[i as int]);
                    }
                    if !vec_contains_string(current_path, nb) {
                        let delta = match self.get_node(nb) {
                            Some(node) => node.cltv_expiry_delta,
                            None => CLTV_EXPIRY_DELTA_MIN,
                        };
                        proof {
                            assert(delta == self.spec_delta_of(nb@));
                        }
                        let ghost routes_before = routes.deep_view();
                        let nb_clone = nb.clone();
                        current_path.push(nb_clone);
                        proof {
                            let ext = base.push(nbs[i as int]);
                            assert(current_path.deep_view() =~= ext);
                            lemma_no_duplicates_push(base, nbs[i as int]);
                            assert forall|k: int|
                                #![trigger self.neighbors_of(ext[k])]
                                0 <= k && k + 1 < ext.len() implies
                                self.neighbors_of(ext[k]).contains(ext[k + 1]) by {
                                if k + 1 < base.len() {
                                    assert(self.neighbors_of(base[k]).contains(base[k + 1]));
                                } else {
                                    assert(ext[k] == base.last());
                                    assert(ext[k + 1] == nbs[i as int]);
                                    assert(nbs.contains(nbs[i as int]));
                                }
                            }
                            self.lemma_consumed_push(base, nbs[i as int]);
                        }
                        self.dfs_routes(
                            routes,
                            current_path,
                            budget,
                            used_budget + delta as u64,
                            max_depth,
                        );
                        let popped = current_path.pop();
                        proof {
                            assert(current_path@ =~= base_strs);
                            assert(current_path.deep_view() =~= base);
                            let ext = base.push(nbs[i as int]);
                            assert forall|p: Seq<Seq<char>>|
                                #[trigger] routes.deep_view().contains(p)
                                implies pre_loop.contains(p)
                                    || exists|j: int|
                                    0 <= j < i + 1 && self.spec_route_extends(
                                        #[trigger] base.push(nbs[j]),
                                        budget,
                                        max_depth as int,
                                        p,
                                    ) by {
                                if routes_before.contains(p) {
                                    if !pre_loop.contains(p) {
                                        let j = choose|j: int|
                                            0 <= j < i && self.spec_route_extends(
                                                #[trigger] base.push(nbs[j]),
                                                budget,
                                                max_depth as int,
                                                p,
                                            );
                                        assert(0 <= j < i + 1);
                                    }
                                } else {
                                    assert(self.spec_route_extends(
                                        ext,
                                        budget,
                                        max_depth as int,
                                        p,
                                    ));
                                    assert(0 <= i < i + 1);
                                }
                            }
                        }
                    } else {
                        proof {
                            let ext = base.push(nbs[i as int]);
                            assert forall|p: Seq<Seq<char>>, j: int|
                                0 <= j < i + 1 && #[trigger] self.spec_route_extends(
                                    base.push(nbs[j]),
                                    budget,
                                    max_depth as int,
                                    p,
                                ) implies routes.deep_view().contains(p) by {
                                if j == i {
                                    assert(base.contains(nbs[i as int]));
                                    let w = choose|w: int|
                                        0 <= w < base.len() && base[w] == nbs[i as int];
                                    assert(ext[w] == nbs[i as int]);
                                    assert(ext[ext.len() - 1] == nbs[i as int]);
                                    assert(ext.is_prefix_of(p));
                                    assert(p[w] == nbs[i as int]);
                                    assert(p[ext.len() - 1] == nbs[i as int]);
                                    assert(!p.no_duplicates());
                                }
                            }
                        }
                    }
                }
                proof {
                    assert forall|p: Seq<Seq<char>>|
                        #[trigger] self.spec_route_extends(base, budget, max_depth as int, p)
                        implies routes.deep_view().contains(p) by {
                        if p.len() == base.len() {
                            assert(p =~= base);
                            assert(pre_loop.contains(p));
                        } else {
                            let x = p[base.len() as int];
                            assert(self.neighbors_of(p[base.len() - 1]).contains(x));
                            assert(p[base.len() - 1] == base.last());
                            assert(nbs.contains(x));
                            let j = choose|j: int| 0 <= j < nbs.len() && nbs[j] == x;
                            let ext = base.push(nbs[j]);
                            assert(ext =~= p.subrange(0, ext.len() as int));
                            assert(ext.is_prefix_of(p));
                            assert(self.spec_route_extends(ext, budget, max_depth as int, p));
                        }
                    }
                    assert forall|p: Seq<Seq<char>>|
                        #[trigger] routes.deep_view().contains(p)
                        implies old(routes).deep_view().contains(p)
                            || self.spec_route_extends(base, budget, max_depth as int, p)
                        by {
                        if !pre_loop.contains(p) {
                            let j = choose|j: int|
                                0 <= j < n && self.spec_route_extends(
                                    #[trigger] base.push(nbs[j]),
                                    budget,
                                    max_depth as int,
                                    p,
                                );
                            let ext = base.push(nbs[j]);
                            assert(ext.is_prefix_of(p));
                            assert(base =~= ext.subrange(0, base.len() as int));
                            assert(base =~= p.subrange(0, base.len() as int));
                            assert(base.is_prefix_of(p));
                        }
                    }
                }
            },
        }
    }

    /// A prefix of a route never consumes more budget than the route.
    proof fn lemma_consumed_prefix(self, base: Seq<Seq<char>>, p: Seq<Seq<char>>)
        requires
            base.is_prefix_of(p),
        ensures
            self.spec_consumed(base) <= self.spec_consumed(p),
        decreases p.len(),
    {
        if base.len() < p.len() {
            assert(base.is_prefix_of(p.drop_last()));
            self.lemma_consumed_prefix(base, p.drop_last());
            if p.len() > 1 {
                assert(self.spec_consumed(p)
                    == self.spec_consumed(p.drop_last()) + self.spec_delta_of(p.last()));
            } else {
                assert(base.len() == 0);
                self.lemma_consumed_nonneg(p);
                assert(self.spec_consumed(base) == 0);
            }
        } else {
            assert(base =~= p);
        }
    }

    /// Consumed budget is never negative.
    proof fn lemma_consumed_nonneg(self, p: Seq<Seq<char>>)
        ensures
            self.spec_consumed(p) >= 0,
        decreases p.len(),
    {
        if p.len() > 1 {
            self.lemma_consumed_nonneg(p.drop_last());
        }
    }

    /// Appending one node adds exactly that node's per-hop delta.
    proof fn lemma_consumed_push(self, base: Seq<Seq<char>>, x: Seq<char>)
        requires
            base.len() >= 1,
        ensures
            self.spec_consumed(base.push(x))
                == self.spec_consumed(base) + self.spec_delta_of(x),
    {
        let ext = base.push(x);
        assert(ext.drop_last() =~= base);
        assert(ext.last() == x);
    }
}

/// Copy a vector of strings, preserving its view.
pub(crate) fn clone_string_vec(v: &Vec<String>) -> (r: Vec<String>)
    ensures
        r@ == v@,
        r.deep_view() == v.deep_view(),
{
    let mut r: Vec<String> = Vec::new();
    let n = v.len();
    for i in 0..n
        invariant
            n == v@.len(),
            r@ =~= v@.subrange(0, i as int),
    {
        r.push(v[i].clone());
        proof {
            assert(r@ =~= v@.subrange(0, i + 1));
        }
    }
    proof {
        assert(v@.subrange(0, n as int) =~= v@);
    }
    r
}

/// Whether some element of `v` has the same characters as `x`.
pub(crate) fn vec_contains_string(v: &Vec<String>, x: &String) -> (r: bool)
    ensures
        r == v.deep_view().contains(x@),
{
    let n = v.len();
    for i in 0..n
        invariant
            n == v@.len(),
            forall|j: int| 0 <= j < i ==> v.deep_view()[j] != x@,
    {
        if v[i] == *x {
            proof {
                assert(v.deep_view()[i as int] == x@);
            }
            return true;
        }
    }
    false
}

/// Pushing a fresh element keeps a sequence duplicate-free.
pub(crate) proof fn lemma_no_duplicates_push(s: Seq<Seq<char>>, x: Seq<char>)
    requires
        s.no_duplicates(),
        !s.contains(x),
    ensures
        s.push(x).no_duplicates(),
{
    let t = s.push(x);
    assert forall|i: int, j: int|
        0 <= i < t.len() && 0 <= j < t.len() && i != j implies t[i] != t[j] by {
        if i < s.len() && j < s.len() {
            assert(s[i] == t[i] && s[j] == t[j]);
        } else if i < s.len() {
            assert(t[j] == x);
            assert(s[i] == t[i]);
            if t[i] == x {
                assert(s.contains(x));
            }
        } else {
            assert(t[i] == x);
            assert(s[j] == t[j]);
            if t[j] == x {
                assert(s.contains(x));
            }
        }
    }
}

/// In a duplicate-free sequence, `index_of` returns the one witness index.
pub(crate) proof fn lemma_index_of_unique(keys: Seq<Seq<char>>, id: Seq<char>, i: int)
    requires
        keys.no_duplicates(),
        0 <= i < keys.len(),
        keys[i] == id,
    ensures
        keys.index_of(id) == i,
{
    assert(keys.contains(id));
    let w = keys.index_of(id);
    assert(0 <= w < keys.len() && keys[w] == id);
}

/// Two maps with the same adjacency lists agree on every neighbor list.
proof fn lemma_same_adjacency(a: LightningNetworkMap, b: LightningNetworkMap, id: Seq<char>)
    requires
        a.adjacency_list@ == b.adjacency_list@,
    ensures
        a.neighbors_of(id) == b.neighbors_of(id),
        a.has_adj(id) == b.has_adj(id),
{
    assert(a.adj_keys() =~= b.adj_keys());
}

} // verus!
