//! Path utilities over the network graph: exhaustive simple-path
//! enumeration between two endpoints, and a breadth-first path search.

use vstd::prelude::*;
use crate::network::LightningNetworkMap;

verus! {

/// Failure of an operation that names a node the graph does not know.
#[derive(Debug, PartialEq, Eq, Structural, Clone, Copy)]
pub enum InputError {
    UnknownNode,
}

impl LightningNetworkMap {
    /// Exactly the paths that endpoint enumeration returns: cycle-free
    /// paths from `start` to `end` within the length allowance.  The
    /// search stops at `end`, and an extra final hop past the hop ceiling
    /// is admitted when it reaches `end` directly.
    pub open spec fn spec_endpoint_path(
        self,
        start: Seq<char>,
        end: Seq<char>,
        max_hops: int,
        p: Seq<Seq<char>>,
    ) -> bool {
        &&& 1 <= p.len() <= max_hops + 2
        &&& p[0] == start
        &&& p.last() == end
        &&& p.no_duplicates()
        &&& self.spec_path_in_graph(p)
    }

    /// Like `spec_endpoint_path`, for continuations of a base path.
    pub open spec fn spec_endpoint_extends(
        self,
        base: Seq<Seq<char>>,
        end: Seq<char>,
        max_hops: int,
        p: Seq<Seq<char>>,
    ) -> bool {
        &&& base.is_prefix_of(p)
        &&& p.len() <= max_hops + 2
        &&& p.last() == end
        &&& p.no_duplicates()
        &&& self.spec_path_in_graph(p)
    }
}

/// How many entries of a flag vector are set.
spec fn count_true(s: Seq<bool>) -> int
    decreases s.len(),
{
    if s.len() == 0 {
        0
    } else {
        count_true(s.drop_last()) + if s.last() {
            1int
        } else {
            0int
        }
    }
}

proof fn lemma_count_true_le_len(s: Seq<bool>)
    ensures
        0 <= count_true(s) <= s.len(),
    decreases s.len(),
{
    if s.len() > 0 {
        lemma_count_true_le_len(s.drop_last());
    }
}

proof fn lemma_count_true_set(s: Seq<bool>, i: int)
    requires
        0 <= i < s.len(),
        !s[i],
    ensures
        count_true(s.update(i, true)) == count_true(s) + 1,
    decreases s.len(),
{
    let t = s.update(i, true);
    if i == s.len() - 1 {
        assert(t.drop_last() =~= s.drop_last());
    } else {
        assert(t.drop_last() =~= s.drop_last().update(i, true));
        lemma_count_true_set(s.drop_last(), i);
        assert(t.last() == s.last());
    }
}

/// First value stored under `key`, if any.
fn assoc_lookup<'a>(pairs: &'a Vec<(String, String)>, key: &String) -> (r: Option<&'a String>)
    ensures
        match r {
            Some(v) => exists|k: int|
                0 <= k < pairs@.len() && (#[trigger] pairs@[k]).0@ == key@
                    && pairs@[k].1@ == v@,
            None => forall|k: int| 0 <= k < pairs@.len()
                ==> (#[trigger] pairs@[k]).0@ != key@,
        },
{
    let n = pairs.len();
    for i in 0..n
        invariant
            n == pairs@.len(),
            forall|k: int| 0 <= k < i ==> (#[trigger] pairs@[k]).0@ != key@,
    {
        if pairs[i].0 == *key {
            proof {
                assert((pairs@[i as int]).0@ == key@);
            }
            return Some(&pairs[i].1);
        }
    }
    None
}

/// Two endpoints joined by some route of at least one hop.
pub open spec fn spec_connected(g: LightningNetworkMap, a: Seq<char>, b: Seq<char>) -> bool {
    exists|p: Seq<Seq<char>>| {
        &&& p.len() >= 2
        &&& p[0] == a
        &&& p.last() == b
        &&& #[trigger] g.spec_path_in_graph(p)
    }
}

/// Some set flag marks the adjacency entry owned by `id`.
spec fn visited_key(g: LightningNetworkMap, visited: Seq<bool>, id: Seq<char>) -> bool {
    exists|k: int| 0 <= k < visited.len() && visited[k] && #[trigger] g.adj_keys()[k] == id
}

/// Every neighbor that owns an entry of its own is marked, for every
/// marked entry: the frontier cannot grow any further.
spec fn bfs_closed(g: LightningNetworkMap, visited: Seq<bool>) -> bool {
    forall|id: Seq<char>, x: Seq<char>|
        #![trigger visited_key(g, visited, id), g.neighbors_of(id).contains(x)]
        visited_key(g, visited, id) && g.neighbors_of(id).contains(x) && g.has_adj(x)
            ==> visited_key(g, visited, x)
}

/// All neighbors of entry `k` that own entries are marked.
spec fn entry_closed(g: LightningNetworkMap, visited: Seq<bool>, k: int) -> bool {
    forall|x: Seq<char>|
        #[trigger] g.neighbors_of(g.adj_keys()[k]).contains(x) && g.has_adj(x)
            ==> visited_key(g, visited, x)
}

/// Some predecessor entry is keyed by `id`.
spec fn preds_have(preds: Seq<(String, String)>, id: Seq<char>) -> bool {
    exists|m: int| 0 <= m < preds.len() && (#[trigger] preds[m]).0@ == id
}

/// Whether the worklist holds entry index `k`.
spec fn in_queue(q: Seq<usize>, k: int) -> bool {
    exists|qi: int| 0 <= qi < q.len() && (#[trigger] q[qi]) as int == k
}

/// Marking more entries never unmarks a key.
proof fn lemma_visited_key_monotone(
    g: LightningNetworkMap,
    v1: Seq<bool>,
    v2: Seq<bool>,
    id: Seq<char>,
)
    requires
        v1.len() == v2.len(),
        forall|k: int| 0 <= k < v1.len() && #[trigger] v1[k] ==> v2[k],
        visited_key(g, v1, id),
    ensures
        visited_key(g, v2, id),
{
    let k = choose|k: int| 0 <= k < v1.len() && v1[k] && #[trigger] g.adj_keys()[k] == id;
    assert(v2[k]);
}

/// Walking a path from a marked start through a closed marking keeps
/// every step marked.
proof fn lemma_closed_reaches(
    g: LightningNetworkMap,
    visited: Seq<bool>,
    p: Seq<Seq<char>>,
    i: int,
)
    requires
        bfs_closed(g, visited),
        g.spec_path_in_graph(p),
        0 <= i < p.len(),
        visited_key(g, visited, p[0]),
        g.has_adj(p.last()),
    ensures
        visited_key(g, visited, p[i]),
    decreases i,
{
    if i > 0 {
        lemma_closed_reaches(g, visited, p, i - 1);
        assert(g.neighbors_of(p[i - 1]).contains(p[i]));
        if i < p.len() - 1 {
            assert(g.neighbors_of(p[i]).contains(p[i + 1]));
            assert(g.has_adj(p[i]));
        } else {
            assert(p[i] == p.last());
        }
        assert(visited_key(g, visited, p[i - 1]));
    }
}

/// In a sequence whose adjacent entries strictly decrease, every later
/// entry is below every earlier one.
proof fn lemma_strictly_decreasing(ms: Seq<int>, k1: int, k2: int)
    requires
        forall|k: int| 0 <= k && k + 1 < ms.len() ==> #[trigger] ms[k + 1] < ms[k],
        0 <= k1 <= k2 < ms.len(),
    ensures
        ms[k2] <= ms[k1],
    decreases k2 - k1,
{
    if k1 < k2 {
        lemma_strictly_decreasing(ms, k1 + 1, k2);
    }
}

/// Find one path between two named endpoints by breadth-first search.
/// Both endpoints must be registered nodes.  The result is empty exactly
/// when the endpoints coincide or no route joins them.
#[verifier::loop_isolation(false)]
#[verifier::rlimit(60)]
pub fn generate_random_path(
    network: &LightningNetworkMap,
    start: &str,
    end: &str,
) -> (r: Result<Vec<String>, InputError>)
    requires
        network.wf(),
    ensures
        r is Err <==> (!network.has_node(start@) || !network.has_node(end@)),
        match r {
            Ok(p) => {
                &&& p@.len() == 0 ==> (start@ == end@ || !spec_connected(
                    *network,
                    start@,
                    end@,
                ))
                &&& p@.len() != 0 ==> {
                    &&& p.deep_view().len() >= 2
                    &&& p.deep_view()[0] == start@
                    &&& p.deep_view().last() == end@
                    &&& p.deep_view().no_duplicates()
                    &&& network.spec_path_in_graph(p.deep_view())
                }
            },
            Err(e) => e == InputError::UnknownNode,
        },
{
    if !network.contains_node(start) || !network.contains_node(end) {
        return Err(InputError::UnknownNode);
    }
    let start_owned = start.to_owned();
    let end_owned = end.to_owned();
    let ghost g = *network;
    let n = network.adjacency_list.len();
    let mut visited: Vec<bool> = Vec::new();
    for i in 0..n
        invariant
            visited@.len() == i,
            count_true(visited@) == 0,
            forall|k: int| 0 <= k < i ==> !(#[trigger] visited@[k]),
    {
        let ghost pre = visited@;
        visited.push(false);
        proof {
            assert(visited@.drop_last() =~= pre);
        }
    }
    let si = match network.find_adj_index(&start_owned) {
        Some(i) => i,
        None => {
            proof {
                assert(network.has_adj(start@));
                assert(false);
            }
            return Ok(Vec::new());
        },
    };
    proof {
        lemma_count_true_set(visited@, si as int);
        assert(network.adj_keys()[si as int] == start@);
        assert(network.has_adj(end@));
    }
    let ghost visited_init = visited@;
    visited.set(si, true);
    let mut queue: Vec<usize> = Vec::new();
    queue.push(si);
    proof {
        assert(queue@[0] == si);
        assert(in_queue(queue@, si as int));
        assert forall|k: int| 0 <= k < n && #[trigger] visited@[k]
            implies in_queue(queue@, k) by {
            if k != si as int {
                assert(visited@[k] == visited_init[k]);
                assert(!visited_init[k]);
            }
        }
    }
    let mut marked: usize = 1;
    let mut pops: usize = 0;
    let mut preds: Vec<(String, String)> = Vec::new();
    let mut found = false;
    let ghost mut popped: Seq<int> = Seq::empty();
    while queue.len() > 0 && !found
        invariant
            visited@.len() == n,
            marked == count_true(visited@),
            pops + queue@.len() == marked,
            marked <= n,
            visited@[si as int],
            forall|qi: int| 0 <= qi < queue@.len()
                ==> (#[trigger] queue@[qi]) < n && visited@[queue@[qi] as int],
            forall|k: int| 0 <= k < n && #[trigger] visited@[k]
                ==> in_queue(queue@, k) || popped.contains(k),
            forall|k: int| #[trigger] popped.contains(k) ==> 0 <= k < n && visited@[k],
            forall|k: int| #[trigger] popped.contains(k)
                ==> (g.adj_keys()[k] == end@ || entry_closed(g, visited@, k)),
            !found ==> forall|k: int| #[trigger] popped.contains(k)
                ==> g.adj_keys()[k] != end@,
            found ==> exists|k: int| #[trigger] popped.contains(k)
                && g.adj_keys()[k] == end@,
            forall|m: int| 0 <= m < preds@.len()
                ==> #[trigger] g.neighbors_of(preds@[m].1@).contains(preds@[m].0@),
            forall|m: int| 0 <= m < preds@.len() ==> (#[trigger] preds@[m]).0@ != start@,
            forall|m: int| 0 <= m < preds@.len() ==> ((#[trigger] preds@[m]).1@ == start@
                || exists|m2: int| 0 <= m2 < m && preds@[m2].0@ == preds@[m].1@),
            forall|m: int| 0 <= m < preds@.len() ==> exists|k: int|
                0 <= k < n && visited@[k]
                    && g.adj_keys()[k] == (#[trigger] preds@[m]).0@,
            forall|m1: int, m2: int|
                #![trigger preds@[m1], preds@[m2]]
                0 <= m1 < m2 < preds@.len() ==> preds@[m1].0@ != preds@[m2].0@,
            forall|k: int| 0 <= k < n && #[trigger] visited@[k] && k != si as int
                ==> preds_have(preds@, g.adj_keys()[k]),
        decreases n - pops,
    {
        proof {
            lemma_count_true_le_len(visited@);
        }
        let ghost queue_pre = queue@;
        let cur = queue.remove(0);
        pops = pops + 1;
        proof {
            assert(cur == queue_pre[0]);
            assert(queue@ =~= queue_pre.subrange(1, queue_pre.len() as int));
            assert(cur < n && visited@[cur as int]);
            assert forall|k: int| 0 <= k < n && #[trigger] visited@[k]
                implies in_queue(queue@, k) || popped.contains(k) || k == cur as int by {
                if in_queue(queue_pre, k) {
                    let qi = choose|qi: int|
                        0 <= qi < queue_pre.len() && (queue_pre[qi]) as int == k;
                    if qi == 0 {
                        assert(k == cur as int);
                    } else {
                        assert(queue@[qi - 1] as int == k);
                    }
                }
            }
        }
        let cur_key = network.adjacency_list[cur].0.clone();
        proof {
            assert(cur_key@ == g.adj_keys()[cur as int]);
        }
        if cur_key == end_owned {
            found = true;
            proof {
                let popped_pre = popped;
                popped = popped.push(cur as int);
                assert(popped[popped.len() - 1] == cur as int);
                assert(popped.contains(cur as int));
                assert(g.adj_keys()[cur as int] == end@);
                assert forall|k: int| 0 <= k < n && #[trigger] visited@[k]
                    implies in_queue(queue@, k) || popped.contains(k) by {
                    if in_queue(queue_pre, k) {
                        let qi = choose|qi: int|
                            0 <= qi < queue_pre.len() && (queue_pre[qi]) as int == k;
                        if qi == 0 {
                            assert(popped.contains(cur as int));
                        } else {
                            assert(queue@[qi - 1] as int == k);
                        }
                    } else {
                        assert(popped_pre.contains(k));
                        let w = choose|w: int|
                            0 <= w < popped_pre.len() && popped_pre[w] == k;
                        assert(popped[w] == k);
                    }
                }
                assert forall|k: int| #[trigger] popped.contains(k)
                    implies 0 <= k < n && visited@[k] by {
                    let w = choose|w: int| 0 <= w < popped.len() && popped[w] == k;
                    if w < popped.len() - 1 {
                        assert(popped_pre[w] == k);
                        assert(popped_pre.contains(k));
                    }
                }
                assert forall|k: int| #[trigger] popped.contains(k)
                    implies (g.adj_keys()[k] == end@ || entry_closed(g, visited@, k)) by {
                    let w = choose|w: int| 0 <= w < popped.len() && popped[w] == k;
                    if w < popped.len() - 1 {
                        assert(popped_pre[w] == k);
                        assert(popped_pre.contains(k));
                    }
                }
            }
        } else {
            let ghost popped_pre = popped;
            let nbcount = network.adjacency_list[cur].1.len();
            proof {
                assert(cur_key@ != end@);
            }
            for t in 0..nbcount
                invariant
                    cur < n,
                    cur_key@ == g.adj_keys()[cur as int],
                    cur_key@ != end@,
                    nbcount == g.adjacency_list@[cur as int].1@.len(),
                    visited@.len() == n,
                    marked == count_true(visited@),
                    pops + queue@.len() == marked,
                    marked <= n,
                    visited@[si as int],
                    visited@[cur as int],
                    popped == popped_pre,
                    forall|qi: int| 0 <= qi < queue@.len()
                        ==> (#[trigger] queue@[qi]) < n && visited@[queue@[qi] as int],
                    forall|k: int| 0 <= k < n && #[trigger] visited@[k]
                        ==> in_queue(queue@, k) || popped.contains(k) || k == cur as int,
                    forall|k: int| #[trigger] popped.contains(k) ==> 0 <= k < n && visited@[k],
                    forall|k: int| #[trigger] popped.contains(k)
                        ==> (g.adj_keys()[k] == end@ || entry_closed(g, visited@, k)),
                    forall|k: int| #[trigger] popped.contains(k)
                        ==> g.adj_keys()[k] != end@,
                    forall|t2: int|
                        #![trigger g.adjacency_list@[cur as int].1@[t2]]
                        0 <= t2 < t ==> (g.has_adj(g.adjacency_list@[cur as int].1@[t2]@)
                            ==> visited_key(g, visited@,
                                g.adjacency_list@[cur as int].1@[t2]@)),
                    forall|m: int| 0 <= m < preds@.len()
                        ==> #[trigger] g.neighbors_of(preds@[m].1@).contains(preds@[m].0@),
                    forall|m: int| 0 <= m < preds@.len()
                        ==> (#[trigger] preds@[m]).0@ != start@,
                    forall|m: int| 0 <= m < preds@.len() ==> ((#[trigger] preds@[m]).1@
                        == start@ || exists|m2: int|
                        0 <= m2 < m && preds@[m2].0@ == preds@[m].1@),
                    forall|m: int| 0 <= m < preds@.len() ==> exists|k: int|
                        0 <= k < n && visited@[k]
                            && g.adj_keys()[k] == (#[trigger] preds@[m]).0@,
                    forall|m1: int, m2: int|
                        #![trigger preds@[m1], preds@[m2]]
                        0 <= m1 < m2 < preds@.len() ==> preds@[m1].0@ != preds@[m2].0@,
                    forall|k: int| 0 <= k < n && #[trigger] visited@[k] && k != si as int
                        ==> preds_have(preds@, g.adj_keys()[k]),
            {
                let nb = &network.adjacency_list[cur].1[t];
                match network.find_adj_index(nb) {
                    Some(j) => {
                        if !visited[j] {
                            let ghost visited_pre = visited@;
                            let ghost preds_pre = preds@;
                            let ghost queue_mid = queue@;
                            proof {
                                lemma_count_true_set(visited@, j as int);
                                lemma_count_true_le_len(visited@.update(j as int, true));
                            }
                            visited.set(j, true);
                            marked = marked + 1;
                            proof {
                                let keys = g.adj_keys();
                                assert(keys[cur as int] == cur_key@);
                                crate::network::lemma_index_of_unique(
                                    keys,
                                    cur_key@,
                                    cur as int,
                                );
                                assert(g.neighbors_of(cur_key@)[t as int] == nb@);
                                assert(g.neighbors_of(cur_key@).contains(nb@));
                                assert(keys[j as int] == nb@);
                                assert(j != si as int);
                            }
                            preds.push((nb.clone(), cur_key.clone()));
                            queue.push(j);
                            proof {
                                let keys = g.adj_keys();
                                assert(preds@ =~= preds_pre.push((preds@[preds@.len() - 1])));
                                assert(preds@[preds@.len() - 1].0@ == nb@);
                                assert(preds@[preds@.len() - 1].1@ == cur_key@);
                                assert(queue@ =~= queue_mid.push(j));
                                // marked keys stay marked
                                assert forall|id: Seq<char>|
                                    visited_key(g, visited_pre, id)
                                    implies visited_key(g, visited@, id) by {
                                    lemma_visited_key_monotone(g, visited_pre, visited@, id);
                                }
                                // the new flag marks the new key
                                assert(visited@[j as int] && keys[j as int] == nb@);
                                assert(visited_key(g, visited@, nb@));
                                // closure of already popped entries is kept
                                assert forall|k: int| #[trigger] popped.contains(k)
                                    implies (keys[k] == end@
                                        || entry_closed(g, visited@, k)) by {
                                    if keys[k] != end@ {
                                        assert(entry_closed(g, visited_pre, k));
                                        assert forall|x: Seq<char>|
                                            #[trigger] g.neighbors_of(keys[k]).contains(x)
                                                && g.has_adj(x)
                                            implies visited_key(g, visited@, x) by {
                                            assert(visited_key(g, visited_pre, x));
                                            lemma_visited_key_monotone(
                                                g,
                                                visited_pre,
                                                visited@,
                                                x,
                                            );
                                        }
                                    }
                                }
                                // processed neighbors so far are still marked
                                assert forall|t2: int|
                                    #![trigger g.adjacency_list@[cur as int].1@[t2]]
                                    0 <= t2 < t + 1 implies (g.has_adj(
                                    g.adjacency_list@[cur as int].1@[t2]@,
                                ) ==> visited_key(g, visited@,
                                        g.adjacency_list@[cur as int].1@[t2]@)) by {
                                    if t2 < t {
                                        if g.has_adj(g.adjacency_list@[cur as int].1@[t2]@) {
                                            lemma_visited_key_monotone(
                                                g,
                                                visited_pre,
                                                visited@,
                                                g.adjacency_list@[cur as int].1@[t2]@,
                                            );
                                        }
                                    } else {
                                        assert(g.adjacency_list@[cur as int].1@[t2]@ == nb@);
                                    }
                                }
                                // the fresh entry keeps predecessor keys unique
                                assert forall|m1: int, m2: int|
                                    #![trigger preds@[m1], preds@[m2]]
                                    0 <= m1 < m2 < preds@.len() implies
                                    preds@[m1].0@ != preds@[m2].0@ by {
                                    if m2 == preds@.len() - 1 {
                                        assert(preds@[m1] == preds_pre[m1]);
                                        if preds@[m1].0@ == nb@ {
                                            let k = choose|k: int|
                                                0 <= k < n && visited_pre[k]
                                                    && keys[k] == preds_pre[m1].0@;
                                            assert(k == j);
                                            assert(false);
                                        }
                                    }
                                }
                                // the parent is the start or has its own entry
                                assert forall|m: int| 0 <= m < preds@.len() implies
                                    ((#[trigger] preds@[m]).1@ == start@ || exists|m2: int|
                                        0 <= m2 < m && preds@[m2].0@ == preds@[m].1@) by {
                                    if m == preds@.len() - 1 {
                                        if cur as int != si as int {
                                            assert(visited_pre[cur as int]);
                                            assert(preds_have(preds_pre, keys[cur as int]));
                                            let m2 = choose|m2: int|
                                                0 <= m2 < preds_pre.len()
                                                    && (#[trigger] preds_pre[m2]).0@
                                                    == keys[cur as int];
                                            assert(preds@[m2].0@ == preds@[m].1@);
                                        } else {
                                            assert(keys[cur as int] == start@);
                                        }
                                    } else {
                                        assert(preds@[m] == preds_pre[m]);
                                        if preds_pre[m].1@ != start@ {
                                            let m2 = choose|m2: int|
                                                0 <= m2 < m
                                                    && preds_pre[m2].0@ == preds_pre[m].1@;
                                            assert(preds@[m2].0@ == preds@[m].1@);
                                        }
                                    }
                                }
                                // every marked non-start entry keeps a predecessor
                                assert forall|k: int|
                                    0 <= k < n && #[trigger] visited@[k] && k != si as int
                                    implies preds_have(preds@, keys[k]) by {
                                    if k == j as int {
                                        assert(preds@[preds@.len() - 1].0@ == keys[k]);
                                    } else {
                                        assert(visited_pre[k]);
                                        let m = choose|m: int|
                                            0 <= m < preds_pre.len()
                                                && (#[trigger] preds_pre[m]).0@ == keys[k];
                                        assert(preds@[m].0@ == keys[k]);
                                    }
                                }
                                // partition: the new entry waits in the queue
                                assert forall|k: int| 0 <= k < n && #[trigger] visited@[k]
                                    implies in_queue(queue@, k) || popped.contains(k)
                                        || k == cur as int by {
                                    if k == j as int {
                                        assert(queue@[queue@.len() - 1] as int == k);
                                    } else {
                                        assert(visited_pre[k]);
                                        if in_queue(queue_mid, k) {
                                            let qi = choose|qi: int|
                                                0 <= qi < queue_mid.len()
                                                    && (queue_mid[qi]) as int == k;
                                            assert(queue@[qi] as int == k);
                                        }
                                    }
                                }
                                // coverage witness for each predecessor key
                                assert forall|m: int| 0 <= m < preds@.len() implies
                                    exists|k: int| 0 <= k < n && visited@[k]
                                        && keys[k] == (#[trigger] preds@[m]).0@ by {
                                    if m == preds@.len() - 1 {
                                        assert(visited@[j as int]
                                            && keys[j as int] == preds@[m].0@);
                                    } else {
                                        let k = choose|k: int|
                                            0 <= k < n && visited_pre[k]
                                                && keys[k] == (#[trigger] preds_pre[m]).0@;
                                        assert(visited@[k] && keys[k] == preds@[m].0@);
                                    }
                                }
                            }
                        } else {
                            proof {
                                let keys = g.adj_keys();
                                assert(keys[j as int] == nb@);
                                assert(visited_key(g, visited@, nb@));
                                assert(g.adjacency_list@[cur as int].1@[t as int]@ == nb@);
                            }
                        }
                    },
                    None => {
                        proof {
                            assert(!g.has_adj(nb@));
                            assert(g.adjacency_list@[cur as int].1@[t as int]@ == nb@);
                        }
                    },
                }
            }
            proof {
                // the popped entry is now fully processed
                let keys = g.adj_keys();
                crate::network::lemma_index_of_unique(keys, cur_key@, cur as int);
                assert forall|x: Seq<char>|
                    #[trigger] g.neighbors_of(keys[cur as int]).contains(x) && g.has_adj(x)
                    implies visited_key(g, visited@, x) by {
                    let nbs = g.neighbors_of(cur_key@);
                    let t2 = choose|t2: int| 0 <= t2 < nbs.len() && nbs[t2] == x;
                    assert(g.adjacency_list@[cur as int].1@[t2]@ == x);
                }
                assert(entry_closed(g, visited@, cur as int));
                popped = popped.push(cur as int);
                assert(popped[popped.len() - 1] == cur as int);
                assert(popped.contains(cur as int));
                assert forall|k: int| #[trigger] popped.contains(k)
                    implies 0 <= k < n && visited@[k]
                        && (keys[k] == end@ || entry_closed(g, visited@, k))
                        && keys[k] != end@ by {
                    let w = choose|w: int| 0 <= w < popped.len() && popped[w] == k;
                    if w < popped.len() - 1 {
                        assert(popped[w] == popped_pre[w]);
                        assert(popped_pre.contains(k));
                    }
                }
                assert forall|k: int| 0 <= k < n && #[trigger] visited@[k]
                    implies in_queue(queue@, k) || popped.contains(k) by {
                    if k != cur as int {
                        assert(in_queue(queue@, k) || popped_pre.contains(k)
                            || k == cur as int);
                        if popped_pre.contains(k) {
                            let w = choose|w: int|
                                0 <= w < popped_pre.len() && popped_pre[w] == k;
                            assert(popped[w] == k);
                        }
                    }
                }
            }
        }
    }
    if !found {
        proof {
            assert(queue@.len() == 0);
            assert forall|id: Seq<char>, x: Seq<char>|
                #![trigger visited_key(g, visited@, id), g.neighbors_of(id).contains(x)]
                visited_key(g, visited@, id) && g.neighbors_of(id).contains(x)
                    && g.has_adj(x)
                implies visited_key(g, visited@, x) by {
                let k = choose|k: int|
                    0 <= k < visited@.len() && visited@[k]
                        && #[trigger] g.adj_keys()[k] == id;
                assert(visited@[k]);
                assert(!in_queue(queue@, k));
                assert(popped.contains(k));
                assert(g.adj_keys()[k] != end@);
                assert(entry_closed(g, visited@, k));
            }
            assert(bfs_closed(g, visited@));
            if start@ != end@ && spec_connected(g, start@, end@) {
                let p = choose|p: Seq<Seq<char>>| {
                    &&& p.len() >= 2
                    &&& p[0] == start@
                    &&& p.last() == end@
                    &&& #[trigger] g.spec_path_in_graph(p)
                };
                assert(g.adj_keys()[si as int] == start@);
                assert(visited_key(g, visited@, start@));
                lemma_closed_reaches(g, visited@, p, p.len() - 1);
                assert(visited_key(g, visited@, end@));
                let k = choose|k: int|
                    0 <= k < visited@.len() && visited@[k]
                        && #[trigger] g.adj_keys()[k] == end@;
                assert(!in_queue(queue@, k));
                assert(popped.contains(k));
                assert(false);
            }
        }
        return Ok(Vec::new());
    }
    match assoc_lookup(&preds, &end_owned) {
        Some(_) => {},
        None => {
            proof {
                let k = choose|k: int|
                    #[trigger] popped.contains(k) && g.adj_keys()[k] == end@;
                if k != si as int {
                    assert(preds_have(preds@, g.adj_keys()[k]));
                    let m = choose|m: int|
                        0 <= m < preds@.len() && (#[trigger] preds@[m]).0@ == end@;
                    assert(false);
                }
                assert(start@ == end@);
            }
            return Ok(Vec::new());
        },
    }
    let mut rev: Vec<String> = Vec::new();
    rev.push(end_owned.clone());
    let mut cur = end_owned.clone();
    proof {
        assert(rev.deep_view() =~= seq![end@]);
    }
    let fuel = preds.len();
    let mut steps: usize = 0;
    let ghost mut m_cur: int = 0;
    let ghost mut ms: Seq<int> = Seq::empty();
    proof {
        m_cur = choose|m: int| 0 <= m < preds@.len() && (#[trigger] preds@[m]).0@ == end@;
        ms = seq![m_cur];
        assert(preds@[m_cur].0@ != start@);
        assert(end@ != start@);
        assert(ms.last() == m_cur);
    }
    while steps < fuel && cur != start_owned
        invariant
            fuel == preds@.len(),
            steps <= fuel,
            rev.deep_view().len() == 1 + steps,
            rev.deep_view()[0] == end@,
            rev.deep_view().last() == cur@,
            forall|k: int| 0 <= k && k + 1 < rev.deep_view().len()
                ==> #[trigger] network.neighbors_of(rev.deep_view()[k + 1]).contains(
                rev.deep_view()[k]),
            cur@ != start@ ==> {
                &&& 0 <= m_cur < preds@.len()
                &&& preds@[m_cur].0@ == cur@
                &&& m_cur < fuel - steps
            },
            ms.len() == rev.deep_view().len(),
            forall|k1: int, k2: int|
                #![trigger rev.deep_view()[k1], rev.deep_view()[k2]]
                0 <= k1 < k2 < rev.deep_view().len()
                    ==> rev.deep_view()[k1] != rev.deep_view()[k2],
            forall|k: int| 0 <= k < rev.deep_view().len() - 1
                ==> #[trigger] rev.deep_view()[k] != start@,
            cur@ != start@ ==> {
                &&& forall|k: int| 0 <= k < ms.len() ==> 0 <= #[trigger] ms[k] < preds@.len()
                    && preds@[ms[k]].0@ == rev.deep_view()[k]
                &&& forall|k: int| 0 <= k && k + 1 < ms.len() ==> #[trigger] ms[k + 1] < ms[k]
                &&& ms.last() == m_cur
            },
        decreases fuel - steps,
    {
        let ghost old_rev = rev.deep_view();
        match assoc_lookup(&preds, &cur) {
            Some(parent) => {
                let ghost m_old = m_cur;
                proof {
                    let mfound = choose|m: int|
                        0 <= m < preds@.len() && (#[trigger] preds@[m]).0@ == cur@
                            && preds@[m].1@ == parent@;
                    assert(mfound == m_old);
                    assert(parent@ == preds@[m_old].1@);
                    if parent@ != start@ {
                        assert(preds@[m_old].1@ == start@ || exists|m2: int|
                            0 <= m2 < m_old && preds@[m2].0@ == preds@[m_old].1@);
                        let m2 = choose|m2: int|
                            0 <= m2 < m_old && preds@[m2].0@ == preds@[m_old].1@;
                        m_cur = m2;
                    }
                    assert(g.neighbors_of(parent@).contains(cur@));
                }
                let parent_clone = parent.clone();
                let parent_clone2 = parent_clone.clone();
                rev.push(parent_clone);
                cur = parent_clone2;
                steps = steps + 1;
                proof {
                    let ghost ms_old = ms;
                    assert(rev.deep_view() =~= old_rev.push(cur@));
                    if cur@ != start@ {
                        ms = ms_old.push(m_cur);
                        assert(ms.last() == m_cur);
                        assert(preds@[m_cur].0@ == cur@);
                        assert forall|k: int| 0 <= k && k + 1 < ms.len() implies
                            #[trigger] ms[k + 1] < ms[k] by {
                            if k + 1 < ms.len() - 1 {
                                assert(ms[k] == ms_old[k] && ms[k + 1] == ms_old[k + 1]);
                            } else {
                                assert(ms[k] == ms_old[ms_old.len() - 1]);
                                assert(ms_old.last() == m_old);
                                assert(ms[k + 1] == m_cur);
                            }
                        }
                        // the parent is new: its predecessor entry sits
                        // strictly below every entry used so far
                        assert forall|k1: int, k2: int|
                            #![trigger rev.deep_view()[k1], rev.deep_view()[k2]]
                            0 <= k1 < k2 < rev.deep_view().len() implies
                            rev.deep_view()[k1] != rev.deep_view()[k2] by {
                            let dv = rev.deep_view();
                            if k2 == dv.len() - 1 {
                                assert(dv[k1] == old_rev[k1]);
                                assert(preds@[ms_old[k1]].0@ == old_rev[k1]);
                                if dv[k1] == cur@ {
                                    assert(preds@[ms_old[k1]].0@ == preds@[m_cur].0@);
                                    if ms_old[k1] != m_cur {
                                        assert(preds@[ms_old[k1]].0@
                                            != preds@[m_cur].0@);
                                    }
                                    lemma_strictly_decreasing(
                                        ms_old,
                                        k1,
                                        ms_old.len() - 1,
                                    );
                                    assert(ms_old[k1] >= m_old);
                                    assert(m_cur < m_old);
                                    assert(false);
                                }
                            } else {
                                assert(dv[k1] == old_rev[k1] && dv[k2] == old_rev[k2]);
                            }
                        }
                    } else {
                        ms = ms_old.push(0);
                        // the start node never owns a predecessor entry,
                        // so it cannot already sit on the walked chain
                        assert forall|k1: int, k2: int|
                            #![trigger rev.deep_view()[k1], rev.deep_view()[k2]]
                            0 <= k1 < k2 < rev.deep_view().len() implies
                            rev.deep_view()[k1] != rev.deep_view()[k2] by {
                            let dv = rev.deep_view();
                            if k2 == dv.len() - 1 {
                                assert(dv[k1] == old_rev[k1]);
                                assert(preds@[ms_old[k1]].0@ == old_rev[k1]);
                                assert(preds@[ms_old[k1]].0@ != start@);
                            } else {
                                assert(dv[k1] == old_rev[k1] && dv[k2] == old_rev[k2]);
                            }
                        }
                    }
                }
            },
            None => {
                proof {
                    assert(preds@[m_cur].0@ == cur@);
                    assert(false);
                }
                return Ok(Vec::new());
            },
        }
    }
    proof {
        if cur@ != start@ {
            assert(steps >= fuel);
            assert(m_cur < fuel - steps);
            assert(false);
        }
        assert(steps >= 1);
    }
    let ghost rv = rev.deep_view();
    let mut path: Vec<String> = Vec::new();
    let m = rev.len();
    proof {
        assert(m >= 2);
    }
    for i in 0..m
        invariant
            m == rev@.len(),
            rv == rev.deep_view(),
            path.deep_view().len() == i,
            forall|k: int| 0 <= k < i
                ==> #[trigger] path.deep_view()[k] == rv[m - 1 - k],
    {
        let item = rev[m - 1 - i].clone();
        let ghost pre_path = path.deep_view();
        path.push(item);
        proof {
            assert(path.deep_view() =~= pre_path.push(rv[m - 1 - i as int]));
        }
    }
    proof {
        let pv = path.deep_view();
        assert(pv.len() == m);
        assert(pv[0] == rv[m - 1]);
        assert(pv.last() == rv[0]);
        assert(rv.last() == start@);
        assert forall|k: int|
            #![trigger network.neighbors_of(pv[k])]
            0 <= k && k + 1 < pv.len() implies
            network.neighbors_of(pv[k]).contains(pv[k + 1]) by {
            assert(pv[k] == rv[m - 1 - k]);
            assert(pv[k + 1] == rv[m - 1 - (k + 1)]);
            assert(network.neighbors_of(rv[m - 2 - k + 1]).contains(rv[m - 2 - k]));
        }
        assert forall|k1: int, k2: int|
            0 <= k1 < pv.len() && 0 <= k2 < pv.len() && k1 != k2 implies
            #[trigger] pv[k1] != #[trigger] pv[k2] by {
            assert(pv[k1] == rv[m - 1 - k1]);
            assert(pv[k2] == rv[m - 1 - k2]);
        }
        assert(pv.no_duplicates());
        assert(path@.len() == m && m >= 2);
    }
    Ok(path)
}

/// Find every simple path between two named endpoints, up to a hop
/// ceiling.  The timelock budget plays no part here.
pub fn find_all_paths(
    network: &LightningNetworkMap,
    start: &str,
    end: &str,
    max_hops: usize,
) -> (all_paths: Vec<Vec<String>>)
    requires
        network.wf(),
        max_hops + 2 <= usize::MAX,
    ensures
        forall|p: Seq<Seq<char>>| #[trigger] all_paths.deep_view().contains(p)
            <==> network.spec_endpoint_path(start@, end@, max_hops as int, p),
{
    let mut all_paths: Vec<Vec<String>> = Vec::new();
    let mut current_path: Vec<String> = Vec::new();
    current_path.push(start.to_owned());
    let end_owned = end.to_owned();
    proof {
        assert(current_path.deep_view() =~= seq![start@]);
        assert(all_paths.deep_view() =~= Seq::<Seq<Seq<char>>>::empty());
    }
    find_paths_dfs(network, &mut all_paths, &mut current_path, &end_owned, max_hops);
    proof {
        let base = seq![start@];
        assert forall|p: Seq<Seq<char>>| #[trigger] all_paths.deep_view().contains(p)
            implies network.spec_endpoint_path(start@, end@, max_hops as int, p) by {
            assert(network.spec_endpoint_extends(base, end@, max_hops as int, p));
            assert(base =~= p.subrange(0, 1));
            assert(p[0] == p.subrange(0, 1)[0]);
        }
        assert forall|p: Seq<Seq<char>>|
            network.spec_endpoint_path(start@, end@, max_hops as int, p)
            implies #[trigger] all_paths.deep_view().contains(p) by {
            assert(base =~= p.subrange(0, 1));
            assert(base.is_prefix_of(p));
            assert(network.spec_endpoint_extends(base, end@, max_hops as int, p));
        }
    }
    all_paths
}

/// Depth-first search below `current_path`, appending every simple path
/// that continues it to `end` within the length allowance.
#[verifier::loop_isolation(false)]
fn find_paths_dfs(
    network: &LightningNetworkMap,
    all_paths: &mut Vec<Vec<String>>,
    current_path: &mut Vec<String>,
    end: &String,
    max_hops: usize,
)
    requires
        network.wf(),
        max_hops + 2 <= usize::MAX,
        1 <= old(current_path)@.len() <= max_hops + 2,
        old(current_path).deep_view().no_duplicates(),
        network.spec_path_in_graph(old(current_path).deep_view()),
    ensures
        final(current_path)@ == old(current_path)@,
        forall|p: Seq<Seq<char>>| #[trigger] final(all_paths).deep_view().contains(p)
            ==> old(all_paths).deep_view().contains(p)
                || network.spec_endpoint_extends(
                old(current_path).deep_view(),
                end@,
                max_hops as int,
                p,
            ),
        forall|p: Seq<Seq<char>>| #[trigger] old(all_paths).deep_view().contains(p)
            ==> final(all_paths).deep_view().contains(p),
        forall|p: Seq<Seq<char>>|
            #[trigger] network.spec_endpoint_extends(
                old(current_path).deep_view(),
                end@,
                max_hops as int,
                p,
            ) ==> final(all_paths).deep_view().contains(p),
    decreases max_hops + 2 - current_path@.len(),
{
    let ghost base = current_path.deep_view();
    let ghost base_strs = current_path@;
    let plen = current_path.len();
    let last = current_path[plen - 1].clone();
    proof {
        assert(last@ == base[base.len() - 1]);
        assert(base.last() == last@);
    }
    if last == *end {
        let copy = crate::network::clone_string_vec(current_path);
        all_paths.push(copy);
        proof {
            assert(all_paths.deep_view() =~= old(all_paths).deep_view().push(base));
            assert(all_paths.deep_view()[all_paths.deep_view().len() - 1] == base);
            assert(all_paths.deep_view().contains(base));
            assert forall|p: Seq<Seq<char>>| #[trigger] all_paths.deep_view().contains(p)
                implies old(all_paths).deep_view().contains(p)
                    || network.spec_endpoint_extends(base, end@, max_hops as int, p) by {
                if p == base {
                    assert(base.is_prefix_of(base));
                }
            }
            assert forall|p: Seq<Seq<char>>| #[trigger] old(all_paths).deep_view().contains(p)
                implies all_paths.deep_view().contains(p) by {
                let j = choose|j: int|
                    0 <= j < old(all_paths).deep_view().len()
                        && old(all_paths).deep_view()[j] == p;
                assert(all_paths.deep_view()[j] == p);
            }
            assert forall|p: Seq<Seq<char>>|
                #[trigger] network.spec_endpoint_extends(base, end@, max_hops as int, p)
                implies all_paths.deep_view().contains(p) by {
                if p.len() > base.len() {
                    assert(p[base.len() - 1] == base.last());
                    assert(p[p.len() - 1] == end@);
                    assert(p[base.len() - 1] == end@);
                    assert(!p.no_duplicates());
                } else {
                    assert(p =~= base);
                }
            }
        }
        return;
    }
    if plen > max_hops + 1 {
        proof {
            assert forall|p: Seq<Seq<char>>|
                #[trigger] network.spec_endpoint_extends(base, end@, max_hops as int, p)
                implies false by {
                assert(p.len() >= base.len());
                if p.len() == base.len() {
                    assert(p =~= base);
                    assert(base.last() == end@);
                }
            }
        }
        return;
    }
    let ghost pre_loop = all_paths.deep_view();
    match network.get_neighbors(last.as_str()) {
        None => {
            proof {
                assert forall|p: Seq<Seq<char>>|
                    #[trigger] network.spec_endpoint_extends(base, end@, max_hops as int, p)
                    implies all_paths.deep_view().contains(p) by {
                    if p.len() > base.len() {
                        assert(network.neighbors_of(p[base.len() - 1]).contains(
                            p[base.len() as int]));
                        assert(p[base.len() - 1] == base.last());
                    } else {
                        assert(p =~= base);
                        assert(base.last() == end@);
                    }
                }
            }
        },
        Some(neighbors) => {
            let ghost nbs = network.neighbors_of(last@);
            proof {
                assert(neighbors.deep_view() =~= nbs);
            }
            let n = neighbors.len();
            for i in 0..n
                invariant
                    n == neighbors@.len(),
                    nbs == network.neighbors_of(base.last()),
                    nbs.len() == n,
                    forall|j: int| 0 <= j < n ==> #[trigger] neighbors@[j]@ == nbs[j],
                    current_path@ == base_strs,
                    current_path.deep_view() == base,
                    current_path@.len() == plen,
                    forall|p: Seq<Seq<char>>| #[trigger] all_paths.deep_view().contains(p)
                        ==> pre_loop.contains(p)
                            || exists|j: int|
                            0 <= j < i && network.spec_endpoint_extends(
                                #[trigger] base.push(nbs[j]),
                                end@,
                                max_hops as int,
                                p,
                            ),
                    forall|p: Seq<Seq<char>>| #[trigger] pre_loop.contains(p)
                        ==> all_paths.deep_view().contains(p),
                    forall|p: Seq<Seq<char>>, j: int|
                        0 <= j < i && #[trigger] network.spec_endpoint_extends(
                            base.push(nbs[j]),
                            end@,
                            max_hops as int,
                            p,
                        ) ==> all_paths.deep_view().contains(p),
            {
                let nb = &neighbors[i];
                proof {
                    assert(nb@ == nbs[i as int]);
                }
                if !crate::network::vec_contains_string(current_path, nb) {
                    let ghost paths_before = all_paths.deep_view();
                    let nb_clone = nb.clone();
                    current_path.push(nb_clone);
                    proof {
                        let ext = base.push(nbs[i as int]);
                        assert(current_path.deep_view() =~= ext);
                        crate::network::lemma_no_duplicates_push(base, nbs[i as int]);
                        assert forall|k: int|
                            #![trigger network.neighbors_of(ext[k])]
                            0 <= k && k + 1 < ext.len() implies
                            network.neighbors_of(ext[k]).contains(ext[k + 1]) by {
                            if k + 1 < base.len() {
                                assert(network.neighbors_of(base[k]).contains(base[k + 1]));
                            } else {
                                assert(ext[k] == base.last());
                                assert(ext[k + 1] == nbs[i as int]);
                                assert(nbs.contains(nbs[i as int]));
                            }
                        }
                    }
                    find_paths_dfs(network, all_paths, current_path, end, max_hops);
                    let popped = current_path.pop();
                    proof {
                        assert(current_path@ =~= base_strs);
                        assert(current_path.deep_view() =~= base);
                        let ext = base.push(nbs[i as int]);
                        assert forall|p: Seq<Seq<char>>|
                            #[trigger] all_paths.deep_view().contains(p)
                            implies pre_loop.contains(p)
                                || exists|j: int|
                                0 <= j < i + 1 && network.spec_endpoint_extends(
                                    #[trigger] base.push(nbs[j]),
                                    end@,
                                    max_hops as int,
                                    p,
                                ) by {
                            if paths_before.contains(p) {
                                if !pre_loop.contains(p) {
                                    let j = choose|j: int|
                                        0 <= j < i && network.spec_endpoint_extends(
                                            #[trigger] base.push(nbs[j]),
                                            end@,
                                            max_hops as int,
                                            p,
                                        );
                                    assert(0 <= j < i + 1);
                                }
                            } else {
                                assert(network.spec_endpoint_extends(
                                    ext,
                                    end@,
                                    max_hops as int,
                                    p,
                                ));
                                assert(0 <= i < i + 1);
                            }
                        }
                    }
                } else {
                    proof {
                        let ext = base.push(nbs[i as int]);
                        assert forall|p: Seq<Seq<char>>, j: int|
                            0 <= j < i + 1 && #[trigger] network.spec_endpoint_extends(
                                base.push(nbs[j]),
                                end@,
                                max_hops as int,
                                p,
                            ) implies all_paths.deep_view().contains(p) by {
                            if j == i {
                                assert(base.contains(nbs[i as int]));
                                let w = choose|w: int|
                                    0 <= w < base.len() && base[w] == nbs[i as int];
                                assert(ext[w] == nbs[i as int]);
                                assert(ext[ext.len() - 1] == nbs[i as int]);
                                assert(ext.is_prefix_of(p));
                                assert(p[w] == nbs[i as int]);
                                assert(p[ext.len() - 1] == nbs[i as int]);
                                assert(!p.no_duplicates());
                            }
                        }
                    }
                }
            }
            proof {
                assert forall|p: Seq<Seq<char>>|
                    #[trigger] network.spec_endpoint_extends(base, end@, max_hops as int, p)
                    implies all_paths.deep_view().contains(p) by {
                    if p.len() == base.len() {
                        assert(p =~= base);
                        assert(base.last() == end@);
                    } else {
                        let x = p[base.len() as int];
                        assert(network.neighbors_of(p[base.len() - 1]).contains(x));
                        assert(p[base.len() - 1] == base.last());
                        assert(nbs.contains(x));
                        let j = choose|j: int| 0 <= j < nbs.len() && nbs[j] == x;
                        let ext = base.push(nbs[j]);
                        assert(ext =~= p.subrange(0, ext.len() as int));
                        assert(ext.is_prefix_of(p));
                        assert(network.spec_endpoint_extends(ext, end@, max_hops as int, p));
                    }
                }
                assert forall|p: Seq<Seq<char>>|
                    #[trigger] all_paths.deep_view().contains(p)
                    implies old(all_paths).deep_view().contains(p)
                        || network.spec_endpoint_extends(base, end@, max_hops as int, p)
                    by {
                    if !pre_loop.contains(p) {
                        let j = choose|j: int|
                            0 <= j < n && network.spec_endpoint_extends(
                                #[trigger] base.push(nbs[j]),
                                end@,
                                max_hops as int,
                                p,
                            );
                        let ext = base.push(nbs[j]);
                        assert(ext.is_prefix_of(p));
                        assert(base =~= ext.subrange(0, base.len() as int));
                        assert(base =~= p.subrange(0, base.len() as int));
                        assert(base.is_prefix_of(p));
                    }
                }
            }
        },
    }
}

} // verus!
