//! Katajainen's boundary package-merge: length-limited Huffman code lengths.
use crate::error::Error;
use crate::math::{lemma_pow2_small, pow2};
use crate::tree::{ensure_prefix_code, lemma_flat_fits, lemma_nonzero_count_pos, nonzero_count, prefix_code_for, used_symbols};
use vstd::prelude::*;

verus! {

/// A symbol with nonzero frequency.
#[derive(Clone, Copy, Debug)]
struct Leaf {
    weight: usize,
    count: usize,
}

/// A node of a lookahead chain.
#[derive(Clone, Copy, Debug)]
struct Node {
    weight: usize,
    tail: Option<usize>,
    count: i32,
    in_use: bool,
}

/// Memory pool of chain nodes.
struct NodePool {
    nodes: Vec<Node>,
    next: usize,
}

/// Node indices and counts are in range.
spec fn pool_wf(pool: &NodePool, numsymbols: nat) -> bool {
    &&& pool.nodes@.len() > 0
    &&& pool.nodes@.len() < 0x1000_0000
    &&& pool.next <= pool.nodes@.len()
    &&& forall|k: int|
        0 <= k < pool.nodes@.len() ==> (#[trigger] pool.nodes@[k].tail matches Some(t) ==> t
            < pool.nodes@.len())
    &&& forall|k: int|
        0 <= k < pool.nodes@.len() ==> 0 <= #[trigger] pool.nodes@[k].count <= numsymbols
}

/// The two chain heads of every list are nodes of the pool.
spec fn lists_wf(lists: Seq<(usize, usize)>, maxbits: nat, len: nat) -> bool {
    &&& lists.len() == maxbits
    &&& forall|i: int| #![trigger lists[i]] 0 <= i < lists.len() ==> lists[i].0 < len && lists[i].1 < len
}

/// Largest number of symbols that codes of at most `maxbits` bits can distinguish.
pub open spec fn code_capacity(maxbits: i32) -> int {
    if (maxbits as u32) < usize::BITS {
        (1usize << (maxbits as u32)) as int
    } else {
        usize::MAX as int
    }
}

/// Largest frequency that the 9-bit tie-break encoding can hold.
pub open spec fn count_limit() -> int {
    (usize::MAX >> 9u32) as int + 1
}

/// The node `s` steps along the chain that starts at node `start` (following tails).
spec fn chain_node(nodes: Seq<Node>, start: int, s: nat) -> Option<int>
    decreases s,
{
    if s == 0 {
        Some(start)
    } else {
        match chain_node(nodes, start, (s - 1) as nat) {
            Some(c) => match nodes[c].tail {
                Some(t) => Some(t as int),
                None => None,
            },
            None => None,
        }
    }
}

/// The first node of chain `i` of the lists: the first or second chain of list `i / 2`.
spec fn chain_head(lists: Seq<(usize, usize)>, i: int) -> int {
    if i % 2 == 0 {
        lists[i / 2].0 as int
    } else {
        lists[i / 2].1 as int
    }
}

/// Node `k` is among the first `len + 1` nodes of one of the first `i` chains of the lists.
spec fn listed_before(nodes: Seq<Node>, lists: Seq<(usize, usize)>, i: int, len: int, k: int) -> bool {
    exists|i2: int, s: nat| 0 <= i2 < i && s <= len && #[trigger] chain_node(nodes, chain_head(lists, i2), s) == Some(k)
}

/// Node `k` is among the first `steps` nodes of the chain that starts at `head`.
spec fn walked(nodes: Seq<Node>, head: int, steps: int, k: int) -> bool {
    exists|s: nat| s < steps && #[trigger] chain_node(nodes, head, s) == Some(k)
}

/// Node `k` is on one of the first `i` chains of the lists, or on the first `steps` nodes of
/// the chain at `head`.
spec fn mark_reason(nodes: Seq<Node>, lists: Seq<(usize, usize)>, i: int, len: int, head: int, steps: int, k: int) -> bool {
    listed_before(nodes, lists, i, len, k) || walked(nodes, head, steps, k)
}

/// `b` is `a` with only some nodes newly marked in use: those for which `marked` holds.
spec fn marked_from(a: Seq<Node>, b: Seq<Node>, k: int, marked: bool) -> bool {
    &&& b[k].weight == a[k].weight
    &&& b[k].tail == a[k].tail
    &&& b[k].count == a[k].count
    &&& b[k].in_use == (a[k].in_use || marked)
}

proof fn lemma_chain_node_none(nodes: Seq<Node>, start: int, s: nat, t: nat)
    requires
        s <= t,
        chain_node(nodes, start, s) is None,
    ensures
        chain_node(nodes, start, t) is None,
    decreases t - s,
{
    if t > s {
        lemma_chain_node_none(nodes, start, s, (t - 1) as nat);
    }
}

proof fn lemma_chain_node_same(a: Seq<Node>, b: Seq<Node>, start: int, s: nat)
    requires
        a.len() == b.len(),
        forall|k: int| 0 <= k < a.len() ==> #[trigger] b[k].tail == a[k].tail,
        0 <= start < a.len(),
        forall|k: int| 0 <= k < a.len() ==> (#[trigger] a[k].tail matches Some(t) ==> t < a.len()),
    ensures
        chain_node(a, start, s) == chain_node(b, start, s),
        chain_node(a, start, s) matches Some(c) ==> 0 <= c < a.len(),
    decreases s,
{
    if s > 0 {
        lemma_chain_node_same(a, b, start, (s - 1) as nat);
    }
}

/// Marks the nodes of every chain reachable from the lists as in use. Chain walks are
/// bounded by the pool size.
fn mark_lists(lists: &Vec<(usize, usize)>, maxbits: usize, pool: &mut NodePool, Ghost(ns): Ghost<nat>)
    requires
        maxbits <= 32,
        pool_wf(old(pool), ns),
        lists_wf(lists@, maxbits as nat, old(pool).nodes@.len() as nat),
    ensures
        pool_wf(final(pool), ns),
        final(pool).nodes@.len() == old(pool).nodes@.len(),
        final(pool).next == old(pool).next,
        forall|k: int|
            0 <= k < old(pool).nodes@.len() ==> #[trigger] marked_from(
                old(pool).nodes@,
                final(pool).nodes@,
                k,
                listed_before(old(pool).nodes@, lists@, 2 * maxbits, old(pool).nodes@.len() as int, k),
            ),
{
    let len = pool.nodes.len();
    let ghost n0 = pool.nodes@;
    let mut i: usize = 0;
    while i < maxbits * 2
        invariant
            i <= maxbits * 2,
            maxbits <= 32,
            lists_wf(lists@, maxbits as nat, len as nat),
            pool_wf(pool, ns),
            pool.nodes@.len() == len,
            n0.len() == len,
            pool_wf(old(pool), ns),
            n0 == old(pool).nodes@,
            pool.next == old(pool).next,
            forall|k: int|
                0 <= k < len ==> #[trigger] marked_from(n0, pool.nodes@, k, listed_before(n0, lists@, i as int, len as int, k)),
        decreases maxbits * 2 - i,
    {
        let pair = lists[i / 2];
        let head = if i % 2 == 0 {
            pair.0
        } else {
            pair.1
        };
        proof {
            assert(head as int == chain_head(lists@, i as int));
            assert forall|k: int| 0 <= k < len implies #[trigger] marked_from(
                n0,
                pool.nodes@,
                k,
                mark_reason(n0, lists@, i as int, len as int, head as int, 0, k),
            ) by {
                assert(marked_from(n0, pool.nodes@, k, listed_before(n0, lists@, i as int, len as int, k)));
                if walked(n0, head as int, 0, k) {
                    let s = choose|s: nat| s < 0 && #[trigger] chain_node(n0, head as int, s) == Some(k);
                }
            }
        }
        let mut curr: Option<usize> = Some(head);
        let mut steps: usize = 0;
        while steps <= len
            invariant
                pool_wf(pool, ns),
                pool_wf(old(pool), ns),
                n0 == old(pool).nodes@,
                pool.nodes@.len() == len,
                n0.len() == len,
                pool.next == old(pool).next,
                head < len,
                head as int == chain_head(lists@, i as int),
                steps <= len + 1,
                curr == (match chain_node(n0, head as int, steps as nat) {
                    Some(c) => Some(c as usize),
                    None => None::<usize>,
                }),
                curr matches Some(c) ==> c < len,
                forall|k: int|
                    0 <= k < len ==> #[trigger] marked_from(
                        n0,
                        pool.nodes@,
                        k,
                        mark_reason(n0, lists@, i as int, len as int, head as int, steps as int, k),
                    ),
            ensures
                curr is None || steps == len + 1,
            decreases len + 1 - steps,
        {
            match curr {
                None => {
                    break ;
                },
                Some(idx) => {
                    let ghost nb = pool.nodes@;
                    let ghost s1: int = steps + 1;
                    let mut nd = pool.nodes[idx];
                    nd.in_use = true;
                    pool.nodes.set(idx, nd);
                    curr = nd.tail;
                    proof {
                        lemma_chain_node_same(n0, n0, head as int, (steps + 1) as nat);
                        assert(marked_from(
                            n0,
                            nb,
                            idx as int,
                            mark_reason(n0, lists@, i as int, len as int, head as int, steps as int, idx as int),
                        ));
                        assert(nb[idx as int].tail == n0[idx as int].tail);
                        assert(chain_node(n0, head as int, steps as nat) == Some(idx as int));
                        assert forall|k: int| 0 <= k < len implies #[trigger] marked_from(
                            n0,
                            pool.nodes@,
                            k,
                            mark_reason(n0, lists@, i as int, len as int, head as int, s1, k),
                        ) by {
                            if k == idx {
                                assert(chain_node(n0, head as int, steps as nat) == Some(k));
                                assert(walked(n0, head as int, s1, k));
                                assert(mark_reason(n0, lists@, i as int, len as int, head as int, s1, k));
                            } else {
                                assert(pool.nodes@[k] == nb[k]);
                                assert(marked_from(
                                    n0,
                                    nb,
                                    k,
                                    mark_reason(n0, lists@, i as int, len as int, head as int, steps as int, k),
                                ));
                                if walked(n0, head as int, steps + 1, k) {
                                    let s = choose|s: nat| s < steps + 1 && #[trigger] chain_node(n0, head as int, s) == Some(k);
                                    assert(s != steps);
                                    assert(walked(n0, head as int, steps as int, k));
                                }
                                if walked(n0, head as int, steps as int, k) {
                                    let s = choose|s: nat| s < steps && #[trigger] chain_node(n0, head as int, s) == Some(k);
                                    assert(chain_node(n0, head as int, s) == Some(k));
                                }
                            }
                        }
                    }
                },
            }
            steps = steps + 1;
        }
        let ghost i1: int = i + 1;
        proof {
            assert forall|k: int| 0 <= k < len implies #[trigger] marked_from(
                n0,
                pool.nodes@,
                k,
                listed_before(n0, lists@, i1, len as int, k),
            ) by {
                let a = listed_before(n0, lists@, i as int, len as int, k);
                let b = walked(n0, head as int, steps as int, k);
                let c = listed_before(n0, lists@, i1, len as int, k);
                if b {
                    let s = choose|s: nat| s < steps && #[trigger] chain_node(n0, head as int, s) == Some(k);
                    assert(chain_node(n0, chain_head(lists@, i as int), s) == Some(k));
                    assert(c);
                }
                if a {
                    let (i2, s) = choose|i2: int, s: nat|
                        0 <= i2 < i && s <= len && #[trigger] chain_node(n0, chain_head(lists@, i2), s) == Some(k);
                    assert(chain_node(n0, chain_head(lists@, i2), s) == Some(k));
                    assert(c);
                }
                assert(marked_from(
                    n0,
                    pool.nodes@,
                    k,
                    mark_reason(n0, lists@, i as int, len as int, head as int, steps as int, k),
                ));
                if c && !a {
                    let (i2, s) = choose|i2: int, s: nat|
                        0 <= i2 < i + 1 && s <= len && #[trigger] chain_node(n0, chain_head(lists@, i2), s) == Some(k);
                    assert(i2 == i);
                    if s >= steps {
                        assert(curr is None);
                        lemma_chain_node_none(n0, head as int, steps as nat, s);
                        assert(false);
                    }
                    assert(chain_node(n0, head as int, s) == Some(k));
                    assert(b);
                }
            }
        }
        i = i + 1;
    }
}

/// Finds a free node of the pool, collecting the nodes that no list reaches when the
/// pool is exhausted. `None` when every node is still in use after collection.
fn get_free_node(
    lists: Option<&Vec<(usize, usize)>>,
    maxbits: usize,
    pool: &mut NodePool,
    Ghost(ns): Ghost<nat>,
) -> (r: Option<usize>)
    requires
        maxbits <= 32,
        pool_wf(old(pool), ns),
        lists matches Some(l) ==> lists_wf(l@, maxbits as nat, old(pool).nodes@.len() as nat),
    ensures
        pool_wf(final(pool), ns),
        final(pool).nodes@.len() == old(pool).nodes@.len(),
        r matches Some(k) ==> k < final(pool).nodes@.len(),
        old(pool).next < old(pool).nodes@.len() && !old(pool).nodes@[old(pool).next as int].in_use
            ==> r == Some(old(pool).next) && final(pool).next == old(pool).next + 1,
        forall|k: int|
            0 <= k < old(pool).nodes@.len() ==> #[trigger] final(pool).nodes@[k].weight == old(pool).nodes@[k].weight
                && final(pool).nodes@[k].tail == old(pool).nodes@[k].tail && final(pool).nodes@[k].count
                == old(pool).nodes@[k].count,
        r is None ==> forall|k: int| 0 <= k < final(pool).nodes@.len() ==> #[trigger] final(pool).nodes@[k].in_use,
{
    let len = pool.nodes.len();
    while pool.next < len && pool.nodes[pool.next].in_use
        invariant
            pool.nodes@.len() == len,
            pool_wf(pool, ns),
            pool.nodes@ == old(pool).nodes@,
            pool.next >= old(pool).next,
            old(pool).next < len && !old(pool).nodes@[old(pool).next as int].in_use ==> pool.next == old(pool).next,
        decreases len - pool.next,
    {
        pool.next = pool.next + 1;
    }
    if pool.next >= len {
        // Garbage collection
        let mut k: usize = 0;
        while k < len
            invariant
                k <= len,
                pool.nodes@.len() == len,
                pool_wf(pool, ns),
                forall|j: int|
                    0 <= j < len ==> #[trigger] pool.nodes@[j].weight == old(pool).nodes@[j].weight
                        && pool.nodes@[j].tail == old(pool).nodes@[j].tail && pool.nodes@[j].count
                        == old(pool).nodes@[j].count,
            decreases len - k,
        {
            let mut nd = pool.nodes[k];
            nd.in_use = false;
            pool.nodes.set(k, nd);
            k = k + 1;
        }
        if let Some(l) = lists {
            let ghost nm = pool.nodes@;
            mark_lists(l, maxbits, pool, Ghost(ns));
            proof {
                assert forall|j: int| 0 <= j < len implies #[trigger] pool.nodes@[j].weight == old(pool).nodes@[j].weight
                    && pool.nodes@[j].tail == old(pool).nodes@[j].tail && pool.nodes@[j].count
                    == old(pool).nodes@[j].count by {
                    assert(marked_from(nm, pool.nodes@, j, listed_before(nm, l@, 2 * maxbits, len as int, j)));
                    assert(nm[j].weight == old(pool).nodes@[j].weight);
                }
            }
        }
        pool.next = 0;
        while pool.next < len && pool.nodes[pool.next].in_use
            invariant
                pool.nodes@.len() == len,
                pool_wf(pool, ns),
                forall|j: int| 0 <= j < pool.next ==> #[trigger] pool.nodes@[j].in_use,
                forall|j: int|
                    0 <= j < len ==> #[trigger] pool.nodes@[j].weight == old(pool).nodes@[j].weight
                        && pool.nodes@[j].tail == old(pool).nodes@[j].tail && pool.nodes@[j].count
                        == old(pool).nodes@[j].count,
            decreases len - pool.next,
        {
            pool.next = pool.next + 1;
        }
        if pool.next >= len {
            return None;
        }
    }
    let res = pool.next;
    let mut nd = pool.nodes[res];
    nd.in_use = true;
    pool.nodes.set(res, nd);
    pool.next = pool.next + 1;
    Some(res)
}

/// Initializes a node of the pool.
fn init_node(pool: &mut NodePool, idx: usize, weight: usize, count: i32, tail: Option<usize>)
    requires
        idx < old(pool).nodes@.len(),
    ensures
        final(pool).nodes@ == old(pool).nodes@.update(
            idx as int,
            Node { weight, tail, count, in_use: true },
        ),
        final(pool).next == old(pool).next,
{
    pool.nodes.set(idx, Node { weight, tail, count, in_use: true });
}

/// The summed weight of the two chains of a list, held at `usize::MAX`.
spec fn pair_weight(nodes: Seq<Node>, pair: (usize, usize)) -> int {
    let w = nodes[pair.0 as int].weight + nodes[pair.1 as int].weight;
    if w > usize::MAX {
        usize::MAX as int
    } else {
        w
    }
}

/// One step of the boundary package-merge on list `index`. `Err` when the pool has no
/// free node left.
fn boundary_pm(
    lists: &mut Vec<(usize, usize)>,
    maxbits: usize,
    leaves: &Vec<Leaf>,
    numsymbols: usize,
    pool: &mut NodePool,
    index: usize,
    is_final: bool,
) -> (r: Result<(), ()>)
    requires
        index < maxbits <= 32,
        numsymbols == leaves@.len(),
        numsymbols < i32::MAX,
        pool_wf(old(pool), numsymbols as nat),
        lists_wf(old(lists)@, maxbits as nat, old(pool).nodes@.len() as nat),
    ensures
        pool_wf(final(pool), numsymbols as nat),
        final(pool).nodes@.len() == old(pool).nodes@.len(),
        lists_wf(final(lists)@, maxbits as nat, final(pool).nodes@.len() as nat),
        forall|j: int| index < j < maxbits ==> #[trigger] final(lists)@[j] == old(lists)@[j],
        ({
            let oc = old(lists)@[index as int].1 as int;
            let lc = old(pool).nodes@[oc].count as int;
            let done = index == 0 && lc >= numsymbols;
            let head = final(lists)@[index as int].1 as int;
            &&& done ==> r is Ok && final(lists)@ == old(lists)@ && final(pool).nodes@ == old(pool).nodes@
                && final(pool).next == old(pool).next
            &&& r is Ok && !done ==> final(lists)@[index as int].0 == oc
            &&& r is Ok && !done && index == 0 ==> final(pool).nodes@[head] == Node {
                weight: leaves@[lc].weight,
                tail: None,
                count: (lc + 1) as i32,
                in_use: true,
            }
            &&& r is Ok && index > 0 && lc < numsymbols && pair_weight(old(pool).nodes@, old(lists)@[index - 1])
                > leaves@[lc].weight ==> final(pool).nodes@[head] == Node {
                weight: leaves@[lc].weight,
                tail: old(pool).nodes@[oc].tail,
                count: (lc + 1) as i32,
                in_use: true,
            }
            &&& r is Ok && index > 0 && is_final && !(lc < numsymbols && pair_weight(
                old(pool).nodes@,
                old(lists)@[index - 1],
            ) > leaves@[lc].weight) ==> final(pool).nodes@[head] == Node {
                weight: pair_weight(old(pool).nodes@, old(lists)@[index - 1]) as usize,
                tail: Some(old(lists)@[index - 1].1),
                count: lc as i32,
                in_use: true,
            }
            &&& r is Err ==> forall|k: int| 0 <= k < final(pool).nodes@.len() ==> #[trigger] final(pool).nodes@[k].in_use
        }),
    decreases index,
{
    let old_chain_idx = lists[index].1;
    let lastcount = pool.nodes[old_chain_idx].count as usize;
    if index == 0 && lastcount >= numsymbols {
        return Ok(());
    }
    let new_chain_idx = match get_free_node(Some(&*lists), maxbits, pool, Ghost(numsymbols as nat)) {
        Some(k) => k,
        None => {
            return Err(());
        },
    };
    let old_chain_idx = lists[index].1;
    let old_chain_tail = pool.nodes[old_chain_idx].tail;
    proof {
        assert(pool.nodes@[old_chain_idx as int].weight == old(pool).nodes@[old_chain_idx as int].weight);
    }
    lists.set(index, (old_chain_idx, new_chain_idx));
    if index == 0 {
        init_node(pool, new_chain_idx, leaves[lastcount].weight, (lastcount + 1) as i32, None);
    } else {
        let left_child_idx = lists[index - 1].0;
        let right_child_idx = lists[index - 1].1;
        let sum = pool.nodes[left_child_idx].weight.saturating_add(
            pool.nodes[right_child_idx].weight,
        );
        if lastcount < numsymbols && sum > leaves[lastcount].weight {
            init_node(
                pool,
                new_chain_idx,
                leaves[lastcount].weight,
                (lastcount + 1) as i32,
                old_chain_tail,
            );
        } else {
            init_node(pool, new_chain_idx, sum, lastcount as i32, Some(right_child_idx));
            if !is_final {
                boundary_pm(lists, maxbits, leaves, numsymbols, pool, index - 1, false)?;
                boundary_pm(lists, maxbits, leaves, numsymbols, pool, index - 1, false)?;
            }
        }
    }
    Ok(())
}

/// How many of the first `steps` nodes of the chain at `start` count leaf `k` (have a
/// count above `k`).
spec fn chain_counted(nodes: Seq<Node>, start: int, k: int, steps: nat) -> nat
    decreases steps,
{
    if steps == 0 {
        0
    } else {
        chain_counted(nodes, start, k, (steps - 1) as nat) + match chain_node(nodes, start, (steps - 1) as nat) {
            Some(c) => if k < nodes[c].count {
                1nat
            } else {
                0nat
            },
            None => 0nat,
        }
    }
}

proof fn lemma_chain_counted_stops(nodes: Seq<Node>, start: int, k: int, s: nat, t: nat)
    requires
        s <= t,
        chain_node(nodes, start, s) is None,
    ensures
        chain_counted(nodes, start, k, t) == chain_counted(nodes, start, k, s),
    decreases t - s,
{
    if t > s {
        lemma_chain_counted_stops(nodes, start, k, s, (t - 1) as nat);
        lemma_chain_node_none(nodes, start, s, (t - 1) as nat);
    }
}

/// Adds, for every node of the chain, one bit to the code length of each leaf it counts.
/// The walk is bounded by the pool size.
fn extract_bit_lengths(
    chain_idx: usize,
    pool: &NodePool,
    leaves: &Vec<Leaf>,
    maxbits: usize,
    bitlengths: &mut [u32],
)
    requires
        maxbits <= 32,
        pool_wf(pool, leaves@.len()),
        chain_idx < pool.nodes@.len(),
        pool.nodes@.len() < 0x1000_0000,
        forall|j: int| 0 <= j < leaves@.len() ==> #[trigger] leaves@[j].count < old(bitlengths)@.len(),
        forall|a: int, b: int| 0 <= a < leaves@.len() && 0 <= b < leaves@.len() && a != b ==> #[trigger] leaves@[a].count != #[trigger] leaves@[b].count,
        forall|j: int| 0 <= j < old(bitlengths)@.len() ==> old(bitlengths)@[j] == 0,
    ensures
        final(bitlengths)@.len() == old(bitlengths)@.len(),
        forall|j: int|
            0 <= j < final(bitlengths)@.len() && (forall|i: int| 0 <= i < leaves@.len() ==> #[trigger] leaves@[i].count != j)
                ==> final(bitlengths)@[j] == 0,
        forall|j: int| 0 <= j < final(bitlengths)@.len() ==> #[trigger] final(bitlengths)@[j] <= maxbits,
        forall|k: int|
            0 <= k < leaves@.len() ==> final(bitlengths)@[#[trigger] leaves@[k].count as int] == chain_counted(
                pool.nodes@,
                chain_idx as int,
                k,
                maxbits as nat,
            ),
{
    let len = pool.nodes.len();
    let mut curr: Option<usize> = Some(chain_idx);
    let mut steps: usize = 0;
    while steps < maxbits
        invariant
            pool_wf(pool, leaves@.len()),
            pool.nodes@.len() == len,
            len < 0x1000_0000,
            maxbits <= 32,
            steps <= maxbits,
            chain_idx < len,
            curr == (match chain_node(pool.nodes@, chain_idx as int, steps as nat) {
                Some(c) => Some(c as usize),
                None => None::<usize>,
            }),
            curr matches Some(c) ==> c < len,
            bitlengths@.len() == old(bitlengths)@.len(),
            forall|j: int| 0 <= j < leaves@.len() ==> #[trigger] leaves@[j].count < bitlengths@.len(),
            forall|a: int, b: int| 0 <= a < leaves@.len() && 0 <= b < leaves@.len() && a != b ==> #[trigger] leaves@[a].count != #[trigger] leaves@[b].count,
            forall|j: int| 0 <= j < bitlengths@.len() ==> bitlengths@[j] <= steps,
            forall|j: int|
                0 <= j < bitlengths@.len() && (forall|i: int|
                    0 <= i < leaves@.len() ==> #[trigger] leaves@[i].count != j) ==> bitlengths@[j]
                    == 0,
            forall|k: int|
                0 <= k < leaves@.len() ==> bitlengths@[#[trigger] leaves@[k].count as int] == chain_counted(
                    pool.nodes@,
                    chain_idx as int,
                    k,
                    steps as nat,
                ),
        ensures
            curr is None || steps == maxbits,
        decreases maxbits - steps,
    {
        match curr {
            None => {
                break ;
            },
            Some(idx) => {
                let count = pool.nodes[idx].count as usize;
                proof {
                    lemma_chain_node_same(pool.nodes@, pool.nodes@, chain_idx as int, (steps + 1) as nat);
                }
                let mut i: usize = 0;
                while i < count
                    invariant
                        count <= leaves@.len(),
                        count == pool.nodes@[idx as int].count,
                        i <= count,
                        bitlengths@.len() == old(bitlengths)@.len(),
                        forall|j: int|
                            0 <= j < leaves@.len() ==> #[trigger] leaves@[j].count < bitlengths@.len(),
                        forall|j: int| 0 <= j < bitlengths@.len() ==> bitlengths@[j] <= steps + 1,
                        forall|j: int|
                            0 <= j < bitlengths@.len() && (forall|k: int|
                                0 <= k < leaves@.len() ==> #[trigger] leaves@[k].count != j)
                                ==> bitlengths@[j] == 0,
                        forall|k: int| i <= k < leaves@.len() ==> bitlengths@[#[trigger] leaves@[k].count as int] <= steps,
                        forall|a: int, b: int| 0 <= a < leaves@.len() && 0 <= b < leaves@.len() && a != b ==> #[trigger] leaves@[a].count != #[trigger] leaves@[b].count,
                        forall|k: int|
                            0 <= k < leaves@.len() ==> bitlengths@[#[trigger] leaves@[k].count as int] == chain_counted(
                                pool.nodes@,
                                chain_idx as int,
                                k,
                                steps as nat,
                            ) + if k < i {
                                1int
                            } else {
                                0int
                            },
                        steps < maxbits,
                        maxbits <= 32,
                    decreases count - i,
                {
                    let sym = leaves[i].count;
                    let b = bitlengths[sym];
                    bitlengths[sym] = b + 1;
                    proof {
                        assert forall|k: int| 0 <= k < leaves@.len() && k != i implies leaves@[k].count != sym by {}
                    }
                    i = i + 1;
                }
                curr = pool.nodes[idx].tail;
            },
        }
        steps = steps + 1;
    }
    proof {
        assert forall|k: int| 0 <= k < leaves@.len() implies bitlengths@[#[trigger] leaves@[k].count as int]
            == chain_counted(pool.nodes@, chain_idx as int, k, maxbits as nat) by {
            if steps < maxbits {
                lemma_chain_counted_stops(pool.nodes@, chain_idx as int, k, steps as nat, maxbits as nat);
            }
        }
    }
}

/// Of two used symbols, the more frequent one never gets the longer code.
pub open spec fn lengths_follow_counts(lengths: Seq<u32>, freqs: Seq<usize>) -> bool {
    forall|i: int, j: int|
        0 <= i < freqs.len() && 0 <= j < freqs.len() && freqs[j] > 0 && #[trigger] freqs[i] > #[trigger] freqs[j]
            ==> lengths[i] <= lengths[j]
}

/// A chain counts a leaf at least as often as any later leaf.
proof fn lemma_chain_counted_mono(nodes: Seq<Node>, start: int, k1: int, k2: int, steps: nat)
    requires
        k1 <= k2,
    ensures
        chain_counted(nodes, start, k2, steps) <= chain_counted(nodes, start, k1, steps),
    decreases steps,
{
    if steps > 0 {
        lemma_chain_counted_mono(nodes, start, k1, k2, (steps - 1) as nat);
    }
}

/// The tie-break encoding of a weight below the count limit and a symbol below 512.
proof fn lemma_tie_break(w: usize, c: usize, mx: usize)
    by (bit_vector)
    requires
        w <= mx >> 9usize,
        c < 512,
    ensures
        ((w << 9usize) | c) as int == w * 512 + c,
{
}

/// Package-merge on the lists of nodes: the code lengths that the final chain gives, or
/// `CompressionFailed` when the node pool runs out.
#[verifier::loop_isolation(false)]
fn package_merge_lengths(
    frequencies: &[usize],
    maxbits: i32,
    bitlengths: &mut [u32],
) -> (r: Result<(), Error>)
    requires
        frequencies@.len() < i32::MAX,
    ensures
        old(bitlengths)@.len() != frequencies@.len() ==> r == Err::<(), Error>(Error::SliceLengthMismatch) && final(bitlengths)@ == old(bitlengths)@,
        old(bitlengths)@.len() == frequencies@.len() ==> final(bitlengths)@.len() == frequencies@.len()
            && (forall|i: int| 0 <= i < frequencies@.len() && frequencies@[i] == 0 ==> final(bitlengths)@[i] == 0),
        old(bitlengths)@.len() == frequencies@.len() && (maxbits < 0 || maxbits > 32 || code_capacity(maxbits) < nonzero_count(frequencies@))
            ==> r == Err::<(), Error>(Error::TooFewMaxBits) && forall|i: int| 0 <= i < frequencies@.len() ==> final(bitlengths)@[i] == 0,
        old(bitlengths)@.len() == frequencies@.len() && !(maxbits < 0 || maxbits > 32 || code_capacity(maxbits) < nonzero_count(frequencies@))
            && nonzero_count(frequencies@) <= 1
            ==> r is Ok && forall|i: int| 0 <= i < frequencies@.len() ==> final(bitlengths)@[i] == if frequencies@[i] > 0 { 1u32 } else { 0u32 },
        old(bitlengths)@.len() == frequencies@.len() && !(maxbits < 0 || maxbits > 32 || code_capacity(maxbits) < nonzero_count(frequencies@))
            && nonzero_count(frequencies@) >= 2 && (exists|i: int| 0 <= i < frequencies@.len() && frequencies@[i] >= count_limit())
            ==> r == Err::<(), Error>(Error::KatajainenCountOverflow) && forall|i: int| 0 <= i < frequencies@.len() ==> final(bitlengths)@[i] == 0,
        old(bitlengths)@.len() == frequencies@.len() && !(maxbits < 0 || maxbits > 32 || code_capacity(maxbits) < nonzero_count(frequencies@))
            && nonzero_count(frequencies@) >= 2 && (forall|i: int| 0 <= i < frequencies@.len() ==> frequencies@[i] < count_limit())
            ==> r is Ok || r == Err::<(), Error>(Error::CompressionFailed),
        old(bitlengths)@.len() == frequencies@.len() ==> forall|i: int|
            0 <= i < frequencies@.len() ==> #[trigger] final(bitlengths)@[i] <= 1 || final(bitlengths)@[i] <= maxbits,
        old(bitlengths)@.len() == frequencies@.len() && frequencies@.len() <= 512 ==> lengths_follow_counts(
            final(bitlengths)@,
            frequencies@,
        ),
{
    let n = frequencies.len();
    if bitlengths.len() != n {
        return Err(Error::SliceLengthMismatch);
    }
    let mut z: usize = 0;
    while z < n
        invariant
            z <= n == bitlengths@.len() == frequencies@.len(),
            forall|j: int| 0 <= j < z ==> bitlengths@[j] == 0u32,
        decreases n - z,
    {
        bitlengths[z] = 0;
        z = z + 1;
    }
    let mut leaves: Vec<Leaf> = Vec::new();
    let mut k: usize = 0;
    while k < n
        invariant
            k <= n == bitlengths@.len() == frequencies@.len(),
            forall|j: int| 0 <= j < n ==> bitlengths@[j] == 0u32,
            leaves@.len() == nonzero_count(frequencies@.take(k as int)),
            forall|a: int, b: int| 0 <= a < leaves@.len() && 0 <= b < leaves@.len() && a != b ==> #[trigger] leaves@[a].count != #[trigger] leaves@[b].count,
            forall|j: int| 0 <= j < leaves@.len() ==> #[trigger] leaves@[j].count < k
                && frequencies@[leaves@[j].count as int] > 0
                && leaves@[j].weight == frequencies@[leaves@[j].count as int],
            forall|j: int| 0 <= j < k && frequencies@[j] > 0 ==> exists|i: int| 0 <= i < leaves@.len() && #[trigger] leaves@[i].count == j,
        decreases n - k,
    {
        let freq = frequencies[k];
        let ghost old_leaves = leaves@;
        if freq > 0 {
            leaves.push(Leaf { weight: freq, count: k });
        }
        proof {
            assert(frequencies@.take(k + 1).drop_last() == frequencies@.take(k as int));
            assert forall|j: int| 0 <= j < k + 1 && frequencies@[j] > 0 implies exists|i: int| 0 <= i < leaves@.len() && #[trigger] leaves@[i].count == j by {
                if j < k {
                    let i = choose|i: int| 0 <= i < old_leaves.len() && #[trigger] old_leaves[i].count == j;
                    assert(leaves@[i] == old_leaves[i]);
                } else {
                    assert(leaves@[leaves@.len() - 1].count == j);
                }
            }
        }
        k = k + 1;
    }
    proof {
        assert(frequencies@.take(n as int) == frequencies@);
    }
    let numsymbols = leaves.len();
    proof {
        crate::tree::lemma_nonzero_count_nonneg(frequencies@);
    }
    let cap: usize = if (maxbits as u32) < usize::BITS {
        1usize << (maxbits as u32)
    } else {
        usize::MAX
    };
    if maxbits < 0 || maxbits > 32 || cap < numsymbols {
        return Err(Error::TooFewMaxBits);
    }
    if numsymbols == 0 {
        return Ok(());
    }
    if numsymbols == 1 {
        let c = leaves[0].count;
        bitlengths[c] = 1;
        proof {
            assert forall|i: int| 0 <= i < frequencies@.len() && frequencies@[i] > 0 implies i == c by {
                if i != c {
                    crate::tree::lemma_nonzero_count_one(frequencies@, i, c as int);
                }
            }
        }
        return Ok(());
    }
    let mx: usize = usize::MAX;
    proof {
        assert(mx >> 9u32 < mx) by (bit_vector)
            requires
                mx > 0,
        ;
    }
    let limit: usize = (mx >> 9) + 1;
    let mut m: usize = 0;
    while m < numsymbols
        invariant
            m <= numsymbols == leaves@.len(),
            forall|a: int, b: int| 0 <= a < leaves@.len() && 0 <= b < leaves@.len() && a != b ==> #[trigger] leaves@[a].count != #[trigger] leaves@[b].count,
            forall|j: int| 0 <= j < n ==> bitlengths@[j] == 0u32,
            forall|j: int| 0 <= j < leaves@.len() ==> #[trigger] leaves@[j].count < n
                && frequencies@[leaves@[j].count as int] > 0,
            forall|j: int| m <= j < leaves@.len() ==> #[trigger] leaves@[j].weight == frequencies@[leaves@[j].count as int],
            forall|j: int| 0 <= j < m ==> frequencies@[#[trigger] leaves@[j].count as int] < count_limit(),
            forall|j: int| 0 <= j < n && frequencies@[j] > 0 ==> exists|i: int| 0 <= i < leaves@.len() && #[trigger] leaves@[i].count == j,
            n <= 512 ==> forall|j: int| 0 <= j < m ==> #[trigger] leaves@[j].weight == frequencies@[leaves@[j].count as int]
                * 512 + leaves@[j].count,
        decreases numsymbols - m,
    {
        let leaf = leaves[m];
        if leaf.weight >= limit {
            return Err(Error::KatajainenCountOverflow);
        }
        let ghost old_leaves = leaves@;
        proof {
            if n <= 512 {
                lemma_tie_break(leaf.weight, leaf.count, mx);
            }
        }
        leaves.set(m, Leaf { weight: (leaf.weight << 9usize) | leaf.count, count: leaf.count });
        proof {
            assert forall|j: int| 0 <= j < n && frequencies@[j] > 0 implies exists|i: int| 0 <= i < leaves@.len() && #[trigger] leaves@[i].count == j by {
                let i = choose|i: int| 0 <= i < old_leaves.len() && #[trigger] old_leaves[i].count == j;
                assert(leaves@[i].count == old_leaves[i].count);
            }
        }
        m = m + 1;
    }
    proof {
        assert forall|i: int| 0 <= i < frequencies@.len() implies frequencies@[i] < count_limit() by {
            if frequencies@[i] > 0 {
                let j = choose|j: int| 0 <= j < leaves@.len() && #[trigger] leaves@[j].count == i;
            }
        }
    }
    // Stable insertion sort by the combined weight.
    let mut s: usize = 1;
    while s < numsymbols
        invariant
            1 <= s <= numsymbols == leaves@.len(),
            forall|a: int, b: int| 0 <= a < leaves@.len() && 0 <= b < leaves@.len() && a != b ==> #[trigger] leaves@[a].count != #[trigger] leaves@[b].count,
            forall|j: int| 0 <= j < leaves@.len() ==> #[trigger] leaves@[j].count < n
                && frequencies@[leaves@[j].count as int] > 0,
            forall|j: int| 0 <= j < n && frequencies@[j] > 0 ==> exists|i: int| 0 <= i < leaves@.len() && #[trigger] leaves@[i].count == j,
            n <= 512 ==> forall|j: int| 0 <= j < leaves@.len() ==> #[trigger] leaves@[j].weight == frequencies@[leaves@[j].count as int]
                * 512 + leaves@[j].count,
            forall|a: int, b: int| 0 <= a < b < s ==> leaves@[a].weight <= leaves@[b].weight,
        decreases numsymbols - s,
    {
        let mut t = s;
        while t > 0 && leaves[t - 1].weight > leaves[t].weight
            invariant
                t <= s < numsymbols == leaves@.len(),
                forall|a: int, b: int| 0 <= a < leaves@.len() && 0 <= b < leaves@.len() && a != b ==> #[trigger] leaves@[a].count != #[trigger] leaves@[b].count,
                forall|j: int| 0 <= j < leaves@.len() ==> #[trigger] leaves@[j].count < n
                    && frequencies@[leaves@[j].count as int] > 0,
                forall|j: int| 0 <= j < n && frequencies@[j] > 0 ==> exists|i: int| 0 <= i < leaves@.len() && #[trigger] leaves@[i].count == j,
                n <= 512 ==> forall|j: int| 0 <= j < leaves@.len() ==> #[trigger] leaves@[j].weight == frequencies@[leaves@[j].count as int]
                    * 512 + leaves@[j].count,
                forall|a: int, b: int| 0 <= a < b <= s && a != t && b != t ==> leaves@[a].weight <= leaves@[b].weight,
                forall|b: int| t < b <= s ==> leaves@[t as int].weight <= leaves@[b].weight,
            decreases t,
        {
            let a = leaves[t - 1];
            let b = leaves[t];
            let ghost old_leaves = leaves@;
            leaves.set(t - 1, b);
            leaves.set(t, a);
            proof {
                assert forall|j: int| 0 <= j < n && frequencies@[j] > 0 implies exists|i: int|
                    0 <= i < leaves@.len() && #[trigger] leaves@[i].count == j by {
                    let i = choose|i: int| 0 <= i < old_leaves.len() && #[trigger] old_leaves[i].count == j;
                    if i == t - 1 {
                        assert(leaves@[t as int].count == j);
                    } else if i == t {
                        assert(leaves@[t - 1].count == j);
                    } else {
                        assert(leaves@[i].count == j);
                    }
                }
                assert forall|x: int, y: int| 0 <= x < leaves@.len() && 0 <= y < leaves@.len() && x != y implies #[trigger] leaves@[x].count != #[trigger] leaves@[y].count by {
                    let x0 = if x == t - 1 { t as int } else if x == t { t - 1 } else { x };
                    let y0 = if y == t - 1 { t as int } else if y == t { t - 1 } else { y };
                    assert(leaves@[x] == old_leaves[x0] && leaves@[y] == old_leaves[y0]);
                }
            }
            t = t - 1;
        }
        s = s + 1;
    }
    proof {
        if n <= 512 {
            assert forall|a: int, b: int| 0 <= a < b < numsymbols implies frequencies@[#[trigger] leaves@[a].count as int]
                <= frequencies@[#[trigger] leaves@[b].count as int] by {
                assert(leaves@[a].weight <= leaves@[b].weight);
            }
        }
    }
    let ghost sorted_counts = leaves@;
    proof {
        assert forall|j: int| 0 <= j < n && frequencies@[j] > 0 implies exists|x: int|
            0 <= x < numsymbols && #[trigger] sorted_counts[x].count == j by {
            let i = choose|i: int| 0 <= i < leaves@.len() && #[trigger] leaves@[i].count == j;
            assert(sorted_counts[i].count == j);
        }
    }
    let mut w: usize = 0;
    while w < numsymbols
        invariant
            w <= numsymbols == leaves@.len(),
            sorted_counts.len() == numsymbols,
            forall|j: int| 0 <= j < numsymbols ==> #[trigger] leaves@[j].count == sorted_counts[j].count,
            forall|a: int, b: int| 0 <= a < leaves@.len() && 0 <= b < leaves@.len() && a != b ==> #[trigger] leaves@[a].count != #[trigger] leaves@[b].count,
            forall|j: int| 0 <= j < leaves@.len() ==> #[trigger] leaves@[j].count < n
                && frequencies@[leaves@[j].count as int] > 0,
        decreases numsymbols - w,
    {
        let leaf = leaves[w];
        leaves.set(w, Leaf { weight: leaf.weight >> 9usize, count: leaf.count });
        w = w + 1;
    }
    assert(0 <= maxbits <= 32);
    if maxbits == 0 {
        assert(1usize << 0u32 == 1) by (bit_vector);
        assert(false);
    }
    let maxbits = maxbits as usize;
    assert(2 * maxbits * (maxbits + 1) <= 2112) by (nonlinear_arith)
        requires
            maxbits <= 32,
    ;
    let pool_size = 2 * maxbits * (maxbits + 1);
    let mut nodes: Vec<Node> = Vec::new();
    let mut q: usize = 0;
    while q < pool_size
        invariant
            q <= pool_size,
            nodes@.len() == q,
            forall|j: int| #![trigger nodes@[j]] 0 <= j < q ==> nodes@[j].tail is None && nodes@[j].count == 0,
        decreases pool_size - q,
    {
        nodes.push(Node { weight: 0, tail: None, count: 0, in_use: false });
        q = q + 1;
    }
    assert(pool_size >= 4) by (nonlinear_arith)
        requires
            maxbits >= 1,
            pool_size == 2 * maxbits * (maxbits + 1),
    ;
    let mut pool = NodePool { nodes, next: 0 };
    assert(forall|k: int| 0 <= k < pool.nodes@.len() ==> 0 <= #[trigger] pool.nodes@[k].count <= 0);
    let node0 = match get_free_node(None, maxbits, &mut pool, Ghost(0)) {
        Some(x) => x,
        None => {
            return Err(Error::CompressionFailed);
        },
    };
    let node1 = match get_free_node(None, maxbits, &mut pool, Ghost(0)) {
        Some(x) => x,
        None => {
            return Err(Error::CompressionFailed);
        },
    };
    init_node(&mut pool, node0, leaves[0].weight, 1, None);
    init_node(&mut pool, node1, leaves[1].weight, 2, None);
    let mut lists: Vec<(usize, usize)> = Vec::new();
    let mut li: usize = 0;
    while li < maxbits
        invariant
            li <= maxbits,
            lists@.len() == li,
            node0 < pool.nodes@.len(),
            node1 < pool.nodes@.len(),
            forall|j: int| 0 <= j < li ==> #[trigger] lists@[j] == (node0, node1),
        decreases maxbits - li,
    {
        lists.push((node0, node1));
        li = li + 1;
    }
    let num_boundary_pm_runs = 2 * numsymbols - 4;
    let mut run: usize = 0;
    while run < num_boundary_pm_runs
        invariant
            run <= num_boundary_pm_runs,
            forall|a: int, b: int| 0 <= a < leaves@.len() && 0 <= b < leaves@.len() && a != b ==> #[trigger] leaves@[a].count != #[trigger] leaves@[b].count,
            1 <= maxbits <= 32,
            numsymbols == leaves@.len(),
            numsymbols < i32::MAX,
            pool_wf(&pool, numsymbols as nat),
            pool.nodes@.len() == pool_size,
            lists_wf(lists@, maxbits as nat, pool.nodes@.len() as nat),
            forall|j: int| 0 <= j < n ==> bitlengths@[j] == 0u32,
            bitlengths@.len() == n,
            forall|j: int| 0 <= j < leaves@.len() ==> #[trigger] leaves@[j].count < n
                && frequencies@[leaves@[j].count as int] > 0,
        decreases num_boundary_pm_runs - run,
    {
        let is_final = run == num_boundary_pm_runs - 1;
        if boundary_pm(&mut lists, maxbits, &leaves, numsymbols, &mut pool, maxbits - 1, is_final).is_err() {
            return Err(Error::CompressionFailed);
        }
        run = run + 1;
    }
    let chain = lists[maxbits - 1].1;
    extract_bit_lengths(chain, &pool, &leaves, maxbits, bitlengths);
    proof {
        if n <= 512 {
            assert forall|i: int, j: int|
                0 <= i < frequencies@.len() && 0 <= j < frequencies@.len() && frequencies@[j] > 0
                    && #[trigger] frequencies@[i] > #[trigger] frequencies@[j] implies bitlengths@[i] <= bitlengths@[j] by {
                let pi = choose|x: int| 0 <= x < numsymbols && #[trigger] sorted_counts[x].count == i;
                let pj = choose|x: int| 0 <= x < numsymbols && #[trigger] sorted_counts[x].count == j;
                assert(leaves@[pi].count == i && leaves@[pj].count == j);
                if pi <= pj {
                    if pi < pj {
                        assert(frequencies@[leaves@[pi].count as int] <= frequencies@[leaves@[pj].count as int]);
                    }
                    assert(false);
                }
                lemma_chain_counted_mono(pool.nodes@, chain as int, pj, pi, maxbits as nat);
                assert(bitlengths@[leaves@[pi].count as int] == chain_counted(pool.nodes@, chain as int, pi, maxbits as nat));
                assert(bitlengths@[leaves@[pj].count as int] == chain_counted(pool.nodes@, chain as int, pj, maxbits as nat));
            }
        }
    }
    Ok(())
}


/// The counts that the tie-break encoding holds: all below 2^23, and all below 2^55
/// where `usize` has 64 bits.
pub(crate) proof fn lemma_count_limit_large()
    ensures
        count_limit() >= 0x80_0000,
        usize::BITS == 64 ==> count_limit() >= 0x80_0000_0000_0000,
{
    let x: usize = usize::MAX;
    assert(x >> 9u32 == x / 512usize) by (bit_vector);
}

/// The capacity of codes of at most 15 bits is a power of two.
pub(crate) proof fn lemma_capacity_pow2(maxbits: i32)
    requires
        0 <= maxbits <= 15,
    ensures
        code_capacity(maxbits) == pow2(maxbits as nat),
{
    lemma_pow2_small();
    assert((1usize << 0u32) == 1usize && (1usize << 1u32) == 2usize && (1usize << 2u32) == 4usize && (1usize << 3u32)
        == 8usize && (1usize << 4u32) == 16usize && (1usize << 5u32) == 32usize && (1usize << 6u32) == 64usize && (1usize
        << 7u32) == 128usize && (1usize << 8u32) == 256usize && (1usize << 9u32) == 512usize && (1usize << 10u32)
        == 1024usize && (1usize << 11u32) == 2048usize && (1usize << 12u32) == 4096usize && (1usize << 13u32) == 8192usize
        && (1usize << 14u32) == 16384usize && (1usize << 15u32) == 32768usize) by (bit_vector);
    let b = maxbits as u32;
    if b == 0 {
    } else if b == 1 {
    } else if b == 2 {
    } else if b == 3 {
    } else if b == 4 {
    } else if b == 5 {
    } else if b == 6 {
    } else if b == 7 {
    } else if b == 8 {
    } else if b == 9 {
    } else if b == 10 {
    } else if b == 11 {
    } else if b == 12 {
    } else if b == 13 {
    } else if b == 14 {
    } else {
    }
}

/// Outputs minimum-redundancy length-limited code bitlengths for symbols with the
/// given counts. The bitlengths are limited by maxbits, so that with `maxbits` 0 no used
/// symbol can have a code (`TooFewMaxBits`). For codes of at most 15 bits the result is
/// checked to be a prefix code for exactly the used symbols; should package-merge fail
/// or give something else, every used symbol gets the same length.
pub fn length_limited_code_lengths(
    frequencies: &[usize],
    maxbits: i32,
    bitlengths: &mut [u32],
) -> (r: Result<(), Error>)
    requires
        frequencies@.len() < i32::MAX,
    ensures
        old(bitlengths)@.len() != frequencies@.len() ==> r == Err::<(), Error>(Error::SliceLengthMismatch) && final(bitlengths)@ == old(bitlengths)@,
        old(bitlengths)@.len() == frequencies@.len() ==> final(bitlengths)@.len() == frequencies@.len()
            && (forall|i: int| 0 <= i < frequencies@.len() && frequencies@[i] == 0 ==> final(bitlengths)@[i] == 0),
        old(bitlengths)@.len() == frequencies@.len() && (maxbits < 0 || maxbits > 32 || code_capacity(maxbits) < nonzero_count(frequencies@)
            || (maxbits == 0 && nonzero_count(frequencies@) >= 1))
            ==> r == Err::<(), Error>(Error::TooFewMaxBits) && forall|i: int| 0 <= i < frequencies@.len() ==> final(bitlengths)@[i] == 0,
        old(bitlengths)@.len() == frequencies@.len() && !(maxbits < 0 || maxbits > 32 || code_capacity(maxbits) < nonzero_count(frequencies@))
            && (nonzero_count(frequencies@) == 0 || (nonzero_count(frequencies@) == 1 && maxbits >= 1))
            ==> r is Ok && forall|i: int| 0 <= i < frequencies@.len() ==> final(bitlengths)@[i] == if frequencies@[i] > 0 { 1u32 } else { 0u32 },
        old(bitlengths)@.len() == frequencies@.len() && !(maxbits < 0 || maxbits > 32 || code_capacity(maxbits) < nonzero_count(frequencies@))
            && nonzero_count(frequencies@) >= 2 && (exists|i: int| 0 <= i < frequencies@.len() && frequencies@[i] >= count_limit())
            ==> r == Err::<(), Error>(Error::KatajainenCountOverflow) && forall|i: int| 0 <= i < frequencies@.len() ==> final(bitlengths)@[i] == 0,
        old(bitlengths)@.len() == frequencies@.len() && 1 <= maxbits <= 15 && code_capacity(maxbits) >= nonzero_count(frequencies@)
            && (forall|i: int| 0 <= i < frequencies@.len() ==> frequencies@[i] < count_limit())
            ==> r is Ok && prefix_code_for(final(bitlengths)@, frequencies@, maxbits as int),
        old(bitlengths)@.len() == frequencies@.len() && 15 < maxbits <= 32 && code_capacity(maxbits) >= nonzero_count(frequencies@)
            && nonzero_count(frequencies@) >= 2 && (forall|i: int| 0 <= i < frequencies@.len() ==> frequencies@[i] < count_limit())
            ==> r is Ok || r == Err::<(), Error>(Error::CompressionFailed),
        old(bitlengths)@.len() == frequencies@.len() ==> forall|i: int|
            0 <= i < frequencies@.len() ==> #[trigger] final(bitlengths)@[i] <= maxbits || (maxbits < 0 && final(bitlengths)@[i] == 0),
        old(bitlengths)@.len() == frequencies@.len() && frequencies@.len() <= 512 ==> lengths_follow_counts(
            final(bitlengths)@,
            frequencies@,
        ),
{
    let r = package_merge_lengths(frequencies, maxbits, bitlengths);
    proof {
        if maxbits == 0 {
            lemma_capacity_pow2(0);
            lemma_pow2_small();
        }
    }
    if maxbits == 0 && bitlengths.len() == frequencies.len() && used_symbols(frequencies) >= 1 {
        let mut k: usize = 0;
        while k < bitlengths.len()
            invariant
                k <= bitlengths@.len() == frequencies@.len(),
                forall|j: int| 0 <= j < k ==> bitlengths@[j] == 0,
            decreases bitlengths@.len() - k,
        {
            bitlengths[k] = 0;
            k = k + 1;
        }
        return Err(Error::TooFewMaxBits);
    }
    if bitlengths.len() != frequencies.len() || maxbits < 1 || maxbits > 15 {
        proof {
            if maxbits == 0 && bitlengths@.len() == frequencies@.len() {
                assert forall|i: int| 0 <= i < frequencies@.len() implies frequencies@[i] == 0 by {
                    if frequencies@[i] > 0 {
                        lemma_nonzero_count_pos(frequencies@, i);
                    }
                }
            }
        }
        return r;
    }
    let m = used_symbols(frequencies);
    let cap: usize = 1usize << (maxbits as u32);
    let overflow = match r {
        Err(Error::KatajainenCountOverflow) => true,
        _ => false,
    };
    if m > cap || overflow {
        return r;
    }
    proof {
        lemma_capacity_pow2(maxbits);
        if nonzero_count(frequencies@) <= 1 && r is Ok {
            lemma_pow2_small();
            lemma_flat_fits(bitlengths@, frequencies@, 1);
        }
    }
    let ghost before = bitlengths@;
    ensure_prefix_code(frequencies, maxbits as u32, bitlengths);
    proof {
        if frequencies@.len() <= 512 && bitlengths@ != before {
            let len = choose|len: u32| #[trigger] crate::tree::flat_code(bitlengths@, frequencies@, len);
            assert forall|i: int, j: int|
                0 <= i < frequencies@.len() && 0 <= j < frequencies@.len() && frequencies@[j] > 0
                    && #[trigger] frequencies@[i] > #[trigger] frequencies@[j] implies bitlengths@[i] <= bitlengths@[j] by {
                assert(bitlengths@[i] == len && bitlengths@[j] == len);
            }
        }
    }
    Ok(())
}

} // verus!
