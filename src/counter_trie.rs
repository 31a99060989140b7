//! A trie over letter counters: level `d` branches on the count of the letter in slot `d`,
//! and the node where the remaining counts are all zero names the anagram class of that
//! counter.
use crate::alphabet::is_letter_order;
use crate::letters::{fits_in, ALPHA_SIZE};
use vstd::prelude::*;
use vstd::slice::slice_to_vec;

verus! {

/// One node: the class whose counter ends here, if any, and the edges to its children as
/// `(count, node index)` pairs in ascending order of count.
pub struct CounterNode {
    pub class: Option<usize>,
    pub children: Vec<(usize, usize)>,
    /// The counts on the edges from the root to this node.
    pub prefix: Ghost<Seq<usize>>,
}

/// The trie, its nodes held in one vector; node 0 is the root.
pub struct CounterTrie {
    pub nodes: Vec<CounterNode>,
    /// The letter of each slot.
    pub order: Vec<usize>,
    /// The slot of each letter.
    pub slot: Ghost<Seq<usize>>,
    /// The counter of each class that the trie may name.
    pub counters: Ghost<Seq<Seq<usize>>>,
    /// For each class named in the trie, the nodes from the root down to the one that
    /// names it.
    pub chains: Ghost<Map<int, Seq<usize>>>,
}

/// Some position of `s` from `from` on holds `k`.
pub open spec fn found_in(s: Seq<usize>, from: int, k: int) -> bool {
    exists|i: int| from <= i < s.len() && s[i] == k
}

/// The counter `c` ends at a node whose edge counts are `p`: slot `j` holds `p[j]` for the
/// first `p.len()` slots, and nothing after.
pub open spec fn ends_at(c: Seq<usize>, p: Seq<usize>, order: Seq<usize>) -> bool {
    &&& p.len() <= 26
    &&& forall|j: int| 0 <= j < p.len() ==> #[trigger] c[order[j] as int] == p[j]
    &&& forall|j: int| p.len() <= j < 26 ==> #[trigger] c[order[j] as int] == 0
}

/// The counts on the path `p` fit under the target counter `t`, slot by slot.
pub open spec fn path_fits(p: Seq<usize>, t: Seq<usize>, order: Seq<usize>) -> bool {
    forall|j: int| 0 <= j < p.len() ==> #[trigger] p[j] <= t[order[j] as int]
}

impl CounterTrie {
    /// The edge counts from the root to node `n`.
    pub open spec fn prefix_of(&self, n: int) -> Seq<usize> {
        self.nodes@[n].prefix@
    }

    /// Node `n` is well formed: each child extends its path by the edge count, children are
    /// ordered by count, and a class named here has its counter end here.
    pub open spec fn node_wf(&self, n: int) -> bool {
        let node = self.nodes@[n];
        &&& node.prefix@.len() <= 26
        &&& forall|e: int|
            0 <= e < node.children@.len() ==> {
                let (label, c) = #[trigger] node.children@[e];
                &&& 0 < c < self.nodes@.len()
                &&& self.prefix_of(c as int) == node.prefix@.push(label)
            }
        &&& forall|e: int, f: int|
            0 <= e < f < node.children@.len() ==> (#[trigger] node.children@[e]).0 < (
            #[trigger] node.children@[f]).0
        &&& match node.class {
            Some(k) => k < self.counters@.len() && self.counters@[k as int].len() == ALPHA_SIZE
                && ends_at(self.counters@[k as int], node.prefix@, self.order@),
            None => true,
        }
    }

    /// An edge leads from node `n` to node `m`.
    pub open spec fn has_edge(&self, n: int, m: int) -> bool {
        exists|e: int| 0 <= e < self.nodes@[n].children@.len() && #[trigger] self.nodes@[n].children@[e].1 == m
    }

    /// `chain` runs from the root along edges to the node that names class `k`.
    pub open spec fn chain_ok(&self, k: int, chain: Seq<usize>) -> bool {
        &&& 0 <= k <= usize::MAX
        &&& 1 <= chain.len() <= 27
        &&& chain[0] == 0
        &&& forall|j: int| 0 <= j < chain.len() ==> #[trigger] chain[j] < self.nodes@.len()
        &&& self.prefix_of(chain.last() as int).len() == chain.len() - 1
        &&& forall|j: int|
            0 <= j < chain.len() ==> #[trigger] self.prefix_of(chain[j] as int) == self.prefix_of(
                chain.last() as int,
            ).take(j)
        &&& forall|j: int| 0 <= j < chain.len() - 1 ==> #[trigger] self.has_edge(chain[j] as int, chain[j + 1] as int)
        &&& self.nodes@[chain.last() as int].class == Some(k as usize)
    }

    /// The trie is well formed.
    pub open spec fn wf(&self) -> bool {
        &&& is_letter_order(self.order@, self.slot@)
        &&& self.nodes@.len() >= 1
        &&& self.prefix_of(0) == Seq::<usize>::empty()
        &&& forall|n: int| 0 <= n < self.nodes@.len() ==> #[trigger] self.node_wf(n)
        &&& forall|k: int| #[trigger] self.chains@.contains_key(k) ==> self.chain_ok(k, self.chains@[k])
        &&& forall|n: int|
            0 <= n < self.nodes@.len() && (#[trigger] self.nodes@[n]).class is Some ==> self.chains@.contains_key(
                self.nodes@[n].class->0 as int,
            ) && self.chains@[self.nodes@[n].class->0 as int].last() == n
        &&& self.one_parent()
    }

    /// Class `k` is named at node `n`, at depth `depth`, or below it.
    pub open spec fn named_below(&self, k: int, n: int, depth: int) -> bool {
        &&& self.chains@.contains_key(k)
        &&& self.chains@[k].len() > depth
        &&& self.chains@[k][depth] == n
    }

    /// Every node but the root hangs under exactly one edge.
    pub open spec fn one_parent(&self) -> bool {
        forall|n1: int, e1: int, n2: int, e2: int|
            0 <= n1 < self.nodes@.len() && 0 <= n2 < self.nodes@.len() && 0 <= e1
                < self.nodes@[n1].children@.len() && 0 <= e2 < self.nodes@[n2].children@.len()
                && (#[trigger] self.nodes@[n1].children@[e1]).1 == (#[trigger] self.nodes@[n2].children@[e2]).1
                ==> n1 == n2 && e1 == e2
    }

    /// An empty trie for the classes with counters `counters`, branching in the order
    /// `order`.
    pub fn new(order: Vec<usize>, slot: Ghost<Seq<usize>>, counters: Ghost<Seq<Seq<usize>>>) -> (r:
        CounterTrie)
        requires
            is_letter_order(order@, slot@),
        ensures
            r.wf(),
            r.order@ == order@,
            r.slot@ == slot@,
            r.counters@ == counters@,
            r.chains@ == Map::<int, Seq<usize>>::empty(),
            r.nodes@.len() == 1,
    {
        let root = CounterNode { class: None, children: Vec::new(), prefix: Ghost(Seq::empty()) };
        let mut nodes: Vec<CounterNode> = Vec::new();
        nodes.push(root);
        CounterTrie { nodes, order, slot, counters, chains: Ghost(Map::empty()) }
    }

    /// Collects, depth first, every class that ends at or below node `n` and fits under
    /// `target`; a child whose count exceeds the target's ends the walk over its siblings,
    /// which have larger counts. Every class named below `n` whose counter fits is found.
    pub fn retrieve_anagrams(
        &self,
        n: usize,
        depth: usize,
        target: &Vec<usize>,
        result: &mut Vec<usize>,
    )
        requires
            self.wf(),
            n < self.nodes@.len(),
            depth == self.prefix_of(n as int).len(),
            target@.len() == ALPHA_SIZE,
            path_fits(self.prefix_of(n as int), target@, self.order@),
        ensures
            final(result)@.len() >= old(result)@.len(),
            final(result)@.take(old(result)@.len() as int) == old(result)@,
            forall|i: int|
                old(result)@.len() <= i < final(result)@.len() ==> #[trigger] final(result)@[i]
                    < self.counters@.len() && fits_in(self.counters@[final(result)@[i] as int], target@),
            forall|k: int|
                #[trigger] self.chains@.contains_key(k) && self.chains@[k].len() > depth
                    && self.chains@[k][depth as int] == n && fits_in(self.counters@[k], target@)
                    ==> found_in(final(result)@, old(result)@.len() as int, k),
            forall|i: int|
                old(result)@.len() <= i < final(result)@.len() ==> self.named_below(#[trigger] final(result)@[i] as int, n as int, depth as int),
            forall|a: int, b: int|
                old(result)@.len() <= a < b < final(result)@.len() ==> #[trigger] final(result)@[a] != #[trigger] final(result)@[b],
        decreases 26 - depth,
    {
        let ghost start = result@;
        let node = &self.nodes[n];
        proof {
            assert(self.node_wf(n as int));
        }
        match node.class {
            Some(k) => {
                proof {
                    let c = self.counters@[k as int];
                    let p = self.prefix_of(n as int);
                    let order = self.order@;
                    let slot = self.slot@;
                    assert forall|l: int| 0 <= l < 26 implies #[trigger] c[l] <= target@[l] by {
                        let j = slot[l] as int;
                        assert(order[j] == l);
                        if j < p.len() {
                            assert(c[order[j] as int] == p[j]);
                        } else {
                            assert(c[order[j] as int] == 0);
                        }
                    }
                }
                result.push(k);
                proof {
                    let chain = self.chains@[k as int];
                    assert(self.chain_ok(k as int, chain));
                    assert(self.named_below(result@[old(result)@.len() as int] as int, n as int, depth as int));
                    assert(self.chains@[k as int].len() == depth + 1);
                    assert(result@ == old(result)@.push(k));
                    assert forall|x: int|
                        #[trigger] self.chains@.contains_key(x) && self.chains@[x].len() == depth + 1
                            && self.chains@[x][depth as int] == n implies found_in(result@, old(result)@.len() as int, x) by {
                        let chain = self.chains@[x];
                        assert(self.chain_ok(x, chain));
                        assert(chain.last() == n);
                        assert(result@[old(result)@.len() as int] == x);
                    }
                }
            },
            None => {
                proof {
                    assert forall|x: int|
                        #[trigger] self.chains@.contains_key(x) && self.chains@[x].len() == depth + 1
                            && self.chains@[x][depth as int] == n implies found_in(result@, old(result)@.len() as int, x) by {
                        let chain = self.chains@[x];
                        assert(self.chain_ok(x, chain));
                        assert(chain.last() == n);
                    }
                }
            },
        }
        let ghost after_leaf = result@;
        proof {
            assert(after_leaf.len() <= old(result)@.len() + 1);
        }
        let mut e: usize = 0;
        let mut stop = false;
        while e < node.children.len() && !stop
            invariant
                self.wf(),
                n < self.nodes@.len(),
                node == self.nodes@[n as int],
                self.node_wf(n as int),
                depth == self.prefix_of(n as int).len(),
                target@.len() == ALPHA_SIZE,
                path_fits(self.prefix_of(n as int), target@, self.order@),
                e <= node.children@.len(),
                stop ==> e < node.children@.len() && node.children@[e as int].1 < self.nodes@.len()
                    && node.children@[e as int].0 > target@[self.order@[depth as int] as int],
                stop ==> depth < 26,
                result@.len() >= after_leaf.len(),
                result@.take(after_leaf.len() as int) == after_leaf,
                after_leaf.len() >= start.len(),
                after_leaf.take(start.len() as int) == start,
                start == old(result)@,
                forall|i: int|
                    old(result)@.len() <= i < result@.len() ==> #[trigger] result@[i]
                        < self.counters@.len() && fits_in(self.counters@[result@[i] as int], target@),
                forall|k: int|
                    #[trigger] self.chains@.contains_key(k) && self.chains@[k].len() == depth + 1
                        && self.chains@[k][depth as int] == n ==> found_in(result@, old(result)@.len() as int, k),
                forall|k: int|
                    #[trigger] self.chains@.contains_key(k) && self.chains@[k].len() > depth + 1
                        && self.chains@[k][depth as int] == n && fits_in(self.counters@[k], target@)
                        && (exists|f: int| 0 <= f < e && #[trigger] node.children@[f].1 == self.chains@[k][depth + 1])
                        ==> found_in(result@, old(result)@.len() as int, k),
                forall|i: int|
                    old(result)@.len() <= i < result@.len() ==> self.named_below(#[trigger] result@[i] as int, n as int, depth as int),
                after_leaf.len() <= old(result)@.len() + 1,
                after_leaf.len() == old(result)@.len() + 1 ==> self.chains@[after_leaf[old(result)@.len() as int] as int].len() == depth + 1,
                forall|i: int|
                    after_leaf.len() <= i < result@.len() ==> self.chains@[#[trigger] result@[i] as int].len() > depth + 1
                        && exists|f: int| 0 <= f < e && node.children@[f].1 == self.chains@[result@[i] as int][depth + 1],
                forall|a: int, b: int|
                    old(result)@.len() <= a < b < result@.len() ==> #[trigger] result@[a] != #[trigger] result@[b],
            decreases node.children@.len() - e + (if stop { 0int } else { 1int }),
        {
            let (label, child) = node.children[e];
            proof {
                assert(self.prefix_of(child as int) == self.prefix_of(n as int).push(label));
                assert(self.node_wf(child as int));
            }
            let limit = target[self.order[depth]];
            if label > limit {
                stop = true;
            } else {
                let ghost before = result@;
                proof {
                    let p = self.prefix_of(child as int);
                    assert forall|j: int| 0 <= j < p.len() implies #[trigger] p[j] <= target@[self.order@[j] as int] by {
                        if j < depth {
                            assert(p[j] == self.prefix_of(n as int)[j]);
                        }
                    }
                }
                self.retrieve_anagrams(child, depth + 1, target, result);
                proof {
                    assert(self.one_parent());
                    assert forall|i: int| before.len() <= i < result@.len() implies self.named_below(#[trigger] result@[i] as int, n as int, depth as int)
                        && self.chains@[result@[i] as int].len() > depth + 1
                        && self.chains@[result@[i] as int][depth + 1] == child by {
                        let k = result@[i] as int;
                        assert(self.named_below(k, child as int, depth + 1));
                        let chain = self.chains@[k];
                        assert(self.chain_ok(k, chain));
                        assert(self.has_edge(chain[depth as int] as int, chain[depth + 1] as int));
                        let e2 = choose|e2: int| 0 <= e2 < self.nodes@[chain[depth as int] as int].children@.len()
                            && #[trigger] self.nodes@[chain[depth as int] as int].children@[e2].1 == chain[depth + 1];
                        assert(node.children@[e as int].1 == child);
                        assert(chain[depth as int] < self.nodes@.len());
                    }
                    assert forall|i: int| old(result)@.len() <= i < result@.len() implies self.named_below(#[trigger] result@[i] as int, n as int, depth as int) by {
                        if i < before.len() {
                            assert(result@[i] == result@.take(before.len() as int)[i]);
                        }
                    }
                    assert forall|i: int|
                        after_leaf.len() <= i < result@.len() implies self.chains@[#[trigger] result@[i] as int].len() > depth + 1
                            && exists|f: int| 0 <= f < e + 1 && node.children@[f].1 == self.chains@[result@[i] as int][depth + 1] by {
                        if i < before.len() {
                            assert(result@[i] == result@.take(before.len() as int)[i]);
                        } else {
                            assert(node.children@[e as int].1 == self.chains@[result@[i] as int][depth + 1]);
                        }
                    }
                    assert forall|a: int, b: int|
                        old(result)@.len() <= a < b < result@.len() implies #[trigger] result@[a] != #[trigger] result@[b] by {
                        if b < before.len() {
                            assert(result@[a] == result@.take(before.len() as int)[a]);
                            assert(result@[b] == result@.take(before.len() as int)[b]);
                        } else if a < before.len() {
                            assert(result@[a] == result@.take(before.len() as int)[a]);
                            if result@[a] == result@[b] {
                                let k = result@[b] as int;
                                if a < after_leaf.len() {
                                    assert(result@[a] == after_leaf[old(result)@.len() as int]);
                                } else {
                                    let f = choose|f: int| 0 <= f < e && node.children@[f].1 == self.chains@[result@[a] as int][depth + 1];
                                    assert(node.children@[f].1 == node.children@[e as int].1);
                                }
                            }
                        }
                    }
                    assert(result@.take(before.len() as int) == before);
                    assert(result@.take(after_leaf.len() as int) =~= before.take(after_leaf.len() as int));
                    assert forall|i: int|
                        old(result)@.len() <= i < result@.len() implies #[trigger] result@[i]
                            < self.counters@.len() && fits_in(self.counters@[result@[i] as int], target@) by {
                        if i < before.len() {
                            assert(result@[i] == result@.take(before.len() as int)[i]);
                        }
                    }
                    assert forall|k: int|
                        #[trigger] self.chains@.contains_key(k) && self.chains@[k].len() == depth + 1
                            && self.chains@[k][depth as int] == n implies found_in(result@, old(result)@.len() as int, k) by {
                        let i = choose|i: int| old(result)@.len() <= i < before.len() && before[i] == k;
                        assert(result@[i] == result@.take(before.len() as int)[i]);
                    }
                    assert forall|k: int|
                        #[trigger] self.chains@.contains_key(k) && self.chains@[k].len() > depth + 1
                            && self.chains@[k][depth as int] == n && fits_in(self.counters@[k], target@)
                            && (exists|f: int| 0 <= f < e + 1 && #[trigger] node.children@[f].1 == self.chains@[k][depth + 1])
                            implies found_in(result@, old(result)@.len() as int, k) by {
                        let f = choose|f: int| 0 <= f < e + 1 && #[trigger] node.children@[f].1 == self.chains@[k][depth + 1];
                        if f < e {
                            let i = choose|i: int| old(result)@.len() <= i < before.len() && before[i] == k;
                            assert(result@[i] == result@.take(before.len() as int)[i]);
                        } else {
                            assert(self.chains@[k][depth + 1] == child);
                            let i = choose|i: int| before.len() <= i < result@.len() && result@[i] == k;
                        }
                    }
                }
                e += 1;
            }
        }
        proof {
            assert(result@.take(old(result)@.len() as int) =~= after_leaf.take(old(result)@.len() as int));
            assert forall|k: int|
                #[trigger] self.chains@.contains_key(k) && self.chains@[k].len() > depth
                    && self.chains@[k][depth as int] == n && fits_in(self.counters@[k], target@)
                    implies found_in(result@, old(result)@.len() as int, k) by {
                let chain = self.chains@[k];
                if chain.len() > depth + 1 {
                    assert(self.chain_ok(k, chain));
                    assert(self.has_edge(chain[depth as int] as int, chain[depth + 1] as int));
                    let f = choose|f: int| 0 <= f < node.children@.len() && #[trigger] node.children@[f].1 == chain[depth + 1];
                    if f >= e {
                        // the walk stopped at a count above the target's, at or before `f`
                        assert(stop);
                        let c = chain[depth + 1];
                        let last = chain.last();
                        assert(self.prefix_of(c as int) == self.prefix_of(n as int).push(node.children@[f].0));
                        assert(self.prefix_of(c as int) == self.prefix_of(last as int).take(depth + 1));
                        assert(self.prefix_of(last as int)[depth as int] == node.children@[f].0);
                        assert(self.node_wf(last as int));
                        assert(self.nodes@[last as int].class == Some(k as usize));
                        assert(ends_at(self.counters@[k], self.prefix_of(last as int), self.order@));
                        assert(self.counters@[k][self.order@[depth as int] as int] == node.children@[f].0);
                        assert(self.order@[depth as int] < 26);
                        if f > e {
                            assert(node.children@[e as int].0 < node.children@[f].0);
                        }
                        assert(false);
                    }
                }
            }
        }
    }

    /// Whether the counter holds nothing in slots `depth` and after.
    pub fn rest_is_empty(&self, counter: &Vec<usize>, depth: usize) -> (r: bool)
        requires
            self.wf(),
            counter@.len() == ALPHA_SIZE,
            depth <= 26,
        ensures
            r == forall|j: int| depth <= j < 26 ==> #[trigger] counter@[self.order@[j] as int] == 0,
    {
        let mut j: usize = depth;
        while j < ALPHA_SIZE
            invariant
                self.wf(),
                counter@.len() == ALPHA_SIZE,
                depth <= j <= 26,
                forall|i: int| depth <= i < j ==> #[trigger] counter@[self.order@[i] as int] == 0,
            decreases ALPHA_SIZE - j,
        {
            if counter[self.order[j]] != 0 {
                return false;
            }
            j += 1;
        }
        true
    }

    /// Adds node `m`, a new child of `cur` under the edge count `label`, at edge position
    /// `pos`.
    fn add_child(&mut self, cur: usize, pos: usize, label: usize) -> (m: usize)
        requires
            old(self).wf(),
            cur < old(self).nodes@.len(),
            old(self).prefix_of(cur as int).len() < 26,
            pos <= old(self).nodes@[cur as int].children@.len(),
            forall|e: int| 0 <= e < pos ==> (#[trigger] old(self).nodes@[cur as int].children@[e]).0 < label,
            forall|e: int| pos <= e < old(self).nodes@[cur as int].children@.len() ==> label < (
            #[trigger] old(self).nodes@[cur as int].children@[e]).0,
            old(self).nodes@.len() < usize::MAX,
        ensures
            final(self).wf(),
            m == old(self).nodes@.len(),
            final(self).nodes@.len() == m + 1,
            final(self).prefix_of(m as int) == old(self).prefix_of(cur as int).push(label),
            forall|n: int| 0 <= n < m ==> #[trigger] final(self).prefix_of(n) == old(self).prefix_of(n),
            forall|n: int| 0 <= n < m ==> #[trigger] final(self).nodes@[n].class == old(self).nodes@[n].class,
            final(self).order@ == old(self).order@,
            final(self).slot@ == old(self).slot@,
            final(self).counters@ == old(self).counters@,
            final(self).chains@ == old(self).chains@,
            final(self).has_edge(cur as int, m as int),
            forall|a: int, b: int|
                0 <= a < m && #[trigger] old(self).has_edge(a, b) ==> #[trigger] final(self).has_edge(a, b),
    {
        let m = self.nodes.len();
        let ghost p = self.prefix_of(cur as int).push(label);
        let node = CounterNode { class: None, children: Vec::new(), prefix: Ghost(p) };
        self.nodes.push(node);
        let class = self.nodes[cur].class;
        let mut children = slice_to_vec(self.nodes[cur].children.as_slice());
        let ghost old_children = children@;
        children.insert(pos, (label, m));
        let prefix = self.nodes[cur].prefix;
        let ghost mid = self.nodes@;
        self.nodes.set(cur, CounterNode { class, children, prefix });
        proof {
            assert(old(self).node_wf(cur as int));
            assert forall|n: int| 0 <= n < self.nodes@.len() implies #[trigger] self.node_wf(n) by {
                if n == cur as int {
                    let ch = self.nodes@[n].children@;
                    assert forall|e: int| 0 <= e < ch.len() implies {
                        let (lb, c) = #[trigger] ch[e];
                        &&& 0 < c < self.nodes@.len()
                        &&& self.prefix_of(c as int) == self.nodes@[n].prefix@.push(lb)
                    } by {
                        if e < pos {
                            assert(ch[e] == old_children[e]);
                        } else if e > pos {
                            assert(ch[e] == old_children[e - 1]);
                        }
                    }
                    assert forall|e: int, f: int| 0 <= e < f < ch.len() implies (#[trigger] ch[e]).0
                        < (#[trigger] ch[f]).0 by {
                        if e < pos {
                            assert(ch[e] == old_children[e]);
                        } else if e > pos {
                            assert(ch[e] == old_children[e - 1]);
                        }
                        if f < pos {
                            assert(ch[f] == old_children[f]);
                        } else if f > pos {
                            assert(ch[f] == old_children[f - 1]);
                        }
                    }
                } else if n < m {
                    assert(old(self).node_wf(n));
                    assert(self.nodes@[n] == old(self).nodes@[n]);
                    let ch = self.nodes@[n].children@;
                    assert forall|e: int| 0 <= e < ch.len() implies {
                        let (lb, c) = #[trigger] ch[e];
                        &&& 0 < c < self.nodes@.len()
                        &&& self.prefix_of(c as int) == self.nodes@[n].prefix@.push(lb)
                    } by {
                        let (lb, c) = ch[e];
                        assert(old(self).prefix_of(c as int) == self.prefix_of(c as int));
                    }
                }
            }
            assert(self.nodes@[cur as int].children@[pos as int].1 == m);
            assert(self.has_edge(cur as int, m as int));
            assert forall|n: int|
                0 <= n < self.nodes@.len() && (#[trigger] self.nodes@[n]).class is Some implies self.chains@.contains_key(
                    self.nodes@[n].class->0 as int,
                ) && self.chains@[self.nodes@[n].class->0 as int].last() == n by {
                if n < m && n != cur as int {
                    assert(self.nodes@[n] == old(self).nodes@[n]);
                }
            }
            assert(old(self).one_parent());
            assert forall|n1: int, e1: int, n2: int, e2: int|
                0 <= n1 < self.nodes@.len() && 0 <= n2 < self.nodes@.len() && 0 <= e1
                    < self.nodes@[n1].children@.len() && 0 <= e2 < self.nodes@[n2].children@.len()
                    && (#[trigger] self.nodes@[n1].children@[e1]).1 == (#[trigger] self.nodes@[n2].children@[e2]).1
                    implies n1 == n2 && e1 == e2 by {
                let ch = self.nodes@[cur as int].children@;
                // map a new edge back to the old one, if it is old
                let o1 = if n1 == cur as int { if e1 < pos { e1 } else { e1 - 1 } } else { e1 };
                let o2 = if n2 == cur as int { if e2 < pos { e2 } else { e2 - 1 } } else { e2 };
                let new1 = n1 == cur as int && e1 == pos as int;
                let new2 = n2 == cur as int && e2 == pos as int;
                if n1 != cur as int && n1 < m {
                    assert(self.nodes@[n1] == old(self).nodes@[n1]);
                }
                if n2 != cur as int && n2 < m {
                    assert(self.nodes@[n2] == old(self).nodes@[n2]);
                }
                if !new1 && n1 < m {
                    assert(self.nodes@[n1].children@[e1] == old(self).nodes@[n1].children@[o1]);
                    assert(old(self).node_wf(n1));
                }
                if !new2 && n2 < m {
                    assert(self.nodes@[n2].children@[e2] == old(self).nodes@[n2].children@[o2]);
                    assert(old(self).node_wf(n2));
                }
            }
            assert forall|a: int, b: int| 0 <= a < m && #[trigger] old(self).has_edge(a, b) implies #[trigger] self.has_edge(a, b) by {
                let e = choose|e: int| 0 <= e < old(self).nodes@[a].children@.len() && #[trigger] old(self).nodes@[a].children@[e].1 == b;
                if a == cur as int {
                    if e < pos {
                        assert(self.nodes@[a].children@[e] == old_children[e]);
                    } else {
                        assert(self.nodes@[a].children@[e + 1] == old_children[e]);
                    }
                } else {
                    assert(self.nodes@[a] == old(self).nodes@[a]);
                }
            }
            assert forall|k: int| #[trigger] self.chains@.contains_key(k) implies self.chain_ok(k, self.chains@[k]) by {
                let chain = self.chains@[k];
                assert(old(self).chain_ok(k, chain));
                assert forall|j: int| 0 <= j < chain.len() implies #[trigger] self.prefix_of(chain[j] as int) == self.prefix_of(
                    chain.last() as int).take(j) by {
                    assert(chain[j] < m);
                    assert(old(self).prefix_of(chain[j] as int) == self.prefix_of(chain[j] as int));
                }
                assert forall|j: int| 0 <= j < chain.len() - 1 implies #[trigger] self.has_edge(chain[j] as int, chain[j + 1] as int) by {
                    assert(old(self).has_edge(chain[j] as int, chain[j + 1] as int));
                    assert(chain[j] < m);
                }
            }
        }
        m
    }

    /// Inserts the counter of class `k` along the path of its counts in slot order, and
    /// names `k` at the node where its remaining counts are all zero; no class named so far
    /// has the same counter. Returns false, naming nothing, only if the trie cannot grow by
    /// the up to 26 nodes a path needs.
    pub fn insert(&mut self, counter: &Vec<usize>, k: usize) -> (r: bool)
        requires
            old(self).wf(),
            k < old(self).counters@.len(),
            old(self).counters@[k as int] == counter@,
            counter@.len() == ALPHA_SIZE,
            forall|x: int| #[trigger] old(self).chains@.contains_key(x) ==> old(self).counters@[x] != counter@,
        ensures
            final(self).wf(),
            final(self).order@ == old(self).order@,
            final(self).slot@ == old(self).slot@,
            final(self).counters@ == old(self).counters@,
            final(self).nodes@.len() <= old(self).nodes@.len() + 26,
            old(self).nodes@.len() + 26 <= usize::MAX ==> r,
            r ==> final(self).chains@.dom() == old(self).chains@.dom().insert(k as int),
            !r ==> final(self).chains@ == old(self).chains@,
    {
        let mut cur: usize = 0;
        let mut depth: usize = 0;
        let ghost mut walk: Seq<usize> = seq![0usize];
        while depth <= 26
            invariant
                self.wf(),
                self.order@ == old(self).order@,
                self.slot@ == old(self).slot@,
                self.counters@ == old(self).counters@,
                self.chains@ == old(self).chains@,
                self.nodes@.len() <= old(self).nodes@.len() + depth,
                depth <= 26,
                forall|x: int| #[trigger] self.chains@.contains_key(x) ==> self.counters@[x] != counter@,
                k < self.counters@.len(),
                self.counters@[k as int] == counter@,
                counter@.len() == ALPHA_SIZE,
                cur < self.nodes@.len(),
                depth == self.prefix_of(cur as int).len(),
                forall|j: int| 0 <= j < depth ==> #[trigger] self.prefix_of(cur as int)[j] == counter@[self.order@[j] as int],
                walk.len() == depth + 1,
                walk[0] == 0,
                walk.last() == cur,
                forall|j: int| 0 <= j < walk.len() ==> #[trigger] walk[j] < self.nodes@.len(),
                forall|j: int| 0 <= j < walk.len() ==> #[trigger] self.prefix_of(walk[j] as int) == self.prefix_of(cur as int).take(j),
                forall|j: int| 0 <= j < walk.len() - 1 ==> #[trigger] self.has_edge(walk[j] as int, walk[j + 1] as int),
            decreases 27 - depth,
        {
            proof {
                assert(self.node_wf(cur as int));
            }
            if self.rest_is_empty(counter, depth) {
                proof {
                    // a class named here would have this very counter, which no named class has
                    if self.nodes@[cur as int].class is Some {
                        let kk = self.nodes@[cur as int].class->0;
                        assert(self.node_wf(cur as int));
                        assert(self.chains@.contains_key(kk as int));
                        let c2 = self.counters@[kk as int];
                        let p = self.prefix_of(cur as int);
                        assert forall|l: int| 0 <= l < 26 implies #[trigger] c2[l] == counter@[l] by {
                            let jj = self.slot@[l] as int;
                            assert(self.order@[jj] == l);
                            if jj < p.len() {
                                assert(c2[self.order@[jj] as int] == p[jj]);
                                assert(counter@[self.order@[jj] as int] == p[jj]);
                            } else {
                                assert(c2[self.order@[jj] as int] == 0);
                                assert(counter@[self.order@[jj] as int] == 0);
                            }
                        }
                        assert(c2 =~= counter@);
                    }
                    assert(self.nodes@[cur as int].class is None);
                }
                let children = slice_to_vec(self.nodes[cur].children.as_slice());
                let prefix = self.nodes[cur].prefix;
                let ghost before = *self;
                self.nodes.set(cur, CounterNode { class: Some(k), children, prefix });
                self.chains = Ghost(self.chains@.insert(k as int, walk));
                proof {
                    assert(self.chains@.dom() =~= old(self).chains@.dom().insert(k as int));
                    assert forall|n: int|
                        0 <= n < self.nodes@.len() && (#[trigger] self.nodes@[n]).class is Some implies self.chains@.contains_key(
                            self.nodes@[n].class->0 as int,
                        ) by {
                        if n != cur as int {
                            assert(self.nodes@[n] == before.nodes@[n]);
                        }
                    }
                    assert forall|n: int| 0 <= n < self.nodes@.len() implies #[trigger] self.node_wf(n) by {
                        assert(before.node_wf(n));
                        let ch = self.nodes@[n].children@;
                        assert(ch == before.nodes@[n].children@);
                        assert forall|e: int| 0 <= e < ch.len() implies {
                            let (lb, c) = #[trigger] ch[e];
                            &&& 0 < c < self.nodes@.len()
                            &&& self.prefix_of(c as int) == self.nodes@[n].prefix@.push(lb)
                        } by {
                            let (lb, c) = ch[e];
                            assert(before.prefix_of(c as int) == self.prefix_of(c as int));
                        }
                    }
                    assert forall|a: int, b: int| 0 <= a < self.nodes@.len() && #[trigger] before.has_edge(a, b) implies #[trigger] self.has_edge(a, b) by {
                        let e = choose|e: int| 0 <= e < before.nodes@[a].children@.len() && #[trigger] before.nodes@[a].children@[e].1 == b;
                        assert(self.nodes@[a].children@ == before.nodes@[a].children@);
                        assert(self.nodes@[a].children@[e].1 == b);
                    }
                    assert forall|x: int| #[trigger] self.chains@.contains_key(x) implies self.chain_ok(x, self.chains@[x]) by {
                        let chain = self.chains@[x];
                        if x != k as int {
                            assert(before.chain_ok(x, chain));
                            assert forall|j: int| 0 <= j < chain.len() implies #[trigger] self.prefix_of(chain[j] as int) == self.prefix_of(
                                chain.last() as int).take(j) by {
                                assert(before.prefix_of(chain[j] as int) == self.prefix_of(chain[j] as int));
                            }
                            assert forall|j: int| 0 <= j < chain.len() - 1 implies #[trigger] self.has_edge(chain[j] as int, chain[j + 1] as int) by {
                                assert(before.has_edge(chain[j] as int, chain[j + 1] as int));
                            }
                            assert(chain.last() != cur);
                        } else {
                            assert(chain == walk);
                            assert forall|j: int| 0 <= j < chain.len() implies #[trigger] self.prefix_of(chain[j] as int) == self.prefix_of(
                                chain.last() as int).take(j) by {
                                assert(before.prefix_of(chain[j] as int) == self.prefix_of(chain[j] as int));
                            }
                            assert forall|j: int| 0 <= j < chain.len() - 1 implies #[trigger] self.has_edge(chain[j] as int, chain[j + 1] as int) by {
                                assert(before.has_edge(chain[j] as int, chain[j + 1] as int));
                            }
                        }
                    }
                }
                return true;
            }
            let label = counter[self.order[depth]];
            let mut pos: usize = 0;
            let count = self.nodes[cur].children.len();
            while pos < count && self.nodes[cur].children[pos].0 < label
                invariant
                    self.wf(),
                    cur < self.nodes@.len(),
                    count == self.nodes@[cur as int].children@.len(),
                    pos <= count,
                    forall|e: int| 0 <= e < pos ==> (#[trigger] self.nodes@[cur as int].children@[e]).0 < label,
                decreases count - pos,
            {
                pos += 1;
            }
            proof {
                assert(self.node_wf(cur as int));
            }
            let ghost old_prefix = self.prefix_of(cur as int);
            if pos < count && self.nodes[cur].children[pos].0 == label {
                let next = self.nodes[cur].children[pos].1;
                proof {
                    assert(self.prefix_of(next as int) == old_prefix.push(label));
                    assert(self.nodes@[cur as int].children@[pos as int].1 == next);
                    assert(self.has_edge(cur as int, next as int));
                }
                cur = next;
            } else {
                if self.nodes.len() == usize::MAX {
                    return false;
                }
                let ghost before = *self;
                let m = self.add_child(cur, pos, label);
                proof {
                    assert(self.prefix_of(m as int) == old_prefix.push(label));
                    assert forall|j: int| 0 <= j < walk.len() - 1 implies #[trigger] self.has_edge(walk[j] as int, walk[j + 1] as int) by {
                        assert(before.has_edge(walk[j] as int, walk[j + 1] as int));
                    }
                    assert forall|j: int| 0 <= j < walk.len() implies #[trigger] self.prefix_of(walk[j] as int) == old_prefix.take(j) by {
                        assert(before.prefix_of(walk[j] as int) == self.prefix_of(walk[j] as int));
                    }
                }
                cur = m;
            }
            proof {
                let np = self.prefix_of(cur as int);
                assert(np == old_prefix.push(label));
                walk = walk.push(cur);
                assert forall|j: int| 0 <= j < walk.len() implies #[trigger] self.prefix_of(walk[j] as int) == np.take(j) by {
                    if j < walk.len() - 1 {
                        assert(np.take(j) =~= old_prefix.take(j));
                    } else {
                        assert(np.take(j) =~= np);
                    }
                }
            }
            depth += 1;
        }
        false
    }
}

} // verus!
