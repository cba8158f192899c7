use vstd::prelude::*;

use crate::level::{random_level, MAX_LEVEL};
use crate::ordered::{
    insert_step, lemma_insert_contains, lemma_insert_sorted, lemma_split, strictly_increasing,
};

verus! {

broadcast use vstd::array::group_array_axioms;

/// One record of the arena. `next[i]` is the index of the following node at
/// level `i`, for `i <= level`; the slots above `level` stay empty.
#[derive(Clone, Copy)]
struct Node {
    value: i32,
    level: usize,
    next: [Option<usize>; MAX_LEVEL],
}

impl Node {
    /// A node holding `value` with top level `level`, linked to nothing.
    fn new(value: i32, level: usize) -> (r: Node)
        ensures
            r.value == value,
            r.level == level,
            forall|i: int| 0 <= i < MAX_LEVEL ==> #[trigger] r.next@[i] is None,
    {
        Node { value, level, next: [None; MAX_LEVEL] }
    }
}

/// An ordered set of `i32` kept as a skip list.
///
/// Nodes live in an arena and refer to each other by index. Index 0 is the
/// sentinel head, linked at every level. `lanes[i]` lists, in order, the
/// indices of the real nodes that the chain of level `i` visits from the head.
pub struct SkipList {
    nodes: Vec<Node>,
    level: usize,
    lanes: Ghost<Seq<Seq<usize>>>,
}

/// The node at position `p` of a lane, where position -1 stands for the head.
spec fn node_at(lane: Seq<usize>, p: int) -> usize {
    if p < 0 { 0 } else { lane[p] }
}

/// What the node at position `p` of a lane links to at that level.
spec fn lane_succ(lane: Seq<usize>, p: int) -> Option<usize> {
    if p + 1 < lane.len() { Some(lane[p + 1]) } else { None }
}

impl SkipList {
    spec fn value_of(&self, k: int) -> i32 {
        self.nodes@[k].value
    }

    spec fn link(&self, k: int, i: int) -> Option<usize> {
        self.nodes@[k].next@[i]
    }

    spec fn lane(&self, i: int) -> Seq<usize> {
        self.lanes@[i]
    }

    /// The chain of level `i` is the one that `lanes[i]` lists: linked in
    /// that order, through nodes that reach level `i`, with ascending values.
    spec fn lane_linked(&self, i: int) -> bool {
        let lane = self.lane(i);
        &&& self.link(0, i) == lane_succ(lane, -1)
        &&& forall|p: int|
            #![trigger lane[p]]
            0 <= p < lane.len() ==> 1 <= lane[p] < self.nodes.len() && self.nodes@[lane[p] as int].level
                >= i && self.link(lane[p] as int, i) == lane_succ(lane, p)
        &&& forall|p: int, q: int|
            0 <= p < q < lane.len() ==> self.value_of(lane[p] as int) < self.value_of(
                lane[q] as int,
            )
    }

    /// Every real node that reaches level `i` is on the chain of level `i`.
    spec fn lane_complete(&self, i: int) -> bool {
        forall|k: usize|
            1 <= k < self.nodes.len() && self.nodes@[k as int].level >= i ==> #[trigger] self.lane(
                i,
            ).contains(k)
    }

    /// The structure's invariant: the head stands at index 0 and reaches every
    /// level; each node's top level is below `MAX_LEVEL`, with empty slots
    /// above it; on each level the chain from the head is the listed lane,
    /// ascending, and holds every node that reaches that level; and no lane
    /// above `level` holds a node.
    pub closed spec fn wf(&self) -> bool {
        &&& self.nodes.len() >= 1
        &&& self.level < MAX_LEVEL
        &&& self.nodes@[0].level == MAX_LEVEL - 1
        &&& self.lanes@.len() == MAX_LEVEL
        &&& forall|k: int| 0 <= k < self.nodes.len() ==> #[trigger] self.nodes@[k].level < MAX_LEVEL
        &&& forall|k: int, i: int|
            0 <= k < self.nodes.len() && self.nodes@[k].level < i < MAX_LEVEL ==> #[trigger] self.link(
                k,
                i,
            ) is None
        &&& forall|i: int| 0 <= i < MAX_LEVEL ==> #[trigger] self.lane_linked(i)
        &&& forall|i: int| 0 <= i < MAX_LEVEL ==> #[trigger] self.lane_complete(i)
        &&& forall|i: int| self.level < i < MAX_LEVEL ==> #[trigger] self.lane(i).len() == 0
    }

    /// The values met along the chain of level `i`, in order.
    pub closed spec fn lane_values(&self, i: int) -> Seq<i32> {
        self.lane(i).map_values(|k: usize| self.nodes@[k as int].value)
    }

    /// The highest level at which a real node may stand.
    pub closed spec fn top_level(&self) -> nat {
        self.level as nat
    }

    /// Inserting `v` into `before` gave `after`, with `top` the level drawn
    /// for `v`: if `v` was absent it is now on the chains of the levels
    /// `0..=top` and no others, and the list's level grew to `top` if it was
    /// lower; every other value is on the chains where it was; and every
    /// chain ascends. Membership and order together fix each chain.
    pub open spec fn insert_levels(before: &SkipList, after: &SkipList, v: i32, top: int) -> bool {
        &&& after.top_level() == if before@.contains(v) || top <= before.top_level() {
            before.top_level()
        } else {
            top as nat
        }
        &&& forall|i: int| 0 <= i < MAX_LEVEL ==> #[trigger] strictly_increasing(after.lane_values(i))
        &&& forall|i: int, x: i32|
            0 <= i < MAX_LEVEL ==> (#[trigger] after.lane_values(i).contains(x) <==> (
            before.lane_values(i).contains(x) || (x == v && !before@.contains(v) && i <= top)))
    }
}

impl View for SkipList {
    type V = Seq<i32>;

    /// The elements of the set, in the order of the level-0 chain.
    closed spec fn view(&self) -> Seq<i32> {
        self.lane_values(0)
    }
}

impl SkipList {
    /// An empty set: only the head, linked to nothing, at level 0.
    pub fn new() -> (r: SkipList)
        ensures
            r.wf(),
            r@ == Seq::<i32>::empty(),
            r.top_level() == 0,
            forall|i: int| 0 <= i < MAX_LEVEL ==> #[trigger] r.lane_values(i) == Seq::<i32>::empty(),
    {
        let head = Node::new(-1, MAX_LEVEL - 1);
        let mut nodes: Vec<Node> = Vec::new();
        nodes.push(head);
        let r = SkipList {
            nodes,
            level: 0,
            lanes: Ghost(Seq::new(MAX_LEVEL as nat, |i: int| Seq::<usize>::empty())),
        };
        assert forall|i: int| 0 <= i < MAX_LEVEL implies #[trigger] r.lane_values(i) == Seq::<
            i32,
        >::empty() by {
            assert(r.lane_values(i) =~= Seq::<i32>::empty());
        }
        r
    }

    proof fn lemma_sorted(&self, i: int)
        requires
            self.wf(),
            0 <= i < MAX_LEVEL,
        ensures
            strictly_increasing(self.lane_values(i)),
            self.lane_values(i).len() == self.lane(i).len(),
            forall|p: int|
                0 <= p < self.lane(i).len() ==> #[trigger] self.lane_values(i)[p] == self.value_of(
                    self.lane(i)[p] as int,
                ),
    {
        assert(self.lane_linked(i));
    }

    /// Moves right along level `i` from the node at position `p` while the
    /// next node holds a value below `v`; returns the node it stops at.
    fn walk(&self, v: i32, i: usize, start: usize, Ghost(p): Ghost<int>) -> (r: (
        usize,
        Ghost<int>,
    ))
        requires
            self.wf(),
            i < MAX_LEVEL,
            -1 <= p < self.lane(i as int).len(),
            start == node_at(self.lane(i as int), p),
            p >= 0 ==> self.value_of(start as int) < v,
        ensures
            -1 <= r.1@ < self.lane(i as int).len(),
            r.0 == node_at(self.lane(i as int), r.1@),
            r.1@ >= 0 ==> self.value_of(r.0 as int) < v,
            r.1@ + 1 < self.lane(i as int).len() ==> self.value_of(
                self.lane(i as int)[r.1@ + 1] as int,
            ) >= v,
    {
        let ghost lane = self.lane(i as int);
        proof {
            assert(self.lane_linked(i as int));
        }
        let mut cur = start;
        let ghost mut q = p;
        loop
            invariant
                self.wf(),
                i < MAX_LEVEL,
                lane == self.lane(i as int),
                self.lane_linked(i as int),
                -1 <= q < lane.len(),
                cur == node_at(lane, q),
                q >= 0 ==> self.value_of(cur as int) < v,
            ensures
                -1 <= q < lane.len(),
                cur == node_at(lane, q),
                q >= 0 ==> self.value_of(cur as int) < v,
                q + 1 < lane.len() ==> self.value_of(lane[q + 1] as int) >= v,
            decreases lane.len() - q,
        {
            proof {
                if q >= 0 {
                    assert(1 <= lane[q] < self.nodes.len());
                }
            }
            let nd = self.nodes[cur];
            assert(nd.next@.len() == MAX_LEVEL);
            match nd.next[i] {
                Some(nx) => {
                    proof {
                        assert(nd.next@[i as int] == lane_succ(lane, q));
                        assert(1 <= lane[q + 1] < self.nodes.len());
                    }
                    if self.nodes[nx].value < v {
                        cur = nx;
                        proof {
                            q = q + 1;
                        }
                    } else {
                        break ;
                    }
                },
                None => {
                    proof {
                        assert(nd.next@[i as int] == lane_succ(lane, q));
                    }
                    break ;
                },
            }
        }
        (cur, Ghost(q))
    }

    /// `update[j]` is the node after which `v` belongs on level `j`, at
    /// position `ps[j]` of that level's chain.
    spec fn preds_ok(&self, v: i32, update: [usize; MAX_LEVEL], ps: Seq<int>) -> bool {
        &&& ps.len() == MAX_LEVEL
        &&& forall|j: int|
            0 <= j < MAX_LEVEL ==> {
                let lane = self.lane(j);
                let p = #[trigger] ps[j];
                &&& -1 <= p < lane.len()
                &&& update@[j] == node_at(lane, p)
                &&& p >= 0 ==> self.value_of(lane[p] as int) < v
                &&& p + 1 < lane.len() ==> self.value_of(lane[p + 1] as int) >= v
            }
    }

    /// Finds, for every level, the last node whose value is below `v`.
    fn find_preds(&self, v: i32) -> (r: ([usize; MAX_LEVEL], Ghost<Seq<int>>))
        requires
            self.wf(),
        ensures
            self.preds_ok(v, r.0, r.1@),
    {
        let mut update: [usize; MAX_LEVEL] = [0; MAX_LEVEL];
        let ghost mut ps: Seq<int> = Seq::new(MAX_LEVEL as nat, |j: int| -1);
        let mut i: usize = self.level;
        let mut cur: usize = 0;
        let ghost mut p: int = -1;
        loop
            invariant
                self.wf(),
                i <= self.level,
                -1 <= p < self.lane(i as int).len(),
                cur == node_at(self.lane(i as int), p),
                p >= 0 ==> self.value_of(cur as int) < v,
                ps.len() == MAX_LEVEL,
                forall|j: int|
                    i < j < MAX_LEVEL ==> {
                        let lane = self.lane(j);
                        let pj = #[trigger] ps[j];
                        &&& -1 <= pj < lane.len()
                        &&& update@[j] == node_at(lane, pj)
                        &&& pj >= 0 ==> self.value_of(lane[pj] as int) < v
                        &&& pj + 1 < lane.len() ==> self.value_of(lane[pj + 1] as int) >= v
                    },
            ensures
                self.preds_ok(v, update, ps),
            decreases i,
        {
            let (c, Ghost(q)) = self.walk(v, i, cur, Ghost(p));
            cur = c;
            update[i] = cur;
            proof {
                p = q;
                ps = ps.update(i as int, q);
            }
            if i == 0 {
                break ;
            }
            proof {
                assert(self.lane_linked(i as int));
                assert(self.lane_complete(i - 1));
                if p >= 0 {
                    let lb = self.lane(i - 1);
                    assert(cur == self.lane(i as int)[p]);
                    assert(1 <= cur < self.nodes.len() && self.nodes@[cur as int].level >= i);
                    assert(self.lane(i - 1).contains(cur));
                    p = choose|t: int| 0 <= t < lb.len() && lb[t] == cur;
                }
            }
            i = i - 1;
        }
        (update, Ghost(ps))
    }

    /// How the arena looks once a node for `v` at index `old.nodes.len()`
    /// has been linked in after `update[j]` on each level `j <= lvl`.
    spec fn spliced(
        old: &SkipList,
        new: &SkipList,
        v: i32,
        lvl: usize,
        update: [usize; MAX_LEVEL],
    ) -> bool {
        let n = old.nodes.len() as int;
        &&& new.nodes.len() == n + 1
        &&& new.nodes@[n].value == v
        &&& new.nodes@[n].level == lvl
        &&& forall|k: int|
            #![trigger new.nodes@[k]]
            0 <= k < n ==> new.nodes@[k].value == old.nodes@[k].value && new.nodes@[k].level
                == old.nodes@[k].level
        &&& forall|k: int, j: int|
            0 <= k < n && 0 <= j < MAX_LEVEL ==> #[trigger] new.link(k, j) == if j <= lvl
                && k == update@[j] {
                Some(n as usize)
            } else {
                old.link(k, j)
            }
        &&& forall|j: int|
            0 <= j < MAX_LEVEL ==> #[trigger] new.link(n, j) == if j <= lvl {
                old.link(update@[j] as int, j)
            } else {
                None
            }
    }

    /// Links the node for `v` into every level up to `lvl`, after the
    /// predecessors found on each level.
    proof fn lemma_splice_wf(
        old: &SkipList,
        new: &SkipList,
        v: i32,
        lvl: usize,
        update: [usize; MAX_LEVEL],
        ps: Seq<int>,
    )
        requires
            SkipList::splice_setup(old, new, v, lvl, update, ps),
            new.level == if lvl > old.level { lvl } else { old.level },
        ensures
            new.wf(),
    {
        let n = old.nodes.len() as int;
        assert forall|k: int| 0 <= k < new.nodes.len() implies #[trigger] new.nodes@[k].level
            < MAX_LEVEL by {
            if k < n {
                assert(new.nodes@[k].level == old.nodes@[k].level);
            }
        }
        assert forall|j: int| 0 <= j < MAX_LEVEL implies #[trigger] update@[j] < n && (
        update@[j] == 0 || old.nodes@[update@[j] as int].level >= j) by {
            assert(old.lane_linked(j));
            let p = ps[j];
            if p >= 0 {
                assert(update@[j] == old.lane(j)[p]);
            }
        }
        assert forall|k: int, j: int|
            0 <= k < new.nodes.len() && new.nodes@[k].level < j < MAX_LEVEL implies #[trigger] new.link(
            k,
            j,
        ) is None by {
            if k < n {
                assert(new.nodes@[k].level == old.nodes@[k].level);
                assert(old.link(k, j) is None);
                assert(old.nodes@[0].level == MAX_LEVEL - 1);
            }
        }
        assert forall|j: int|
            #![trigger new.lane_linked(j)]
            #![trigger new.lane_complete(j)]
            0 <= j < MAX_LEVEL implies new.lane_linked(j) && new.lane_complete(j) by {
            if j > lvl {
                SkipList::lemma_splice_above(old, new, v, lvl, update, ps, j);
            } else {
                SkipList::lemma_splice_links(old, new, v, lvl, update, ps, j);
                SkipList::lemma_splice_order(old, new, v, lvl, update, ps, j);
                SkipList::lemma_splice_complete(old, new, v, lvl, update, ps, j);
            }
        }
        assert forall|j: int| new.level < j < MAX_LEVEL implies #[trigger] new.lane(j).len() == 0 by {
        }
        assert(new.nodes@[0].level == old.nodes@[0].level);
    }

    /// Each level up to `lvl` gains `v` just after its predecessor; the
    /// levels above keep their values.
    proof fn lemma_splice_values(
        old: &SkipList,
        new: &SkipList,
        v: i32,
        lvl: usize,
        update: [usize; MAX_LEVEL],
        ps: Seq<int>,
        i: int,
    )
        requires
            SkipList::splice_setup(old, new, v, lvl, update, ps),
            0 <= i < MAX_LEVEL,
        ensures
            new.lane_values(i) == if i <= lvl {
                old.lane_values(i).insert(ps[i] + 1, v)
            } else {
                old.lane_values(i)
            },
    {
        let n = old.nodes.len() as int;
        assert(old.lane_linked(i));
        let l = old.lane(i);
        let p = ps[i];
        if i <= lvl {
            let target = old.lane_values(i).insert(p + 1, v);
            assert(new.lane_values(i) =~= target) by {
                assert forall|q: int| 0 <= q < new.lane_values(i).len() implies new.lane_values(
                    i,
                )[q] == target[q] by {
                    if q < p + 1 {
                        assert(new.lane(i)[q] == l[q]);
                        assert(1 <= l[q] < n);
                    } else if q > p + 1 {
                        assert(new.lane(i)[q] == l[q - 1]);
                        assert(1 <= l[q - 1] < n);
                    }
                }
            }
        } else {
            assert(new.lane_values(i) =~= old.lane_values(i)) by {
                assert forall|q: int| 0 <= q < new.lane_values(i).len() implies new.lane_values(
                    i,
                )[q] == old.lane_values(i)[q] by {
                    assert(1 <= l[q] < n);
                }
            }
        }
    }

    /// Where each value stands after `v` was linked in up to level `lvl`.
    proof fn lemma_splice_membership(
        old: &SkipList,
        new: &SkipList,
        v: i32,
        lvl: usize,
        update: [usize; MAX_LEVEL],
        ps: Seq<int>,
    )
        requires
            SkipList::splice_setup(old, new, v, lvl, update, ps),
        ensures
            new@ == old@.insert(ps[0] + 1, v),
            forall|i: int, x: i32|
                0 <= i < MAX_LEVEL ==> (#[trigger] new.lane_values(i).contains(x) <==> (
                old.lane_values(i).contains(x) || (x == v && i <= lvl))),
    {
        SkipList::lemma_splice_values(old, new, v, lvl, update, ps, 0);
        assert forall|i: int, x: i32|
            0 <= i < MAX_LEVEL implies (#[trigger] new.lane_values(i).contains(x) <==> (
        old.lane_values(i).contains(x) || (x == v && i <= lvl))) by {
            SkipList::lemma_splice_values(old, new, v, lvl, update, ps, i);
            if i <= lvl {
                assert(-1 <= ps[i] < old.lane(i).len());
                lemma_insert_contains(old.lane_values(i), ps[i] + 1, v);
            }
        }
    }

    /// What the splice lemmas assume: a valid list without `v`, the
    /// predecessors of `v`, and the arena and lanes after linking `v` in.
    spec fn splice_setup(
        old: &SkipList,
        new: &SkipList,
        v: i32,
        lvl: usize,
        update: [usize; MAX_LEVEL],
        ps: Seq<int>,
    ) -> bool {
        &&& old.wf()
        &&& !old@.contains(v)
        &&& lvl < MAX_LEVEL
        &&& old.preds_ok(v, update, ps)
        &&& SkipList::spliced(old, new, v, lvl, update)
        &&& new.lanes@ == Seq::new(
            MAX_LEVEL as nat,
            |j: int|
                if j <= lvl {
                    old.lane(j).insert(ps[j] + 1, old.nodes.len())
                } else {
                    old.lane(j)
                },
        )
    }

    /// The values met on any level are elements of the set, hence not `v`.
    proof fn lemma_lane_values_in_set(old: &SkipList, v: i32, j: int)
        requires
            old.wf(),
            !old@.contains(v),
            0 <= j < MAX_LEVEL,
        ensures
            forall|q: int|
                0 <= q < old.lane(j).len() ==> #[trigger] old.value_of(old.lane(j)[q] as int) != v,
    {
        let lane = old.lane(j);
        assert(old.lane_linked(j));
        assert(old.lane_complete(0));
        assert forall|q: int| 0 <= q < lane.len() implies #[trigger] old.value_of(lane[q] as int)
            != v by {
            let k = lane[q];
            assert(old.lane(0).contains(k));
            let t = choose|t: int| 0 <= t < old.lane(0).len() && old.lane(0)[t] == k;
            assert(old@[t] == old.value_of(k as int));
        }
    }

    /// A level above the new node's top level keeps its chain.
    proof fn lemma_splice_above(
        old: &SkipList,
        new: &SkipList,
        v: i32,
        lvl: usize,
        update: [usize; MAX_LEVEL],
        ps: Seq<int>,
        j: int,
    )
        requires
            SkipList::splice_setup(old, new, v, lvl, update, ps),
            lvl < j < MAX_LEVEL,
        ensures
            new.lane_linked(j),
            new.lane_complete(j),
    {
        let n = old.nodes.len() as int;
        let lane = old.lane(j);
        let nl = new.lane(j);
        assert(old.lane_linked(j));
        assert(old.lane_complete(j));
        assert(nl == lane);
        assert forall|q: int| 0 <= q < nl.len() implies 1 <= #[trigger] nl[q] < new.nodes.len()
            && new.nodes@[nl[q] as int].level >= j && new.link(nl[q] as int, j) == lane_succ(
            nl,
            q,
        ) by {
            assert(new.link(lane[q] as int, j) == old.link(lane[q] as int, j));
        }
        assert(new.link(0, j) == old.link(0, j));
        assert forall|k: usize|
            1 <= k < new.nodes.len() && new.nodes@[k as int].level >= j implies #[trigger] nl.contains(
            k,
        ) by {
            assert(k < n);
        }
    }

    /// On a level up to the new node's top level, the chain is the old one
    /// with the new node after the predecessor.
    proof fn lemma_splice_links(
        old: &SkipList,
        new: &SkipList,
        v: i32,
        lvl: usize,
        update: [usize; MAX_LEVEL],
        ps: Seq<int>,
        j: int,
    )
        requires
            SkipList::splice_setup(old, new, v, lvl, update, ps),
            0 <= j <= lvl,
        ensures
            new.link(0, j) == lane_succ(new.lane(j), -1),
            forall|q: int|
                #![trigger new.lane(j)[q]]
                0 <= q < new.lane(j).len() ==> 1 <= new.lane(j)[q] < new.nodes.len()
                    && new.nodes@[new.lane(j)[q] as int].level >= j && new.link(
                    new.lane(j)[q] as int,
                    j,
                ) == lane_succ(new.lane(j), q),
    {
        let n = old.nodes.len() as int;
        let lane = old.lane(j);
        let nl = new.lane(j);
        let p = ps[j];
        assert(old.lane_linked(j));
        assert(nl == lane.insert(p + 1, n as usize));
        if p >= 0 {
            assert(update@[j] == lane[p]);
        } else {
            assert(update@[j] == 0);
        }
        assert(new.link(0, j) == lane_succ(nl, -1)) by {
            if p >= 0 {
                assert(lane[p] != 0);
                assert(new.link(0, j) == old.link(0, j));
            }
        }
        assert forall|q: int| 0 <= q < nl.len() implies 1 <= #[trigger] nl[q] < new.nodes.len()
            && new.nodes@[nl[q] as int].level >= j && new.link(nl[q] as int, j) == lane_succ(
            nl,
            q,
        ) by {
            if q < p {
                assert(nl[q] == lane[q]);
                assert(lane[q] != lane[p]);
                assert(nl[q + 1] == lane[q + 1]);
            } else if q == p {
                assert(nl[q] == lane[q]);
            } else if q == p + 1 {
                assert(nl[q] == n);
                if q + 1 < nl.len() {
                    assert(nl[q + 1] == lane[q]);
                }
            } else {
                assert(nl[q] == lane[q - 1]);
                if p >= 0 {
                    assert(lane[q - 1] != lane[p]);
                }
                assert(lane[q - 1] != 0);
                if q + 1 < nl.len() {
                    assert(nl[q + 1] == lane[q]);
                }
            }
        }
    }

    /// On a level up to the new node's top level, values still ascend.
    proof fn lemma_splice_order(
        old: &SkipList,
        new: &SkipList,
        v: i32,
        lvl: usize,
        update: [usize; MAX_LEVEL],
        ps: Seq<int>,
        j: int,
    )
        requires
            SkipList::splice_setup(old, new, v, lvl, update, ps),
            0 <= j <= lvl,
        ensures
            forall|a: int, b: int|
                0 <= a < b < new.lane(j).len() ==> new.value_of(new.lane(j)[a] as int)
                    < new.value_of(new.lane(j)[b] as int),
    {
        let n = old.nodes.len() as int;
        let lane = old.lane(j);
        let nl = new.lane(j);
        let p = ps[j];
        assert(old.lane_linked(j));
        SkipList::lemma_lane_values_in_set(old, v, j);
        assert(nl == lane.insert(p + 1, n as usize));
        assert forall|a: int, b: int| 0 <= a < b < nl.len() implies new.value_of(nl[a] as int)
            < new.value_of(nl[b] as int) by {
            let va = if a <= p {
                old.value_of(lane[a] as int)
            } else if a == p + 1 {
                v
            } else {
                old.value_of(lane[a - 1] as int)
            };
            let vb = if b <= p {
                old.value_of(lane[b] as int)
            } else if b == p + 1 {
                v
            } else {
                old.value_of(lane[b - 1] as int)
            };
            if a <= p {
                assert(nl[a] == lane[a]);
            } else if a > p + 1 {
                assert(nl[a] == lane[a - 1]);
            }
            if b <= p {
                assert(nl[b] == lane[b]);
            } else if b > p + 1 {
                assert(nl[b] == lane[b - 1]);
            }
            assert(new.value_of(nl[a] as int) == va);
            assert(new.value_of(nl[b] as int) == vb);
            if a <= p && b > p + 1 {
                assert(old.value_of(lane[a] as int) <= old.value_of(lane[p] as int));
                assert(old.value_of(lane[p + 1] as int) <= old.value_of(lane[b - 1] as int));
            } else if a == p + 1 && b > p + 1 {
                assert(old.value_of(lane[p + 1] as int) <= old.value_of(lane[b - 1] as int));
            } else if a <= p && b == p + 1 {
                assert(old.value_of(lane[a] as int) <= old.value_of(lane[p] as int));
            }
        }
    }

    /// On a level up to the new node's top level, every node that reaches
    /// the level is on its chain.
    proof fn lemma_splice_complete(
        old: &SkipList,
        new: &SkipList,
        v: i32,
        lvl: usize,
        update: [usize; MAX_LEVEL],
        ps: Seq<int>,
        j: int,
    )
        requires
            SkipList::splice_setup(old, new, v, lvl, update, ps),
            0 <= j <= lvl,
        ensures
            new.lane_complete(j),
    {
        let n = old.nodes.len() as int;
        let lane = old.lane(j);
        let nl = new.lane(j);
        let p = ps[j];
        assert(old.lane_complete(j));
        assert(nl == lane.insert(p + 1, n as usize));
        assert forall|k: usize|
            1 <= k < new.nodes.len() && new.nodes@[k as int].level >= j implies #[trigger] nl.contains(
            k,
        ) by {
            if k == n {
                assert(nl[p + 1] == k);
            } else {
                assert(lane.contains(k));
                let t = choose|t: int| 0 <= t < lane.len() && lane[t] == k;
                if t <= p {
                    assert(nl[t] == k);
                } else {
                    assert(nl[t + 1] == k);
                }
            }
        }
    }


    /// Links a new node holding `v`, with top level `lvl`, after `update[j]`
    /// on each level `j <= lvl`; raises the list's level to `lvl` if needed.
    fn link_new(&mut self, v: i32, lvl: usize, update: [usize; MAX_LEVEL], Ghost(ps): Ghost<Seq<int>>)
        requires
            old(self).wf(),
            !old(self)@.contains(v),
            lvl < MAX_LEVEL,
            old(self).preds_ok(v, update, ps),
        ensures
            final(self).wf(),
            final(self)@ == old(self)@.insert(ps[0] + 1, v),
            final(self).level == if lvl > old(self).level { lvl } else { old(self).level },
            forall|i: int, x: i32|
                0 <= i < MAX_LEVEL ==> (#[trigger] final(self).lane_values(i).contains(x) <==> (
                old(self).lane_values(i).contains(x) || (x == v && i <= lvl))),
    {
        let ghost s0 = *self;
        let n = self.nodes.len();
        proof {
            assert forall|j: int| 0 <= j < MAX_LEVEL implies #[trigger] update@[j] < n by {
                assert(s0.lane_linked(j));
                if ps[j] >= 0 {
                    assert(update@[j] == s0.lane(j)[ps[j]]);
                }
            }
        }
        self.nodes.push(Node::new(v, lvl));
        if lvl > self.level {
            self.level = lvl;
        }
        self.lanes = Ghost(
            Seq::new(
                MAX_LEVEL as nat,
                |j: int|
                    if j <= lvl {
                        s0.lane(j).insert(ps[j] + 1, n)
                    } else {
                        s0.lane(j)
                    },
            ),
        );
        let ghost lanes = self.lanes@;
        let ghost top = self.level;
        let mut i: usize = 0;
        while i <= lvl
            invariant
                lvl < MAX_LEVEL,
                i <= lvl + 1,
                n == s0.nodes.len(),
                self.nodes.len() == n + 1,
                self.level == top,
                self.lanes@ == lanes,
                self.nodes@[n as int].value == v,
                self.nodes@[n as int].level == lvl,
                forall|j: int| 0 <= j < MAX_LEVEL ==> #[trigger] update@[j] < n,
                forall|k: int|
                    #![trigger self.nodes@[k]]
                    0 <= k < n ==> self.nodes@[k].value == s0.nodes@[k].value
                        && self.nodes@[k].level == s0.nodes@[k].level,
                forall|k: int, j: int|
                    0 <= k < n && 0 <= j < MAX_LEVEL ==> #[trigger] self.link(k, j) == if j < i
                        && k == update@[j] {
                        Some(n)
                    } else {
                        s0.link(k, j)
                    },
                forall|j: int|
                    0 <= j < MAX_LEVEL ==> #[trigger] self.link(n as int, j) == if j < i {
                        s0.link(update@[j] as int, j)
                    } else {
                        None
                    },
            decreases lvl + 1 - i,
        {
            let ghost prev = *self;
            let ghost before = self.nodes@;
            let u = update[i];
            let mut pred = self.nodes[u];
            let mut fresh = self.nodes[n];
            fresh.next[i] = pred.next[i];
            pred.next[i] = Some(n);
            self.nodes.set(u, pred);
            self.nodes.set(n, fresh);
            proof {
                assert(self.nodes@ == before.update(u as int, pred).update(n as int, fresh));
                assert(pred.next@ == before[u as int].next@.update(i as int, Some(n)));
                assert(fresh.next@ == before[n as int].next@.update(
                    i as int,
                    before[u as int].next@[i as int],
                ));
                assert forall|k: int, j: int| 0 <= k < n && 0 <= j < MAX_LEVEL implies #[trigger] self.link(
                    k,
                    j,
                ) == if j < i + 1 && k == update@[j] {
                    Some(n)
                } else {
                    s0.link(k, j)
                } by {
                    assert(prev.link(k, j) == if j < i && k == update@[j] {
                        Some(n)
                    } else {
                        s0.link(k, j)
                    });
                    if k != u {
                        assert(self.nodes@[k] == before[k]);
                    }
                }
                assert forall|j: int| 0 <= j < MAX_LEVEL implies #[trigger] self.link(n as int, j)
                    == if j < i + 1 {
                    s0.link(update@[j] as int, j)
                } else {
                    None
                } by {
                    if j < i {
                        assert(prev.link(n as int, j) == s0.link(update@[j] as int, j));
                    } else if j == i {
                        assert(prev.link(u as int, j) == s0.link(u as int, j));
                    } else {
                        assert(prev.link(n as int, j) == None::<usize>);
                    }
                }
            }
            i = i + 1;
        }
        proof {
            SkipList::lemma_splice_wf(&s0, self, v, lvl, update, ps);
            SkipList::lemma_splice_membership(&s0, self, v, lvl, update, ps);
        }
    }

    /// Finds where `v` belongs; the flag tells whether it is already there.
    fn locate(&self, v: i32) -> (r: ([usize; MAX_LEVEL], Ghost<Seq<int>>, bool))
        requires
            self.wf(),
        ensures
            self.preds_ok(v, r.0, r.1@),
            r.2 == self@.contains(v),
            !r.2 ==> (r.1@[0] + 1 < self@.len() ==> self@[r.1@[0] + 1] > v),
            r.1@[0] >= 0 ==> self@[r.1@[0]] < v,
    {
        let (update, Ghost(ps)) = self.find_preds(v);
        let ghost p = ps[0];
        proof {
            self.lemma_sorted(0);
            assert(self.lane_linked(0));
            if p >= 0 {
                assert(self.lane_values(0)[p] == self.value_of(self.lane(0)[p] as int));
                assert(1 <= self.lane(0)[p] < self.nodes.len());
            }
            if p + 1 < self.lane(0).len() {
                assert(self.lane_values(0)[p + 1] == self.value_of(self.lane(0)[p + 1] as int));
            }
            lemma_split(self@, p, v);
        }
        let nd = self.nodes[update[0]];
        let found = match nd.next[0] {
            Some(nx) => {
                proof {
                    assert(nd.next@[0] == lane_succ(self.lane(0), p));
                }
                self.nodes[nx].value == v
            },
            None => {
                proof {
                    assert(nd.next@[0] == lane_succ(self.lane(0), p));
                }
                false
            },
        };
        (update, Ghost(ps), found)
    }

    /// What an insert of a value already present leaves: the list as it was.
    proof fn lemma_present(&self, v: i32, top: int)
        requires
            self.wf(),
            self@.contains(v),
        ensures
            insert_step(self@, self@, v),
            SkipList::insert_levels(self, self, v, top),
    {
        invariant_facts(self);
    }

    /// Links in `value`, known to be absent, with top level `lvl`, after the
    /// predecessors that `locate` found.
    fn insert_fresh(&mut self, value: i32, lvl: usize, update: [usize; MAX_LEVEL], Ghost(ps): Ghost<Seq<int>>)
        requires
            old(self).wf(),
            !old(self)@.contains(value),
            lvl < MAX_LEVEL,
            old(self).preds_ok(value, update, ps),
            ps[0] + 1 < old(self)@.len() ==> old(self)@[ps[0] + 1] > value,
            ps[0] >= 0 ==> old(self)@[ps[0]] < value,
        ensures
            final(self).wf(),
            insert_step(old(self)@, final(self)@, value),
            final(self)@.len() == old(self)@.len() + 1,
            SkipList::insert_levels(old(self), final(self), value, lvl as int),
    {
        let ghost before = self@;
        proof {
            self.lemma_sorted(0);
            lemma_insert_sorted(before, ps[0], value);
            lemma_insert_contains(before, ps[0] + 1, value);
        }
        self.link_new(value, lvl, update, Ghost(ps));
        proof {
            invariant_facts(self);
        }
    }

    /// Inserts `value` with top level `lvl`: the level-drawing step of
    /// `insert` made explicit. Nothing changes where `value` is present.
    pub fn insert_at_level(&mut self, value: i32, lvl: usize)
        requires
            old(self).wf(),
            lvl < MAX_LEVEL,
        ensures
            final(self).wf(),
            insert_step(old(self)@, final(self)@, value),
            final(self)@.len() == if old(self)@.contains(value) {
                old(self)@.len()
            } else {
                old(self)@.len() + 1
            },
            old(self)@.contains(value) ==> *final(self) == *old(self),
            final(self).top_level() < MAX_LEVEL,
            SkipList::insert_levels(old(self), final(self), value, lvl as int),
    {
        let (update, Ghost(ps), found) = self.locate(value);
        if found {
            proof {
                self.lemma_present(value, lvl as int);
            }
            return ;
        }
        self.insert_fresh(value, lvl, update, Ghost(ps));
    }

    /// Inserts `value` if it is absent, with a top level drawn by
    /// `random_level`; does nothing, and draws nothing, if it is present.
    pub fn insert(&mut self, value: i32)
        requires
            old(self).wf(),
        ensures
            final(self).wf(),
            insert_step(old(self)@, final(self)@, value),
            final(self)@.len() == if old(self)@.contains(value) {
                old(self)@.len()
            } else {
                old(self)@.len() + 1
            },
            old(self)@.contains(value) ==> *final(self) == *old(self),
            final(self).top_level() >= old(self).top_level(),
            final(self).top_level() < MAX_LEVEL,
            exists|top: int|
                0 <= top < MAX_LEVEL && #[trigger] SkipList::insert_levels(
                    old(self),
                    final(self),
                    value,
                    top,
                ),
    {
        let (update, Ghost(ps), found) = self.locate(value);
        if found {
            proof {
                self.lemma_present(value, 0);
                assert(SkipList::insert_levels(self, self, value, 0));
            }
            return ;
        }
        let lvl = random_level();
        self.insert_fresh(value, lvl, update, Ghost(ps));
        proof {
            assert(SkipList::insert_levels(old(self), self, value, lvl as int));
            invariant_facts(self);
        }
    }

    /// Whether `value` is in the set: the level-0 successor of its
    /// predecessor holds it.
    pub fn search(&self, value: i32) -> (r: bool)
        requires
            self.wf(),
        ensures
            r == self@.contains(value),
    {
        let (_, _, found) = self.locate(value);
        found
    }

    /// The highest level at which a node stands; it only ever grows.
    pub fn level(&self) -> (r: usize)
        ensures
            r == self.top_level(),
    {
        self.level
    }

    /// The elements in ascending order, read along the level-0 chain.
    pub fn to_vec(&self) -> (r: Vec<i32>)
        requires
            self.wf(),
        ensures
            r@ == self@,
    {
        let ghost lane = self.lane(0);
        proof {
            self.lemma_sorted(0);
            assert(self.lane_linked(0));
        }
        let mut out: Vec<i32> = Vec::new();
        let mut cur: usize = 0;
        let ghost mut p: int = -1;
        loop
            invariant
                self.wf(),
                lane == self.lane(0),
                self.lane_linked(0),
                self@.len() == lane.len(),
                forall|q: int| 0 <= q < lane.len() ==> #[trigger] self@[q] == self.value_of(lane[q] as int),
                -1 <= p < lane.len(),
                cur == node_at(lane, p),
                out@ == self@.subrange(0, p + 1),
            ensures
                out@ == self@,
            decreases lane.len() - p,
        {
            proof {
                if p >= 0 {
                    assert(1 <= lane[p] < self.nodes.len());
                }
            }
            let nd = self.nodes[cur];
            proof {
                assert(nd.next@[0] == lane_succ(lane, p));
            }
            match nd.next[0] {
                Some(nx) => {
                    out.push(self.nodes[nx].value);
                    cur = nx;
                    proof {
                        p = p + 1;
                        assert(out@ =~= self@.subrange(0, p + 1));
                    }
                },
                None => {
                    proof {
                        assert(out@ =~= self@);
                    }
                    break ;
                },
            }
        }
        out
    }
}

/// What the invariant tells a caller: the level is below `MAX_LEVEL`, each
/// level's chain ascends, and the chains above the level are empty.
pub proof fn invariant_facts(s: &SkipList)
    requires
        s.wf(),
    ensures
        s.top_level() < MAX_LEVEL,
        forall|i: int| 0 <= i < MAX_LEVEL ==> #[trigger] strictly_increasing(s.lane_values(i)),
        forall|i: int|
            s.top_level() < i < MAX_LEVEL ==> #[trigger] s.lane_values(i) == Seq::<i32>::empty(),
{
    assert forall|i: int| 0 <= i < MAX_LEVEL implies #[trigger] strictly_increasing(
        s.lane_values(i),
    ) by {
        s.lemma_sorted(i);
    }
    assert forall|i: int| s.top_level() < i < MAX_LEVEL implies #[trigger] s.lane_values(i)
        == Seq::<i32>::empty() by {
        assert(s.lane_values(i) =~= Seq::<i32>::empty());
    }
}

/// Each level's chain is a subset of the chain below it: a value reachable at
/// level `j` is reachable at every level `i < j`.
pub proof fn level_subset(s: &SkipList)
    requires
        s.wf(),
    ensures
        forall|i: int, j: int, x: i32|
            0 <= i < j <= s.top_level() && #[trigger] s.lane_values(j).contains(x)
                ==> #[trigger] s.lane_values(i).contains(x),
{
    assert forall|i: int, j: int, x: i32|
        0 <= i < j <= s.top_level() && #[trigger] s.lane_values(j).contains(x) implies #[trigger] s.lane_values(
        i,
    ).contains(x) by {
        assert(s.lane_linked(j));
        assert(s.lane_complete(i));
        let q = choose|q: int| 0 <= q < s.lane_values(j).len() && s.lane_values(j)[q] == x;
        let k = s.lane(j)[q];
        assert(s.lane(i).contains(k));
        let t = choose|t: int| 0 <= t < s.lane(i).len() && s.lane(i)[t] == k;
        assert(s.lane_values(i)[t] == x);
    }
}

} // verus!
