//! Dependency-graph core: a `Builder` accumulates nodes and directed
//! happens-before edges, and `build` turns them into an immutable `Graph`
//! holding a flat topological order and a tiering of the nodes in which every
//! edge crosses from a strictly earlier tier to a strictly later one.
//!
//! Nodes live in an arena owned by the `Builder`: node ids are the indices
//! `0..N-1` of that arena, assigned in creation order, and the adjacency lists
//! hold ids. A `NodeHandle` carries such an id.

use vstd::prelude::*;
use vstd::seq_lib::*;
use vstd::set_lib::*;

verus! {

/// Identity-bearing reference to a node of a `Builder`: it carries the node's
/// creation id. Handles are cheap to copy and usable as map or set keys.
#[derive(Clone, Copy, PartialEq, Eq, Structural, Debug, Hash)]
pub struct NodeHandle {
    id: usize,
}

impl NodeHandle {
    pub closed spec fn spec_id(self) -> int {
        self.id as int
    }

    pub fn new(id: usize) -> (r: NodeHandle)
        ensures
            r.spec_id() == id,
    {
        NodeHandle { id }
    }

    /// The creation id of the node this handle refers to.
    pub fn id(&self) -> (r: usize)
        ensures
            r == self.spec_id(),
    {
        self.id
    }
}

/// One schedulable unit: a payload plus its inbound and outbound edge lists,
/// held as node ids of the owning `Builder`.
pub struct Node<T> {
    body: T,
    inbound: Vec<usize>,
    outbound: Vec<usize>,
}

impl<T> Node<T> {
    pub closed spec fn spec_body(self) -> T {
        self.body
    }

    pub closed spec fn spec_inbound(self) -> Seq<usize> {
        self.inbound@
    }

    pub closed spec fn spec_outbound(self) -> Seq<usize> {
        self.outbound@
    }

    pub fn new(body: T) -> (r: Node<T>)
        ensures
            r.spec_body() == body,
            r.spec_inbound() == Seq::<usize>::empty(),
            r.spec_outbound() == Seq::<usize>::empty(),
    {
        Node { body, inbound: Vec::new(), outbound: Vec::new() }
    }
}

/// Accumulates nodes and edges; the only mutable construction surface.
pub struct Builder<T> {
    nodes: Vec<Node<T>>,
}

impl<T> Builder<T> {
    /// Number of nodes created so far; ids are exactly `0..node_count()`.
    pub closed spec fn node_count(self) -> nat {
        self.nodes@.len()
    }

    pub closed spec fn payload_at(self, u: int) -> T {
        self.nodes@[u].body
    }

    pub closed spec fn inbound_at(self, u: int) -> Seq<usize> {
        self.nodes@[u].inbound@
    }

    pub closed spec fn outbound_at(self, u: int) -> Seq<usize> {
        self.nodes@[u].outbound@
    }

    /// There is an edge from `u` to `v`: `v` occurs in `u`'s outbound list.
    pub open spec fn edge(self, u: int, v: int) -> bool {
        &&& 0 <= u < self.node_count()
        &&& 0 <= v < self.node_count()
        &&& contains_id(self.outbound_at(u), v)
    }

    /// Well-formedness: every id in an edge list is a live node id, and the
    /// inbound and outbound lists record the same edge relation (an edge is
    /// visible from both its tail and its head).
    pub open spec fn wf(self) -> bool {
        &&& forall|u: int, k: int|
            0 <= u < self.node_count() && 0 <= k < self.inbound_at(u).len()
                ==> (#[trigger] self.inbound_at(u)[k]) < self.node_count()
        &&& forall|u: int, k: int|
            0 <= u < self.node_count() && 0 <= k < self.outbound_at(u).len()
                ==> (#[trigger] self.outbound_at(u)[k]) < self.node_count()
        &&& forall|u: int, v: int|
            0 <= u < self.node_count() && 0 <= v < self.node_count()
                ==> ((#[trigger] contains_id(self.outbound_at(u), v)) <==> contains_id(
                    self.inbound_at(v),
                    u,
                ))
    }

    /// A start node: one with no inbound edge.
    pub open spec fn is_start(self, u: int) -> bool {
        0 <= u < self.node_count() && self.inbound_at(u).len() == 0
    }

    pub open spec fn has_start(self) -> bool {
        exists|u: int| self.is_start(u)
    }

    pub fn new() -> (r: Builder<T>)
        ensures
            r.node_count() == 0,
            r.wf(),
    {
        Builder { nodes: Vec::new() }
    }

    /// Allocates a new node with empty edge lists, assigns the next sequential
    /// id, registers it in the table, and returns a handle to it.
    pub fn node(&mut self, body: T) -> (r: NodeHandle)
        ensures
            r.spec_id() == old(self).node_count(),
            final(self).node_count() == old(self).node_count() + 1,
            final(self).payload_at(old(self).node_count() as int) == body,
            final(self).inbound_at(old(self).node_count() as int) == Seq::<usize>::empty(),
            final(self).outbound_at(old(self).node_count() as int) == Seq::<usize>::empty(),
            forall|u: int|
                0 <= u < old(self).node_count()
                    ==> final(self).payload_at(u) == old(self).payload_at(u)
                        && final(self).inbound_at(u) == old(self).inbound_at(u)
                        && final(self).outbound_at(u) == old(self).outbound_at(u),
            old(self).wf() ==> (forall|u: int, v: int|
                final(self).edge(u, v) <==> old(self).edge(u, v)),
            old(self).wf() ==> final(self).wf(),
    {
        let id = self.nodes.len();
        self.nodes.push(Node::new(body));
        proof {
            if old(self).wf() {
                assert forall|u: int, v: int| self.edge(u, v) <==> old(self).edge(u, v) by {
                    if 0 <= u < old(self).node_count() {
                        assert(self.outbound_at(u) == old(self).outbound_at(u));
                        if contains_id(self.outbound_at(u), v) {
                            let k = choose|k: int|
                                0 <= k < self.outbound_at(u).len() && self.outbound_at(u)[k] as int
                                    == v;
                            assert(self.outbound_at(u)[k] < old(self).node_count());
                        }
                    }
                    if u == old(self).node_count() {
                        assert(self.outbound_at(u).len() == 0);
                    }
                }
                assert forall|u: int, k: int|
                    0 <= u < self.node_count() && 0 <= k < self.inbound_at(u).len()
                        implies (#[trigger] self.inbound_at(u)[k]) < self.node_count() by {
                    if u < old(self).node_count() {
                        assert(self.inbound_at(u) == old(self).inbound_at(u));
                    } else {
                        assert(self.inbound_at(u).len() == 0);
                    }
                }
                assert forall|u: int, k: int|
                    0 <= u < self.node_count() && 0 <= k < self.outbound_at(u).len()
                        implies (#[trigger] self.outbound_at(u)[k]) < self.node_count() by {
                    if u < old(self).node_count() {
                        assert(self.outbound_at(u) == old(self).outbound_at(u));
                    } else {
                        assert(self.outbound_at(u).len() == 0);
                    }
                }
                assert forall|u: int, v: int|
                    0 <= u < self.node_count() && 0 <= v < self.node_count()
                        implies ((#[trigger] contains_id(self.outbound_at(u), v)) <==> contains_id(
                    self.inbound_at(v),
                    u,
                )) by {
                    if u < old(self).node_count() {
                        assert(self.outbound_at(u) == old(self).outbound_at(u));
                    } else {
                        assert(self.outbound_at(u).len() == 0);
                    }
                    if v < old(self).node_count() {
                        assert(self.inbound_at(v) == old(self).inbound_at(v));
                    } else {
                        assert(self.inbound_at(v).len() == 0);
                    }
                    if u < old(self).node_count() && v < old(self).node_count() {
                        assert(contains_id(old(self).outbound_at(u), v) <==> contains_id(
                            old(self).inbound_at(v),
                            u,
                        ));
                    } else {
                        if contains_id(self.outbound_at(u), v) {
                            let k = choose|k: int|
                                0 <= k < self.outbound_at(u).len() && self.outbound_at(u)[k] as int
                                    == v;
                            assert(self.outbound_at(u)[k] < old(self).node_count());
                        }
                        if contains_id(self.inbound_at(v), u) {
                            let k = choose|k: int|
                                0 <= k < self.inbound_at(v).len() && self.inbound_at(v)[k] as int
                                    == u;
                            assert(self.inbound_at(v)[k] < old(self).node_count());
                        }
                    }
                }
            }
        }
        NodeHandle::new(id)
    }

    /// Appends `head` to `tail`'s outbound list and `tail` to `head`'s inbound
    /// list. Both handles must refer to nodes of this builder; handing in a
    /// handle from another builder is a caller programming error.
    pub fn connect(&mut self, tail: &NodeHandle, head: &NodeHandle)
        requires
            old(self).wf(),
            0 <= tail.spec_id() < old(self).node_count(),
            0 <= head.spec_id() < old(self).node_count(),
        ensures
            final(self).wf(),
            final(self).node_count() == old(self).node_count(),
            forall|u: int|
                0 <= u < old(self).node_count() ==> final(self).payload_at(u) == old(
                    self,
                ).payload_at(u),
            final(self).outbound_at(tail.spec_id()) == old(self).outbound_at(tail.spec_id()).push(
                head.spec_id() as usize,
            ),
            final(self).inbound_at(head.spec_id()) == old(self).inbound_at(head.spec_id()).push(
                tail.spec_id() as usize,
            ),
            forall|u: int|
                0 <= u < old(self).node_count() && u != tail.spec_id() ==> final(self).outbound_at(
                    u,
                ) == old(self).outbound_at(u),
            forall|u: int|
                0 <= u < old(self).node_count() && u != head.spec_id() ==> final(self).inbound_at(u)
                    == old(self).inbound_at(u),
            forall|u: int, v: int|
                final(self).edge(u, v) <==> (old(self).edge(u, v) || (u == tail.spec_id() && v
                    == head.spec_id())),
    {
        let t = tail.id;
        let h = head.id;
        self.nodes[t].outbound.push(h);
        self.nodes[h].inbound.push(t);
        proof {
            assert(self.outbound_at(t as int) == old(self).outbound_at(t as int).push(h));
            assert(self.inbound_at(h as int) == old(self).inbound_at(h as int).push(t));
            assert forall|u: int, v: int|
                self.edge(u, v) <==> (old(self).edge(u, v) || (u == tail.spec_id() && v
                    == head.spec_id())) by {
                if 0 <= u < self.node_count() && 0 <= v < self.node_count() {
                    lemma_push_contains(old(self).outbound_at(u), h, v);
                    if u != t {
                        assert(self.outbound_at(u) == old(self).outbound_at(u));
                    } else {
                        assert(self.outbound_at(u) == old(self).outbound_at(u).push(h));
                    }
                }
            }
            assert(self.wf()) by {
                assert forall|u: int, v: int|
                    0 <= u < self.node_count() && 0 <= v < self.node_count()
                        implies ((#[trigger] contains_id(self.outbound_at(u), v)) <==> contains_id(
                    self.inbound_at(v),
                    u,
                )) by {
                    lemma_push_contains(old(self).outbound_at(u), h, v);
                    lemma_push_contains(old(self).inbound_at(v), t, u);
                    if u != t {
                        assert(self.outbound_at(u) == old(self).outbound_at(u));
                    } else {
                        assert(self.outbound_at(u) == old(self).outbound_at(u).push(h));
                    }
                    if v != h {
                        assert(self.inbound_at(v) == old(self).inbound_at(v));
                    } else {
                        assert(self.inbound_at(v) == old(self).inbound_at(v).push(t));
                    }
                }
                assert forall|u: int, k: int|
                    0 <= u < self.node_count() && 0 <= k < self.inbound_at(u).len()
                        implies (#[trigger] self.inbound_at(u)[k]) < self.node_count() by {
                    if u != h {
                        assert(self.inbound_at(u) == old(self).inbound_at(u));
                    } else {
                        assert(self.inbound_at(u) == old(self).inbound_at(u).push(t));
                    }
                }
                assert forall|u: int, k: int|
                    0 <= u < self.node_count() && 0 <= k < self.outbound_at(u).len()
                        implies (#[trigger] self.outbound_at(u)[k]) < self.node_count() by {
                    if u != t {
                        assert(self.outbound_at(u) == old(self).outbound_at(u));
                    } else {
                        assert(self.outbound_at(u) == old(self).outbound_at(u).push(h));
                    }
                }
            }
        }
    }
}

/// Why `build` refused to produce a schedule.
#[derive(Clone, Copy, PartialEq, Eq, Structural, Debug, Hash)]
pub enum BuildError {
    /// `build` was called with zero registered nodes.
    EmptyGraph,
    /// Every node has at least one predecessor, so the whole graph takes part
    /// in one or more cycles.
    NoStartNodes,
    /// A back edge into `node_id` closes a cycle through that node.
    CycleDetected { node_id: usize },
}

impl<T> Builder<T> {
    /// `p` walks along edges of this builder.
    pub open spec fn is_path(self, p: Seq<int>) -> bool {
        &&& p.len() >= 1
        &&& forall|k: int| 0 <= k < p.len() ==> 0 <= (#[trigger] p[k]) < self.node_count()
        &&& forall|k: int| 0 <= k < p.len() - 1 ==> self.edge(#[trigger] p[k], p[k + 1])
    }

    /// `p` is a closed walk: a path of at least one edge from a node back to
    /// itself.
    pub open spec fn is_cycle(self, p: Seq<int>) -> bool {
        &&& p.len() >= 2
        &&& self.is_path(p)
        &&& p[0] == p[p.len() - 1]
    }

    /// Some cycle starts and ends at `u`.
    pub open spec fn on_cycle(self, u: int) -> bool {
        exists|p: Seq<int>| self.is_cycle(p) && p[0] == u
    }

    pub open spec fn has_cycle(self) -> bool {
        exists|u: int| self.on_cycle(u)
    }
}

/// Three-colour state of a node during the depth-first search: not yet
/// visited, on the search stack, or finished.
#[derive(Clone, Copy, PartialEq, Eq, Structural, Debug)]
enum Mark {
    White,
    Grey,
    Black,
}

spec fn count_white(s: Seq<Mark>) -> nat
    decreases s.len(),
{
    if s.len() == 0 {
        0
    } else {
        count_white(s.drop_last()) + (if s.last() == Mark::White {
            1nat
        } else {
            0nat
        })
    }
}

proof fn lemma_count_white_update(s: Seq<Mark>, k: int, v: Mark)
    requires
        0 <= k < s.len(),
    ensures
        count_white(s.update(k, v)) + (if s[k] == Mark::White {
            1int
        } else {
            0int
        }) == count_white(s) + (if v == Mark::White {
            1int
        } else {
            0int
        }),
    decreases s.len(),
{
    let s2 = s.update(k, v);
    if k == s.len() - 1 {
        assert(s2.drop_last() =~= s.drop_last());
    } else {
        assert(s2.drop_last() =~= s.drop_last().update(k, v));
        lemma_count_white_update(s.drop_last(), k, v);
    }
}

proof fn lemma_count_white_le(s1: Seq<Mark>, s2: Seq<Mark>)
    requires
        s1.len() == s2.len(),
        forall|j: int| 0 <= j < s2.len() && s2[j] == Mark::White ==> s1[j] == Mark::White,
    ensures
        count_white(s2) <= count_white(s1),
    decreases s1.len(),
{
    if s1.len() > 0 {
        assert forall|j: int|
            0 <= j < s2.drop_last().len() && s2.drop_last()[j] == Mark::White implies s1.drop_last(
        )[j] == Mark::White by {
            assert(s2[j] == Mark::White);
        }
        lemma_count_white_le(s1.drop_last(), s2.drop_last());
    }
}

proof fn lemma_seq_push_contains(s: Seq<int>, x: int, y: int)
    ensures
        s.push(x).contains(y) <==> (s.contains(y) || y == x),
{
    if s.contains(y) {
        let k = choose|k: int| 0 <= k < s.len() && s[k] == y;
        assert(s.push(x)[k] == y);
    }
    assert(s.push(x)[s.len() as int] == x);
    if s.push(x).contains(y) && y != x {
        let k = choose|k: int| 0 <= k < s.push(x).len() && s.push(x)[k] == y;
        assert(s[k] == y);
    }
}

/// Invariant of the depth-first search. The grey nodes are exactly those on
/// `stack`, which walks along edges; the black nodes are exactly those in
/// `sorted`, and every successor of a node in `sorted` stands strictly earlier
/// in `sorted` (reverse post-order).
spec fn dfs_inv<T>(b: Builder<T>, marks: Seq<Mark>, sorted: Seq<usize>, stack: Seq<int>) -> bool {
    &&& marks.len() == b.node_count()
    &&& forall|k: int| 0 <= k < stack.len() ==> 0 <= (#[trigger] stack[k]) < b.node_count()
    &&& forall|k: int| 0 <= k < stack.len() - 1 ==> b.edge(#[trigger] stack[k], stack[k + 1])
    &&& forall|j: int|
        0 <= j < marks.len() ==> (((#[trigger] marks[j]) == Mark::Grey) <==> stack.contains(j))
    &&& forall|j: int|
        0 <= j < marks.len() ==> ((marks[j] == Mark::Black) <==> contains_id(sorted, j))
    &&& forall|k: int| 0 <= k < sorted.len() ==> (#[trigger] sorted[k]) < b.node_count()
    &&& sorted.no_duplicates()
    &&& forall|k: int, v: int|
        0 <= k < sorted.len() && b.edge(sorted[k] as int, v) ==> exists|k2: int|
            0 <= k2 < k && sorted[k2] as int == v
}

/// One depth-first visit from node `i`, which must be unvisited. On success
/// `i` and everything reachable from it is finished; an error carries a node
/// through which a cycle runs.
#[verifier::loop_isolation(false)]
fn visit<T>(
    b: &Builder<T>,
    i: usize,
    marks: &mut Vec<Mark>,
    sorted: &mut Vec<usize>,
    stack: Ghost<Seq<int>>,
    fuel: Ghost<nat>,
) -> (res: Result<(), usize>)
    requires
        b.wf(),
        i < b.node_count(),
        old(marks)@[i as int] == Mark::White,
        dfs_inv(*b, old(marks)@, old(sorted)@, stack@),
        stack@.len() > 0 ==> b.edge(stack@[stack@.len() - 1], i as int),
        fuel@ == count_white(old(marks)@),
    ensures
        final(marks)@.len() == old(marks)@.len(),
        forall|j: int|
            0 <= j < final(marks)@.len() && old(marks)@[j] != Mark::White ==> final(marks)@[j]
                == old(marks)@[j],
        res is Ok ==> dfs_inv(*b, final(marks)@, final(sorted)@, stack@) && final(marks)@[i as int]
            == Mark::Black,
        res matches Err(c) ==> b.on_cycle(c as int) && c < b.node_count(),
    decreases fuel@,
{
    let ghost stk2 = stack@.push(i as int);
    marks[i] = Mark::Grey;
    proof {
        lemma_count_white_update(old(marks)@, i as int, Mark::Grey);
        assert forall|j: int| 0 <= j < marks@.len() implies (((#[trigger] marks@[j]) == Mark::Grey)
            <==> stk2.contains(j)) by {
            lemma_seq_push_contains(stack@, i as int, j);
        }
        assert forall|k: int| 0 <= k < stk2.len() - 1 implies b.edge(
            #[trigger] stk2[k],
            stk2[k + 1],
        ) by {
            if k < stack@.len() - 1 {
                assert(b.edge(stack@[k], stack@[k + 1]));
            }
        }
        assert(dfs_inv(*b, marks@, sorted@, stk2));
    }
    let n_out = b.nodes[i].outbound.len();
    let mut k: usize = 0;
    while k < n_out
        invariant
            b.wf(),
            i < b.node_count(),
            stk2 == stack@.push(i as int),
            n_out == b.outbound_at(i as int).len(),
            0 <= k <= n_out,
            dfs_inv(*b, marks@, sorted@, stk2),
            marks@[i as int] == Mark::Grey,
            forall|k2: int|
                0 <= k2 < k ==> marks@[#[trigger] b.outbound_at(i as int)[k2] as int]
                    == Mark::Black,
            count_white(marks@) < fuel@,
            marks@.len() == old(marks)@.len(),
            forall|j: int|
                0 <= j < marks@.len() && old(marks)@[j] != Mark::White ==> marks@[j] == old(
                    marks,
                )@[j],
        decreases n_out - k,
    {
        let m = b.nodes[i].outbound[k];
        proof {
            assert(b.outbound_at(i as int)[k as int] == m);
            assert(m < b.node_count());
        }
        let mk = marks[m];
        if mk == Mark::Grey {
            proof {
                assert(stk2.contains(m as int));
                let k0 = choose|k0: int| 0 <= k0 < stk2.len() && stk2[k0] == m as int;
                let cyc = stk2.subrange(k0, stk2.len() as int).push(m as int);
                assert(b.edge(i as int, m as int)) by {
                    assert(b.outbound_at(i as int)[k as int] as int == m as int);
                }
                assert(stk2[stk2.len() - 1] == i as int);
                assert forall|j: int| 0 <= j < cyc.len() - 1 implies b.edge(
                    #[trigger] cyc[j],
                    cyc[j + 1],
                ) by {
                    if j < cyc.len() - 2 {
                        assert(cyc[j] == stk2[k0 + j] && cyc[j + 1] == stk2[k0 + j + 1]);
                    } else {
                        assert(cyc[j] == stk2[stk2.len() - 1]);
                    }
                }
                assert(b.is_cycle(cyc) && cyc[0] == m as int);
            }
            return Err(m);
        } else if mk == Mark::White {
            let ghost pre = marks@;
            let ghost f2 = count_white(marks@);
            let r = visit(b, m, marks, sorted, Ghost(stk2), Ghost(f2));
            proof {
                lemma_count_white_le(pre, marks@);
            }
            match r {
                Ok(_) => {},
                Err(c) => {
                    return Err(c);
                },
            }
        } else {
            proof {
                assert(marks@[m as int] == Mark::Black);
            }
        }
        k += 1;
    }
    let ghost pre_marks = marks@;
    let ghost pre_sorted = sorted@;
    marks[i] = Mark::Black;
    sorted.push(i);
    proof {
        assert(dfs_inv(*b, pre_marks, pre_sorted, stk2));
        assert(marks@ =~= pre_marks.update(i as int, Mark::Black));
        assert(sorted@ =~= pre_sorted.push(i));
        assert(sorted@[sorted@.len() - 1] == i);
        // The grey set shrinks back to `stack`; `i` turns black and enters
        // `sorted` at the end.
        assert(!stack@.contains(i as int)) by {
            assert(old(marks)@[i as int] == Mark::White);
        }
        assert(!contains_id(pre_sorted, i as int)) by {
            assert(pre_marks[i as int] == Mark::Grey);
        }
        assert forall|j: int| 0 <= j < marks@.len() implies (((#[trigger] marks@[j]) == Mark::Grey)
            <==> stack@.contains(j)) by {
            lemma_seq_push_contains(stack@, i as int, j);
            if j != i as int {
                assert(marks@[j] == pre_marks[j]);
                assert((pre_marks[j] == Mark::Grey) <==> stk2.contains(j));
            }
        }
        assert forall|j: int| 0 <= j < marks@.len() implies (((#[trigger] marks@[j]) == Mark::Black)
            <==> contains_id(sorted@, j)) by {
            lemma_push_contains(pre_sorted, i, j);
            if j != i as int {
                assert(marks@[j] == pre_marks[j]);
                assert((pre_marks[j] == Mark::Black) <==> contains_id(pre_sorted, j));
            } else {
                assert(sorted@[sorted@.len() - 1] as int == j);
            }
        }
        assert(sorted@.no_duplicates()) by {
            assert forall|a: int, c: int|
                0 <= a < sorted@.len() && 0 <= c < sorted@.len() && a != c implies sorted@[a]
                != sorted@[c] by {
                if a < sorted@.len() - 1 && c < sorted@.len() - 1 {
                    assert(pre_sorted[a] != pre_sorted[c]);
                } else if a == sorted@.len() - 1 && c < sorted@.len() - 1 {
                    if sorted@[c] == i {
                        assert(pre_sorted[c] as int == i as int);
                        assert(contains_id(pre_sorted, i as int));
                    }
                } else if c == sorted@.len() - 1 && a < sorted@.len() - 1 {
                    if sorted@[a] == i {
                        assert(pre_sorted[a] as int == i as int);
                        assert(contains_id(pre_sorted, i as int));
                    }
                }
            }
        }
        assert forall|k1: int, v: int|
            0 <= k1 < sorted@.len() && b.edge(sorted@[k1] as int, v) implies exists|k2: int|
            0 <= k2 < k1 && sorted@[k2] as int == v by {
            if k1 < sorted@.len() - 1 {
                assert(pre_sorted[k1] == sorted@[k1]);
                assert(b.edge(pre_sorted[k1] as int, v));
                let k2 = choose|k2: int| 0 <= k2 < k1 && pre_sorted[k2] as int == v;
                assert(sorted@[k2] as int == v);
            } else {
                // Every successor of `i` is black, hence already in `sorted`.
                assert(sorted@[k1] as int == i as int);
                assert(contains_id(b.outbound_at(i as int), v));
                let kk = choose|kk: int|
                    0 <= kk < b.outbound_at(i as int).len() && b.outbound_at(i as int)[kk] as int
                        == v;
                assert(pre_marks[b.outbound_at(i as int)[kk] as int] == Mark::Black);
                assert(contains_id(pre_sorted, v));
                let k2 = choose|k2: int| 0 <= k2 < pre_sorted.len() && pre_sorted[k2] as int == v;
                assert(sorted@[k2] as int == v);
            }
        }
        assert(dfs_inv(*b, marks@, sorted@, stack@));
    }
    Ok(())
}

/// `order` is a topological order of all nodes of `b`: it lists every node id
/// exactly once, and the tail of every edge comes before its head.
pub open spec fn order_valid<T>(b: Builder<T>, order: Seq<usize>) -> bool {
    &&& order.len() == b.node_count()
    &&& forall|k: int| 0 <= k < order.len() ==> (#[trigger] order[k]) < b.node_count()
    &&& order.no_duplicates()
    &&& forall|v: int| 0 <= v < b.node_count() ==> contains_id(order, v)
    &&& forall|k1: int, k2: int|
        0 <= k1 < order.len() && 0 <= k2 < order.len() && b.edge(
            order[k1] as int,
            order[k2] as int,
        ) ==> k1 < k2
}

/// A duplicate-free sequence of ids below `n` that contains every id below `n`
/// has length exactly `n`.
proof fn lemma_complete_ids_len(s: Seq<usize>, n: nat)
    requires
        s.no_duplicates(),
        forall|k: int| 0 <= k < s.len() ==> (#[trigger] s[k]) < n,
        forall|v: int| 0 <= v < n ==> contains_id(s, v),
    ensures
        s.len() == n,
{
    broadcast use vstd::set::group_set_axioms;

    let si = s.map_values(|x: usize| x as int);
    assert forall|a: int, c: int|
        0 <= a < si.len() && 0 <= c < si.len() && a != c implies si[a] != si[c] by {
        assert(s[a] != s[c]);
    }
    si.unique_seq_to_set();
    assert(si.to_set() =~= set_int_range(0, n as int)) by {
        assert forall|v: int| si.to_set().contains(v) implies set_int_range(0, n as int).contains(
            v,
        ) by {
            let k = choose|k: int| 0 <= k < si.len() && si[k] == v;
            assert(s[k] < n);
        }
        assert forall|v: int| set_int_range(0, n as int).contains(v) implies si.to_set().contains(
            v,
        ) by {
            assert(contains_id(s, v));
            let k = choose|k: int| 0 <= k < s.len() && s[k] as int == v;
            assert(si[k] == v);
            assert(si.contains(v));
        }
    }
    lemma_int_range(0, n as int);
}

/// Any path can be extended backwards to length `target` when every node has a
/// predecessor.
proof fn lemma_extend_path_back<T>(b: Builder<T>, p: Seq<int>, target: nat)
    requires
        b.wf(),
        !b.has_start(),
        b.is_path(p),
        p.len() <= target,
    ensures
        exists|q: Seq<int>| b.is_path(q) && q.len() == target,
    decreases target - p.len(),
{
    if p.len() == target {
        assert(b.is_path(p) && p.len() == target);
    } else {
        let u = p[0];
        assert(!b.is_start(u));
        assert(b.inbound_at(u).len() > 0);
        let w = b.inbound_at(u)[0];
        assert(contains_id(b.inbound_at(u), w as int));
        assert(contains_id(b.outbound_at(w as int), u));
        assert(b.edge(w as int, u));
        let q = seq![w as int] + p;
        assert(q.len() == p.len() + 1);
        assert(b.is_path(q)) by {
            assert forall|k: int| 0 <= k < q.len() implies 0 <= (#[trigger] q[k])
                < b.node_count() by {
                if k > 0 {
                    assert(q[k] == p[k - 1]);
                }
            }
            assert forall|k: int| 0 <= k < q.len() - 1 implies b.edge(
                #[trigger] q[k],
                q[k + 1],
            ) by {
                if k == 0 {
                    assert(q[0] == w as int && q[1] == p[0]);
                } else {
                    assert(q[k] == p[k - 1] && q[k + 1] == p[k]);
                    assert(b.edge(p[k - 1], p[k]));
                }
            }
        }
        lemma_extend_path_back(b, q, target);
    }
}

/// A path that repeats a node contains a cycle through that node.
proof fn lemma_repeat_gives_cycle<T>(b: Builder<T>, p: Seq<int>, a: int, c: int)
    requires
        b.is_path(p),
        0 <= a < c < p.len(),
        p[a] == p[c],
    ensures
        b.on_cycle(p[a]),
{
    let cyc = p.subrange(a, c + 1);
    assert(b.is_path(cyc)) by {
        assert forall|k: int| 0 <= k < cyc.len() - 1 implies b.edge(
            #[trigger] cyc[k],
            cyc[k + 1],
        ) by {
            assert(cyc[k] == p[a + k] && cyc[k + 1] == p[a + k + 1]);
            assert(b.edge(p[a + k], p[a + k + 1]));
        }
    }
    assert(b.is_cycle(cyc) && cyc[0] == p[a]);
}

/// Law: in a non-empty graph where every node has an inbound edge, some node
/// lies on a cycle, so refusing such a graph outright never loses a valid
/// schedule.
pub proof fn lemma_no_start_has_cycle<T>(b: Builder<T>)
    requires
        b.wf(),
        b.node_count() > 0,
        !b.has_start(),
    ensures
        b.has_cycle(),
{
    broadcast use vstd::set::group_set_axioms;

    let n = b.node_count();
    assert(b.is_path(seq![0int]));
    lemma_extend_path_back(b, seq![0int], n + 1);
    let q = choose|q: Seq<int>| b.is_path(q) && q.len() == n + 1;
    if q.no_duplicates() {
        q.unique_seq_to_set();
        assert(q.to_set().subset_of(set_int_range(0, n as int))) by {
            assert forall|v: int| q.to_set().contains(v) implies set_int_range(
                0,
                n as int,
            ).contains(v) by {
                let k = choose|k: int| 0 <= k < q.len() && q[k] == v;
                assert(0 <= q[k] < n);
            }
        }
        lemma_int_range(0, n as int);
        lemma_len_subset(q.to_set(), set_int_range(0, n as int));
        assert(false);
    } else {
        let (a, c) = choose|a: int, c: int|
            0 <= a < q.len() && 0 <= c < q.len() && a != c && q[a] == q[c];
        if a < c {
            lemma_repeat_gives_cycle(b, q, a, c);
        } else {
            lemma_repeat_gives_cycle(b, q, c, a);
        }
    }
}

/// The position of id `u` in `order`.
spec fn pos_of(order: Seq<usize>, u: int) -> int {
    choose|k: int| 0 <= k < order.len() && order[k] as int == u
}

/// Along a path, positions in a valid topological order strictly increase.
proof fn lemma_path_pos<T>(b: Builder<T>, order: Seq<usize>, p: Seq<int>, m: int)
    requires
        order_valid(b, order),
        b.is_path(p),
        1 <= m < p.len(),
    ensures
        0 <= pos_of(order, p[0]) < order.len(),
        0 <= pos_of(order, p[m]) < order.len(),
        pos_of(order, p[0]) < pos_of(order, p[m]),
    decreases m,
{
    assert(contains_id(order, p[m]));
    assert(contains_id(order, p[m - 1]));
    assert(contains_id(order, p[0]));
    let km = pos_of(order, p[m]);
    let km1 = pos_of(order, p[m - 1]);
    assert(order[km1] as int == p[m - 1] && order[km] as int == p[m]);
    assert(b.edge(p[m - 1], p[m]));
    assert(km1 < km);
    if m > 1 {
        lemma_path_pos(b, order, p, m - 1);
    }
}

/// Law: a topological order of all nodes certifies that the graph is acyclic;
/// a graph with a cycle admits no valid linearization.
pub proof fn lemma_order_valid_acyclic<T>(b: Builder<T>, order: Seq<usize>)
    requires
        order_valid(b, order),
    ensures
        !b.has_cycle(),
{
    if b.has_cycle() {
        let u = choose|u: int| b.on_cycle(u);
        let p = choose|p: Seq<int>| b.is_cycle(p) && p[0] == u;
        lemma_path_pos(b, order, p, p.len() - 1);
        assert(p[p.len() - 1] == p[0]);
        assert(false);
    }
}

/// Cycle-safe topological sort over the builder's node table: either a valid
/// linearization of all nodes, or the error that rules one out.
#[verifier::loop_isolation(false)]
pub fn topological_sort<T>(b: &Builder<T>) -> (res: Result<Vec<usize>, BuildError>)
    requires
        b.wf(),
    ensures
        (res matches Err(BuildError::EmptyGraph)) <==> b.node_count() == 0,
        (res matches Err(BuildError::NoStartNodes)) <==> (b.node_count() > 0 && !b.has_start()),
        res matches Err(BuildError::CycleDetected { node_id }) ==> b.on_cycle(node_id as int)
            && node_id < b.node_count(),
        res matches Ok(order) ==> order_valid(*b, order@),
        res is Ok ==> !b.has_cycle(),
        b.node_count() > 0 && !b.has_cycle() ==> res is Ok,
        b.has_start() && b.has_cycle() ==> res matches Err(BuildError::CycleDetected { .. }),
{
    let n = b.nodes.len();
    if n == 0 {
        return Err(BuildError::EmptyGraph);
    }
    // Start nodes, in ascending id order.
    let mut start_indices: Vec<usize> = Vec::new();
    let mut u: usize = 0;
    while u < n
        invariant
            n == b.node_count(),
            u <= n,
            forall|k: int| 0 <= k < start_indices@.len() ==> b.is_start(
                #[trigger] start_indices@[k] as int,
            ),
            start_indices@.len() == 0 ==> forall|v: int| 0 <= v < u ==> !b.is_start(v),
        decreases n - u,
    {
        if b.nodes[u].inbound.len() == 0 {
            start_indices.push(u);
        }
        u += 1;
    }
    if start_indices.len() == 0 {
        proof {
            assert(!b.has_start());
            lemma_no_start_has_cycle(*b);
        }
        return Err(BuildError::NoStartNodes);
    }
    proof {
        assert(b.is_start(start_indices@[0] as int));
        assert(b.has_start());
    }
    // Unvisited marks for every node.
    let mut marks: Vec<Mark> = Vec::new();
    let mut j: usize = 0;
    while j < n
        invariant
            marks@.len() == j,
            j <= n,
            forall|t: int| 0 <= t < j ==> marks@[t] == Mark::White,
        decreases n - j,
    {
        marks.push(Mark::White);
        j += 1;
    }
    let mut sorted: Vec<usize> = Vec::new();
    proof {
        assert(dfs_inv(*b, marks@, sorted@, Seq::<int>::empty()));
    }
    // Depth-first search from every start node, in ascending id order.
    let mut s: usize = 0;
    while s < start_indices.len()
        invariant
            b.wf(),
            n == b.node_count(),
            forall|k: int| 0 <= k < start_indices@.len() ==> b.is_start(
                #[trigger] start_indices@[k] as int,
            ),
            s <= start_indices@.len(),
            marks@.len() == n,
            dfs_inv(*b, marks@, sorted@, Seq::<int>::empty()),
        decreases start_indices@.len() - s,
    {
        let su = start_indices[s];
        if marks[su] == Mark::White {
            let ghost f = count_white(marks@);
            match visit(b, su, &mut marks, &mut sorted, Ghost(Seq::empty()), Ghost(f)) {
                Ok(_) => {},
                Err(c) => {
                    proof {
                        assert(b.on_cycle(c as int));
                        assert(b.has_cycle());
                    }
                    return Err(BuildError::CycleDetected { node_id: c });
                },
            }
        }
        s += 1;
    }
    // Nodes not reachable from any start node remain; they are visited in
    // ascending id order so that a cycle among them is caught rather than the
    // nodes silently dropped.
    let mut w: usize = 0;
    while w < n
        invariant
            b.wf(),
            n == b.node_count(),
            w <= n,
            marks@.len() == n,
            dfs_inv(*b, marks@, sorted@, Seq::<int>::empty()),
            forall|v: int| 0 <= v < w ==> marks@[v] != Mark::White,
        decreases n - w,
    {
        if marks[w] == Mark::White {
            let ghost f = count_white(marks@);
            match visit(b, w, &mut marks, &mut sorted, Ghost(Seq::empty()), Ghost(f)) {
                Ok(_) => {},
                Err(c) => {
                    proof {
                        assert(b.on_cycle(c as int));
                        assert(b.has_cycle());
                    }
                    return Err(BuildError::CycleDetected { node_id: c });
                },
            }
        }
        w += 1;
    }
    proof {
        // Everything is black now, so `sorted` lists every node exactly once.
        assert forall|v: int| 0 <= v < n implies contains_id(sorted@, v) by {
            assert(marks@[v] != Mark::White);
            assert(!Seq::<int>::empty().contains(v));
            assert(marks@[v] != Mark::Grey);
        }
        lemma_complete_ids_len(sorted@, n as nat);
    }
    // `sorted` is in post-order; reverse it into a forward topological order.
    let mut order: Vec<usize> = Vec::new();
    let mut r: usize = sorted.len();
    while r > 0
        invariant
            r <= sorted@.len(),
            order@.len() + r == sorted@.len(),
            forall|m: int| 0 <= m < order@.len() ==> order@[m] == sorted@[sorted@.len() - 1 - m],
        decreases r,
    {
        r -= 1;
        order.push(sorted[r]);
    }
    proof {
        lemma_reversed_order_valid(*b, sorted@, order@);
        lemma_order_valid_acyclic(*b, order@);
    }
    Ok(order)
}

/// The reverse of a duplicate-free post-order with the successor-closure
/// property is a valid topological order.
proof fn lemma_reversed_order_valid<T>(b: Builder<T>, sorted: Seq<usize>, order: Seq<usize>)
    requires
        sorted.len() == b.node_count(),
        sorted.no_duplicates(),
        forall|k: int| 0 <= k < sorted.len() ==> (#[trigger] sorted[k]) < b.node_count(),
        forall|v: int| 0 <= v < b.node_count() ==> contains_id(sorted, v),
        forall|k: int, v: int|
            0 <= k < sorted.len() && b.edge(sorted[k] as int, v) ==> exists|k2: int|
                0 <= k2 < k && sorted[k2] as int == v,
        order.len() == sorted.len(),
        forall|m: int| 0 <= m < order.len() ==> order[m] == sorted[sorted.len() - 1 - m],
    ensures
        order_valid(b, order),
{
    let n = sorted.len() as int;
    assert forall|a: int, c: int|
        0 <= a < order.len() && 0 <= c < order.len() && a != c implies order[a] != order[c] by {
        assert(sorted[n - 1 - a] != sorted[n - 1 - c]);
    }
    assert forall|v: int| 0 <= v < b.node_count() implies contains_id(order, v) by {
        assert(contains_id(sorted, v));
        let k = choose|k: int| 0 <= k < sorted.len() && sorted[k] as int == v;
        assert(order[n - 1 - k] as int == v);
    }
    assert forall|k1: int, k2: int|
        0 <= k1 < order.len() && 0 <= k2 < order.len() && b.edge(
            order[k1] as int,
            order[k2] as int,
        ) implies k1 < k2 by {
        let v = order[k2] as int;
        assert(b.edge(sorted[n - 1 - k1] as int, v));
        let k3 = choose|k3: int| 0 <= k3 < n - 1 - k1 && sorted[k3] as int == v;
        assert(sorted[k3] == sorted[n - 1 - k2]);
        if k3 != n - 1 - k2 {
            assert(sorted[k3] != sorted[n - 1 - k2]);
        }
    }
}
/// The longest-path layering equation at node `u`: a node with no inbound
/// edge sits in tier 0, and every other node sits exactly one tier above its
/// highest predecessor.
pub open spec fn tier_eq<T>(b: Builder<T>, tier: Seq<usize>, u: int) -> bool {
    if b.inbound_at(u).len() == 0 {
        tier[u] == 0
    } else {
        &&& exists|k: int|
            0 <= k < b.inbound_at(u).len() && tier[u] as int == tier[#[trigger] b.inbound_at(
                u,
            )[k] as int] as int + 1
        &&& forall|k: int|
            0 <= k < b.inbound_at(u).len() ==> (tier[#[trigger] b.inbound_at(u)[k] as int] as int)
                < tier[u] as int
    }
}

/// The rows of `ids` group the node ids by their tier: row `t` lists exactly
/// the nodes with tier `t`, in ascending id order, and no row is empty.
pub open spec fn tiers_match<T>(b: Builder<T>, tier: Seq<usize>, ids: Seq<Seq<usize>>) -> bool {
    &&& forall|t: int, m: int|
        0 <= t < ids.len() && 0 <= m < ids[t].len() ==> (#[trigger] ids[t][m]) < b.node_count()
    &&& forall|t: int, m: int|
        0 <= t < ids.len() && 0 <= m < ids[t].len() ==> tier[#[trigger] ids[t][m] as int] as int
            == t
    &&& forall|t: int, m1: int, m2: int|
        0 <= t < ids.len() && 0 <= m1 < m2 < ids[t].len() ==> (#[trigger] ids[t][m1]) < (
        #[trigger] ids[t][m2])
    &&& forall|u: int|
        0 <= u < b.node_count() ==> (tier[u] as int) < ids.len() && contains_id(
            #[trigger] ids[tier[u] as int],
            u,
        )
    &&& forall|t: int| 0 <= t < ids.len() ==> (#[trigger] ids[t]).len() > 0
}

/// An edge always climbs to a strictly higher tier.
proof fn lemma_edge_tier_lt<T>(b: Builder<T>, tier: Seq<usize>, a: int, c: int)
    requires
        b.wf(),
        tier.len() == b.node_count(),
        forall|v: int| 0 <= v < b.node_count() ==> tier_eq(b, tier, v),
        b.edge(a, c),
    ensures
        (tier[a] as int) < tier[c] as int,
{
    assert(contains_id(b.outbound_at(a), c));
    assert(contains_id(b.inbound_at(c), a));
    let k = choose|k: int| 0 <= k < b.inbound_at(c).len() && b.inbound_at(c)[k] as int == a;
    assert(tier_eq(b, tier, c));
    assert((tier[b.inbound_at(c)[k] as int] as int) < tier[c] as int);
}

/// Below any assigned tier, every tier number down to zero is assigned to some
/// node.
proof fn lemma_tier_descent<T>(b: Builder<T>, tier: Seq<usize>, u: int, t: int)
    requires
        b.wf(),
        tier.len() == b.node_count(),
        forall|v: int| 0 <= v < b.node_count() ==> tier_eq(b, tier, v),
        0 <= u < b.node_count(),
        0 <= t <= tier[u] as int,
    ensures
        exists|w: int| 0 <= w < b.node_count() && tier[w] as int == t,
    decreases tier[u] as int - t,
{
    if tier[u] as int == t {
        assert(0 <= u < b.node_count() && tier[u] as int == t);
    } else {
        assert(tier_eq(b, tier, u));
        assert(b.inbound_at(u).len() > 0);
        let k = choose|k: int|
            0 <= k < b.inbound_at(u).len() && tier[u] as int == tier[b.inbound_at(
                u,
            )[k] as int] as int + 1;
        let p = b.inbound_at(u)[k] as int;
        assert(0 <= p < b.node_count());
        lemma_tier_descent(b, tier, p, t);
    }
}

/// Assigns every node its longest-path tier, walking the nodes in topological
/// order so that each predecessor is assigned before it is read.
#[verifier::loop_isolation(false)]
fn compute_tiers<T>(b: &Builder<T>, order: &Vec<usize>) -> (tier: Vec<usize>)
    requires
        b.wf(),
        order_valid(*b, order@),
    ensures
        tier@.len() == b.node_count(),
        forall|u: int| 0 <= u < b.node_count() ==> tier_eq(*b, tier@, u),
        forall|u: int| 0 <= u < b.node_count() ==> (#[trigger] tier@[u]) < b.node_count(),
{
    let n = order.len();
    let mut tier: Vec<usize> = Vec::new();
    let mut z: usize = 0;
    while z < n
        invariant
            z <= n,
            tier@.len() == z,
        decreases n - z,
    {
        tier.push(0);
        z += 1;
    }
    let mut k: usize = 0;
    while k < n
        invariant
            k <= n,
            tier@.len() == n,
            forall|k2: int|
                #![trigger order@[k2]]
                0 <= k2 < k ==> tier_eq(*b, tier@, order@[k2] as int),
            forall|k2: int|
                #![trigger order@[k2]]
                0 <= k2 < k ==> (tier@[order@[k2] as int] as int) <= k2,
        decreases n - k,
    {
        let u = order[k];
        proof {
            assert(u < b.node_count());
            // Every predecessor of `u` was assigned at an earlier position and
            // its entry will not change again.
            assert forall|j2: int| 0 <= j2 < b.inbound_at(u as int).len() implies exists|kp: int|
                0 <= kp < k && order@[kp] as int == (#[trigger] b.inbound_at(u as int)[j2]) as int by {
                let p = b.inbound_at(u as int)[j2] as int;
                assert(contains_id(b.inbound_at(u as int), p));
                assert(contains_id(b.outbound_at(p), u as int));
                assert(b.edge(p, u as int));
                assert(contains_id(order@, p));
                let kp = choose|kp: int| 0 <= kp < order@.len() && order@[kp] as int == p;
                assert(b.edge(order@[kp] as int, order@[k as int] as int));
                assert(kp < k);
            }
        }
        let m = b.nodes[u].inbound.len();
        let mut best: usize = 0;
        let mut j: usize = 0;
        while j < m
            invariant
                j <= m,
                m == b.inbound_at(u as int).len(),
                best as int <= k,
                m > 0 && j > 0 ==> exists|j2: int|
                    0 <= j2 < j && best as int == tier@[b.inbound_at(u as int)[j2] as int] as int
                        + 1,
                j == 0 ==> best == 0,
                forall|j2: int|
                    0 <= j2 < j ==> (tier@[#[trigger] b.inbound_at(u as int)[j2] as int] as int + 1)
                        <= best as int,
            decreases m - j,
        {
            let p = b.nodes[u].inbound[j];
            proof {
                assert(b.inbound_at(u as int)[j as int] == p);
                assert(p < b.node_count());
                let kp = choose|kp: int| 0 <= kp < k && order@[kp] as int == p as int;
                assert(tier@[order@[kp] as int] as int <= kp);
                assert(tier@[p as int] as int <= kp);
                assert(tier@[p as int] as int + 1 <= k);
            }
            let t = tier[p];
            let cand = t + 1;
            if cand > best {
                best = cand;
            }
            j += 1;
        }
        let ghost pre_tier = tier@;
        tier[u] = best;
        proof {
            assert(tier@ =~= pre_tier.update(u as int, best));
            // Earlier assignments and everything they read are untouched.
            assert forall|k2: int|
                #![trigger order@[k2]]
                0 <= k2 < k + 1 implies tier_eq(*b, tier@, order@[k2] as int) && (tier@[order@[k2]
                as int] as int) <= k2 by {
                if k2 < k {
                    let v = order@[k2] as int;
                    assert(order@[k2] != order@[k as int]);
                    assert(tier@[v] == pre_tier[v]);
                    assert forall|j2: int|
                        0 <= j2 < b.inbound_at(v).len() implies tier@[#[trigger] b.inbound_at(
                        v,
                    )[j2] as int] == pre_tier[b.inbound_at(v)[j2] as int] by {
                        let p = b.inbound_at(v)[j2] as int;
                        assert(contains_id(b.inbound_at(v), p));
                        assert(contains_id(b.outbound_at(p), v));
                        assert(b.edge(p, v));
                        assert(contains_id(order@, p));
                        let kp = choose|kp: int| 0 <= kp < order@.len() && order@[kp] as int == p;
                        assert(b.edge(order@[kp] as int, order@[k2] as int));
                        assert(kp < k2);
                        assert(order@[kp] != order@[k as int]);
                    }
                    assert(tier_eq(*b, pre_tier, v));
                    if b.inbound_at(v).len() > 0 {
                        let kw = choose|kw: int|
                            0 <= kw < b.inbound_at(v).len() && pre_tier[v] as int == pre_tier[
                            b.inbound_at(v)[kw] as int] as int + 1;
                        assert(tier@[v] as int == tier@[b.inbound_at(v)[kw] as int] as int + 1);
                    }
                } else {
                    let v = order@[k as int] as int;
                    assert(v == u as int);
                    assert(tier@[v] == best);
                    // No node is its own predecessor in a linearized graph.
                    assert forall|j2: int| 0 <= j2 < b.inbound_at(v).len() implies (
                    #[trigger] b.inbound_at(v)[j2]) != u by {
                        let p = b.inbound_at(v)[j2] as int;
                        if p == u as int {
                            assert(contains_id(b.inbound_at(v), p));
                            assert(contains_id(b.outbound_at(p), v));
                            assert(b.edge(order@[k as int] as int, order@[k as int] as int));
                        }
                    }
                    if b.inbound_at(v).len() == 0 {
                        assert(tier@[v] == 0);
                    } else {
                        let j2 = choose|j2: int|
                            0 <= j2 < b.inbound_at(v).len() && best as int == pre_tier[b.inbound_at(
                                v,
                            )[j2] as int] as int + 1;
                        assert(tier@[b.inbound_at(v)[j2] as int] as int == pre_tier[b.inbound_at(
                            v,
                        )[j2] as int] as int);
                        assert forall|j3: int| 0 <= j3 < b.inbound_at(v).len() implies (tier@[
                        #[trigger] b.inbound_at(v)[j3] as int] as int) < tier@[v] as int by {
                            assert((pre_tier[b.inbound_at(v)[j3] as int] as int + 1)
                                <= best as int);
                        }
                        assert(tier_eq(*b, tier@, v));
                    }
                }
            }
        }
        k += 1;
    }
    proof {
        assert forall|u: int| 0 <= u < b.node_count() implies tier_eq(*b, tier@, u) && (
        #[trigger] tier@[u]) < b.node_count() by {
            assert(contains_id(order@, u));
            let kp = choose|kp: int| 0 <= kp < order@.len() && order@[kp] as int == u;
            assert(tier_eq(*b, tier@, order@[kp] as int));
            assert((tier@[order@[kp] as int] as int) <= kp);
        }
    }
    tier
}

/// Immutable result of `build`: the nodes' payloads grouped into tiers, the
/// matching node ids, and the flat topological order of the node ids.
pub struct Graph<T> {
    tiers: Vec<Vec<T>>,
    tier_ids: Vec<Vec<usize>>,
    order: Vec<usize>,
    tier: Ghost<Seq<usize>>,
}

impl<T> Graph<T> {
    /// The flat topological order: every node id once, tails before heads.
    pub closed spec fn spec_order(self) -> Seq<usize> {
        self.order@
    }

    /// The node ids grouped by tier.
    pub closed spec fn spec_tier_ids(self) -> Seq<Seq<usize>> {
        Seq::new(self.tier_ids@.len(), |t: int| self.tier_ids@[t]@)
    }

    /// The payloads grouped by tier.
    pub closed spec fn spec_tiers(self) -> Seq<Seq<T>> {
        Seq::new(self.tiers@.len(), |t: int| self.tiers@[t]@)
    }

    /// The tier assigned to each node id.
    pub closed spec fn spec_tier_of(self) -> Seq<usize> {
        self.tier@
    }

    /// Total number of nodes in the schedule.
    pub fn node_count(&self) -> (r: usize)
        ensures
            r == self.spec_order().len(),
    {
        self.order.len()
    }

    /// The ordered tiers of payloads: all payloads of one tier may run in
    /// parallel once every earlier tier has completed.
    pub fn tiers(&self) -> (r: &Vec<Vec<T>>)
        ensures
            r@.len() == self.spec_tiers().len(),
            forall|t: int| 0 <= t < r@.len() ==> (#[trigger] r@[t]@) == self.spec_tiers()[t],
    {
        &self.tiers
    }

    /// The node ids grouped by tier, parallel to `tiers`.
    pub fn tier_ids(&self) -> (r: &Vec<Vec<usize>>)
        ensures
            r@.len() == self.spec_tier_ids().len(),
            forall|t: int| 0 <= t < r@.len() ==> (#[trigger] r@[t]@) == self.spec_tier_ids()[t],
    {
        &self.tier_ids
    }

    /// The flat topological order of node ids, for callers that want a single
    /// sequential plan instead of tiers.
    pub fn order(&self) -> (r: &Vec<usize>)
        ensures
            r@ == self.spec_order(),
    {
        &self.order
    }
}

impl<T: Clone> Graph<T> {
    /// The graph is a correct schedule for builder state `b`: its order is a
    /// topological order of all nodes, its tier assignment satisfies the
    /// longest-path layering equation, its id rows group the nodes by tier in
    /// ascending id order, every edge climbs to a strictly higher tier, and
    /// the payload rows are clones of the corresponding nodes' payloads.
    pub open spec fn valid(self, b: Builder<T>) -> bool {
        &&& order_valid(b, self.spec_order())
        &&& self.spec_tier_of().len() == b.node_count()
        &&& forall|u: int| 0 <= u < b.node_count() ==> tier_eq(b, self.spec_tier_of(), u)
        &&& tiers_match(b, self.spec_tier_of(), self.spec_tier_ids())
        &&& forall|t1: int, m1: int, t2: int, m2: int|
            0 <= t1 < self.spec_tier_ids().len() && 0 <= m1 < self.spec_tier_ids()[t1].len() && 0
                <= t2 < self.spec_tier_ids().len() && 0 <= m2 < self.spec_tier_ids()[t2].len()
                && b.edge(
                #[trigger] self.spec_tier_ids()[t1][m1] as int,
                #[trigger] self.spec_tier_ids()[t2][m2] as int,
            ) ==> t1 < t2
        &&& self.spec_tiers().len() == self.spec_tier_ids().len()
        &&& forall|t: int|
            0 <= t < self.spec_tiers().len() ==> (#[trigger] self.spec_tiers()[t]).len()
                == self.spec_tier_ids()[t].len()
        &&& forall|t: int, m: int|
            0 <= t < self.spec_tiers().len() && 0 <= m < self.spec_tiers()[t].len() ==> cloned::<T>(
                b.payload_at(self.spec_tier_ids()[t][m] as int),
                #[trigger] self.spec_tiers()[t][m],
            )
    }
}

impl<T: Clone> Builder<T> {
    /// Runs the cycle-safe topological sort and the longest-path layering over
    /// the current node table and returns the resulting schedule. The builder
    /// is not changed and may keep growing afterwards.
    #[verifier::loop_isolation(false)]
    pub fn build(&self) -> (res: Result<Graph<T>, BuildError>)
        requires
            self.wf(),
        ensures
            (res matches Err(BuildError::EmptyGraph)) <==> self.node_count() == 0,
            (res matches Err(BuildError::NoStartNodes)) <==> (self.node_count() > 0
                && !self.has_start()),
            res matches Err(BuildError::CycleDetected { node_id }) ==> self.on_cycle(node_id as int)
                && node_id < self.node_count(),
            res is Ok ==> !self.has_cycle(),
            self.node_count() > 0 && !self.has_cycle() ==> res is Ok,
            self.has_start() && self.has_cycle() ==> res matches Err(
                BuildError::CycleDetected { .. },
            ),
            res matches Ok(g) ==> g.valid(*self),
    {
        let order = match topological_sort(self) {
            Ok(o) => o,
            Err(e) => {
                return Err(e);
            },
        };
        let tier = compute_tiers(self, &order);
        let n = order.len();
        // The highest tier in use.
        let mut maxt: usize = tier[0];
        let mut u: usize = 1;
        while u < n
            invariant
                1 <= u <= n,
                exists|w: int| 0 <= w < u && tier@[w] == maxt,
                forall|w: int| 0 <= w < u ==> (#[trigger] tier@[w]) <= maxt,
            decreases n - u,
    {
            if tier[u] > maxt {
                maxt = tier[u];
            }
            u += 1;
        }
        // Group the node ids by tier, each row in ascending id order.
        let mut tier_ids: Vec<Vec<usize>> = Vec::new();
        let mut t: usize = 0;
        while t < maxt + 1
            invariant
                t <= maxt + 1,
                tier_ids@.len() == t,
                forall|t2: int, m: int|
                    0 <= t2 < t && 0 <= m < tier_ids@[t2]@.len() ==> (#[trigger] tier_ids@[t2]@[m])
                        < n,
                forall|t2: int, m: int|
                    0 <= t2 < t && 0 <= m < tier_ids@[t2]@.len() ==> tier@[#[trigger] tier_ids@[
                    t2]@[m] as int] as int == t2,
                forall|t2: int, m1: int, m2: int|
                    0 <= t2 < t && 0 <= m1 < m2 < tier_ids@[t2]@.len() ==> (#[trigger] tier_ids@[
                    t2]@[m1]) < (#[trigger] tier_ids@[t2]@[m2]),
                forall|v: int|
                    0 <= v < n && (tier@[v] as int) < t ==> contains_id(
                        #[trigger] tier_ids@[tier@[v] as int]@,
                        v,
                    ),
            decreases maxt + 1 - t,
        {
            let mut row: Vec<usize> = Vec::new();
            let mut v: usize = 0;
            while v < n
                invariant
                    v <= n,
                    forall|m: int| 0 <= m < row@.len() ==> (#[trigger] row@[m]) < v,
                    forall|m: int| 0 <= m < row@.len() ==> tier@[#[trigger] row@[m] as int] == t,
                    forall|m1: int, m2: int|
                        0 <= m1 < m2 < row@.len() ==> (#[trigger] row@[m1]) < (#[trigger] row@[m2]),
                    forall|w: int| 0 <= w < v && tier@[w] as int == t ==> contains_id(row@, w),
                decreases n - v,
            {
                if tier[v] == t {
                    let ghost pre_row = row@;
                    row.push(v);
                    proof {
                        assert forall|w: int|
                            0 <= w < v + 1 && tier@[w] as int == t implies contains_id(
                            row@,
                            w,
                        ) by {
                            lemma_push_contains(pre_row, v, w);
                        }
                    }
                }
                v += 1;
            }
            tier_ids.push(row);
            t += 1;
        }
        // Collect the payloads, tier by tier, cloning each node's payload.
        let mut tiers: Vec<Vec<T>> = Vec::new();
        let mut t2: usize = 0;
        while t2 < tier_ids.len()
            invariant
                t2 <= tier_ids@.len(),
                tiers@.len() == t2,
                forall|t3: int|
                    0 <= t3 < t2 ==> (#[trigger] tiers@[t3]@).len() == tier_ids@[t3]@.len(),
                forall|t3: int, m: int|
                    0 <= t3 < t2 && 0 <= m < tiers@[t3]@.len() ==> cloned::<T>(
                        self.payload_at(tier_ids@[t3]@[m] as int),
                        #[trigger] tiers@[t3]@[m],
                    ),
            decreases tier_ids@.len() - t2,
        {
            let row_ids = &tier_ids[t2];
            let mut row: Vec<T> = Vec::new();
            let mut m: usize = 0;
            while m < row_ids.len()
                invariant
                    m <= row_ids@.len(),
                    row@.len() == m,
                    row_ids@ == tier_ids@[t2 as int]@,
                    forall|m2: int|
                        0 <= m2 < m ==> cloned::<T>(
                            self.payload_at(row_ids@[m2] as int),
                            #[trigger] row@[m2],
                        ),
                decreases row_ids@.len() - m,
            {
                let id = row_ids[m];
                row.push(self.nodes[id].body.clone());
                m += 1;
            }
            tiers.push(row);
            t2 += 1;
        }
        let graph = Graph { tiers, tier_ids, order, tier: Ghost(tier@) };
        proof {
            let b = *self;
            let ids = graph.spec_tier_ids();
            assert(order_valid(b, graph.spec_order()));
            // Every tier number up to the highest is hit by some node.
            assert forall|t3: int| 0 <= t3 < ids.len() implies (#[trigger] ids[t3]).len() > 0 by {
                let w0 = choose|w: int| 0 <= w < n && tier@[w] == maxt;
                lemma_tier_descent(b, tier@, w0, t3);
                let w = choose|w: int| 0 <= w < b.node_count() && tier@[w] as int == t3;
                assert(contains_id(ids[t3], w));
            }
            assert(tiers_match(b, tier@, ids));
            assert forall|t1: int, m1: int, t4: int, m2: int|
                0 <= t1 < ids.len() && 0 <= m1 < ids[t1].len() && 0 <= t4 < ids.len() && 0 <= m2
                    < ids[t4].len() && b.edge(
                    #[trigger] ids[t1][m1] as int,
                    #[trigger] ids[t4][m2] as int,
                ) implies t1 < t4 by {
                lemma_edge_tier_lt(b, tier@, ids[t1][m1] as int, ids[t4][m2] as int);
            }
            assert(graph.valid(b));
        }
        Ok(graph)
    }
}

impl<T> Builder<T> {
    /// The handles of the nodes with an edge into `h`'s node, in insertion
    /// order.
    pub fn inbound_of(&self, h: &NodeHandle) -> (r: Vec<NodeHandle>)
        requires
            0 <= h.spec_id() < self.node_count(),
        ensures
            r@.len() == self.inbound_at(h.spec_id()).len(),
            forall|k: int|
                0 <= k < r@.len() ==> (#[trigger] r@[k]).spec_id() == self.inbound_at(
                    h.spec_id(),
                )[k] as int,
    {
        let list = &self.nodes[h.id].inbound;
        let mut r: Vec<NodeHandle> = Vec::new();
        let mut k: usize = 0;
        while k < list.len()
            invariant
                k <= list@.len(),
                list@ == self.inbound_at(h.spec_id()),
                r@.len() == k,
                forall|k2: int|
                    0 <= k2 < k ==> (#[trigger] r@[k2]).spec_id() == self.inbound_at(
                        h.spec_id(),
                    )[k2] as int,
            decreases list@.len() - k,
        {
            r.push(NodeHandle::new(list[k]));
            k += 1;
        }
        r
    }

    /// The handles of the nodes that `h`'s node has an edge into, in insertion
    /// order.
    pub fn outbound_of(&self, h: &NodeHandle) -> (r: Vec<NodeHandle>)
        requires
            0 <= h.spec_id() < self.node_count(),
        ensures
            r@.len() == self.outbound_at(h.spec_id()).len(),
            forall|k: int|
                0 <= k < r@.len() ==> (#[trigger] r@[k]).spec_id() == self.outbound_at(
                    h.spec_id(),
                )[k] as int,
    {
        let list = &self.nodes[h.id].outbound;
        let mut r: Vec<NodeHandle> = Vec::new();
        let mut k: usize = 0;
        while k < list.len()
            invariant
                k <= list@.len(),
                list@ == self.outbound_at(h.spec_id()),
                r@.len() == k,
                forall|k2: int|
                    0 <= k2 < k ==> (#[trigger] r@[k2]).spec_id() == self.outbound_at(
                        h.spec_id(),
                    )[k2] as int,
            decreases list@.len() - k,
        {
            r.push(NodeHandle::new(list[k]));
            k += 1;
        }
        r
    }
}

/// Law: the longest-path layering equation has at most one solution, so the
/// tier of every node is determined by the builder state alone.
pub proof fn lemma_tier_assignment_unique<T>(b: Builder<T>, t1: Seq<usize>, t2: Seq<usize>, u: int)
    requires
        b.wf(),
        t1.len() == b.node_count(),
        t2.len() == b.node_count(),
        forall|v: int| 0 <= v < b.node_count() ==> tier_eq(b, t1, v),
        forall|v: int| 0 <= v < b.node_count() ==> tier_eq(b, t2, v),
        0 <= u < b.node_count(),
    ensures
        t1[u] == t2[u],
    decreases t1[u] as int + t2[u] as int,
{
    assert(tier_eq(b, t1, u));
    assert(tier_eq(b, t2, u));
    if b.inbound_at(u).len() > 0 {
        let k1 = choose|k: int|
            0 <= k < b.inbound_at(u).len() && t1[u] as int == t1[b.inbound_at(
                u,
            )[k] as int] as int + 1;
        let p1 = b.inbound_at(u)[k1] as int;
        assert(0 <= p1 < b.node_count());
        assert((t2[p1] as int) < t2[u] as int);
        lemma_tier_assignment_unique(b, t1, t2, p1);
        assert(t1[u] as int <= t2[u] as int);
        let k2 = choose|k: int|
            0 <= k < b.inbound_at(u).len() && t2[u] as int == t2[b.inbound_at(
                u,
            )[k] as int] as int + 1;
        let p2 = b.inbound_at(u)[k2] as int;
        assert(0 <= p2 < b.node_count());
        assert((t1[p2] as int) < t1[u] as int);
        lemma_tier_assignment_unique(b, t1, t2, p2);
        assert(t2[u] as int <= t1[u] as int);
    }
}

/// Two strictly ascending id rows with the same members are the same row.
proof fn lemma_ascending_same_members_equal(r1: Seq<usize>, r2: Seq<usize>)
    requires
        forall|m1: int, m2: int| 0 <= m1 < m2 < r1.len() ==> r1[m1] < r1[m2],
        forall|m1: int, m2: int| 0 <= m1 < m2 < r2.len() ==> r2[m1] < r2[m2],
        forall|v: int| contains_id(r1, v) <==> contains_id(r2, v),
    ensures
        r1 == r2,
    decreases r1.len(),
{
    if r1.len() == 0 {
        if r2.len() > 0 {
            assert(contains_id(r2, r2[0] as int));
            assert(contains_id(r1, r2[0] as int));
            assert(false);
        }
        assert(r1 =~= r2);
    } else {
        assert(contains_id(r1, r1[0] as int));
        assert(contains_id(r2, r1[0] as int));
        if r2.len() == 0 {
            assert(false);
        }
        // Both heads are the least member, so they agree.
        let k1 = choose|k: int| 0 <= k < r2.len() && r2[k] as int == r1[0] as int;
        assert(r2[0] <= r2[k1]);
        assert(contains_id(r2, r2[0] as int));
        assert(contains_id(r1, r2[0] as int));
        let k2 = choose|k: int| 0 <= k < r1.len() && r1[k] as int == r2[0] as int;
        assert(r1[0] <= r1[k2]);
        assert(r1[0] == r2[0]);
        // The tails carry the remaining members, still ascending.
        let s1 = r1.subrange(1, r1.len() as int);
        let s2 = r2.subrange(1, r2.len() as int);
        assert forall|v: int| contains_id(s1, v) <==> contains_id(s2, v) by {
            lemma_tail_members(r1, v);
            lemma_tail_members(r2, v);
        }
        lemma_ascending_same_members_equal(s1, s2);
        assert(r1 =~= r2) by {
            assert forall|m: int| 0 <= m < r1.len() implies r1[m] == r2[m] by {
                if m > 0 {
                    assert(s1[m - 1] == s2[m - 1]);
                }
            }
        }
    }
}

/// In a strictly ascending row, the tail holds exactly the members other than
/// the head.
proof fn lemma_tail_members(r: Seq<usize>, v: int)
    requires
        r.len() > 0,
        forall|m1: int, m2: int| 0 <= m1 < m2 < r.len() ==> r[m1] < r[m2],
    ensures
        contains_id(r.subrange(1, r.len() as int), v) <==> (contains_id(r, v) && v != r[0] as int),
{
    let s = r.subrange(1, r.len() as int);
    if contains_id(s, v) {
        let k = choose|k: int| 0 <= k < s.len() && s[k] as int == v;
        assert(r[k + 1] as int == v);
        assert(r[0] < r[k + 1]);
    }
    if contains_id(r, v) && v != r[0] as int {
        let k = choose|k: int| 0 <= k < r.len() && r[k] as int == v;
        assert(k > 0);
        assert(s[k - 1] as int == v);
    }
}

/// Law: the tier structure of a built graph is determined by the builder
/// state alone, so repeated builds on an unchanged builder give identical
/// tiers. Any two valid graphs for the same builder agree on the tier of
/// every node and group the node ids into identical rows.
pub proof fn lemma_layering_deterministic<T: Clone>(b: Builder<T>, g1: Graph<T>, g2: Graph<T>)
    requires
        b.wf(),
        g1.valid(b),
        g2.valid(b),
    ensures
        g1.spec_tier_of() == g2.spec_tier_of(),
        g1.spec_tier_ids() == g2.spec_tier_ids(),
{
    let n = b.node_count();
    let t1 = g1.spec_tier_of();
    let t2 = g2.spec_tier_of();
    assert forall|u: int| 0 <= u < n implies t1[u] == t2[u] by {
        lemma_tier_assignment_unique(b, t1, t2, u);
    }
    assert(t1 =~= t2);
    let ids1 = g1.spec_tier_ids();
    let ids2 = g2.spec_tier_ids();
    // Same number of tiers: every row index is some node's tier.
    assert forall|t: int| 0 <= t < ids1.len() implies (#[trigger] ids1[t]).len() > 0 && t
        < ids2.len() by {
        assert(ids1[t].len() > 0);
        let w = ids1[t][0];
        assert(w < b.node_count());
        assert(t1[w as int] as int == t);
        assert(contains_id(ids2[t2[w as int] as int], w as int));
        assert((t2[w as int] as int) < ids2.len());
    }
    assert forall|t: int| 0 <= t < ids2.len() implies (#[trigger] ids2[t]).len() > 0 && t
        < ids1.len() by {
        assert(ids2[t].len() > 0);
        let w = ids2[t][0];
        assert(w < b.node_count());
        assert(t2[w as int] as int == t);
        assert(contains_id(ids1[t1[w as int] as int], w as int));
        assert((t1[w as int] as int) < ids1.len());
    }
    if ids1.len() > 0 {
        assert(ids1[ids1.len() - 1].len() > 0);
    }
    if ids2.len() > 0 {
        assert(ids2[ids2.len() - 1].len() > 0);
    }
    assert(ids1.len() == ids2.len());
    assert forall|t: int| 0 <= t < ids1.len() implies ids1[t] == ids2[t] by {
        assert forall|v: int| contains_id(ids1[t], v) <==> contains_id(ids2[t], v) by {
            lemma_row_members(b, t1, ids1, t, v);
            lemma_row_members(b, t2, ids2, t, v);
        }
        lemma_ascending_same_members_equal(ids1[t], ids2[t]);
    }
    assert(ids1 =~= ids2);
}

/// In a grouped layering, row `t` holds exactly the nodes whose tier is `t`.
proof fn lemma_row_members<T>(b: Builder<T>, tier: Seq<usize>, ids: Seq<Seq<usize>>, t: int, v: int)
    requires
        tiers_match(b, tier, ids),
        0 <= t < ids.len(),
    ensures
        contains_id(ids[t], v) <==> (0 <= v < b.node_count() && tier[v] as int == t),
{
    if contains_id(ids[t], v) {
        let k = choose|k: int| 0 <= k < ids[t].len() && ids[t][k] as int == v;
        assert(ids[t][k] < b.node_count());
        assert(tier[ids[t][k] as int] as int == t);
    }
    if 0 <= v < b.node_count() && tier[v] as int == t {
        assert(contains_id(ids[tier[v] as int], v));
    }
}

/// Some position of `s` holds the id `v`.
pub open spec fn contains_id(s: Seq<usize>, v: int) -> bool {
    exists|k: int| 0 <= k < s.len() && s[k] as int == v
}

/// Pushing onto a sequence adds exactly one membership fact.
proof fn lemma_push_contains(s: Seq<usize>, x: usize, y: int)
    ensures
        contains_id(s.push(x), y) <==> (contains_id(s, y) || y == x as int),
{
    if contains_id(s, y) {
        let k = choose|k: int| 0 <= k < s.len() && s[k] as int == y;
        assert(s.push(x)[k] as int == y);
    }
    assert(s.push(x)[s.len() as int] == x);
    if contains_id(s.push(x), y) && y != x as int {
        let k = choose|k: int| 0 <= k < s.push(x).len() && s.push(x)[k] as int == y;
        assert(s[k] as int == y);
    }
}

} // verus!
