//! The node arena, its well-formedness invariant, and the rank-aware
//! traversal and splice operations.
//!
//! A `SkipNode` anchors a chain of nodes held in an arena; every link is the
//! arena index ("handle") of the node it points to, and handle `0` is the
//! anchor itself.  The ghost field `order` records the arena handles of the
//! elements in chain order; well-formedness ties every link and every span
//! (`links_len`) to that order, which is what makes positional ranks
//! recoverable by summing spans at any level.

use vstd::prelude::*;
use vstd::seq_lib::group_seq_properties;

verus! {

broadcast use vstd::std_specs::vec::group_vec_axioms;

/// Where an insertion aimed `d` level-0 steps past an anchor lands in a chain
/// of `n` elements: distances beyond the end land at the end.
pub open spec fn clamped(d: int, n: int) -> int {
    if d <= n {
        d
    } else {
        n
    }
}

/// One node: an optional payload (`None` only for a head sentinel), the
/// zero-based height `level`, the backward handle `prev`, one forward handle
/// per level in `links`, and the parallel span counts in `links_len`.
pub struct Node<V> {
    pub value: Option<V>,
    pub level: usize,
    pub prev: Option<usize>,
    pub links: Vec<Option<usize>>,
    pub links_len: Vec<usize>,
}

/// A node together with the arena it anchors.  The anchor is `nodes[0]`; a
/// freshly created node anchors only itself, while a head sentinel that has
/// had elements spliced in anchors the whole chain.
pub struct SkipNode<V> {
    nodes: Vec<Node<V>>,
    order: Ghost<Seq<usize>>,
}

impl<V> SkipNode<V> {
    /// Number of elements in the chain (the anchor not counted).
    pub closed spec fn size(self) -> int {
        self.order@.len() as int
    }

    /// Number of slots in the arena (live nodes and vacated slots alike).
    pub closed spec fn arena_size(self) -> int {
        self.nodes@.len() as int
    }

    /// Arena handle of the node at chain position `p` (position 0 is the anchor).
    pub closed spec fn idx_at(self, p: int) -> usize {
        if p == 0 {
            0
        } else {
            self.order@[p - 1]
        }
    }

    /// The node record at chain position `p`.
    pub closed spec fn node_at(self, p: int) -> Node<V> {
        self.nodes@[self.idx_at(p) as int]
    }

    /// Height (level) of the node at chain position `p`.
    pub closed spec fn lv(self, p: int) -> int {
        self.node_at(p).level as int
    }

    /// Span recorded at level `l` by the node at chain position `p`.
    pub closed spec fn span(self, p: int, l: int) -> int {
        self.node_at(p).links_len@[l] as int
    }

    /// The element values in chain order.
    pub closed spec fn elems(self) -> Seq<V> {
        Seq::new(self.size() as nat, |i: int| self.node_at(i + 1).value->Some_0)
    }

    /// The element levels in chain order.
    pub closed spec fn lvls(self) -> Seq<int> {
        Seq::new(self.size() as nat, |i: int| self.lv(i + 1))
    }

    /// Number of levels the anchor participates in.
    pub closed spec fn height(self) -> int {
        self.node_at(0).level + 1
    }

    /// First chain position after `p` whose node reaches level `l`, or
    /// `size() + 1` when no such position exists.
    pub closed spec fn next_pos(self, p: int, l: int) -> int
        decreases self.size() - p,
    {
        if p < 0 || p >= self.size() {
            self.size() + 1
        } else if self.lv(p + 1) >= l {
            p + 1
        } else {
            self.next_pos(p + 1, l)
        }
    }

    /// The level-`l` link of the node at position `p` goes to the next
    /// position that reaches level `l`, and its span counts the level-0 steps
    /// to it — or to the end of the chain when there is no such position.
    pub closed spec fn link_ok(self, p: int, l: int) -> bool {
        let nd = self.node_at(p);
        let q = self.next_pos(p, l);
        if q <= self.size() {
            &&& nd.links@[l] == Some(self.idx_at(q))
            &&& nd.links_len@[l] == q - p
        } else {
            &&& nd.links@[l] is None
            &&& nd.links_len@[l] == self.size() - p
        }
    }

    pub closed spec fn node_ok(self, p: int) -> bool {
        let nd = self.node_at(p);
        &&& nd.links@.len() == nd.level + 1
        &&& nd.links_len@.len() == nd.level + 1
        &&& nd.level <= self.node_at(0).level
        &&& (p > 0 ==> nd.value is Some)
        &&& nd.prev == (if p == 0 {
            None
        } else {
            Some(self.idx_at(p - 1))
        })
        &&& forall|l: int| 0 <= l <= nd.level ==> self.link_ok(p, l)
    }

    /// Well-formedness: the recorded order is a duplicate-free list of valid
    /// arena handles, and every node's links and spans agree with it.
    pub closed spec fn wf(self) -> bool {
        &&& self.nodes@.len() >= 1
        &&& self.size() < self.arena_size()
        &&& self.order@.no_duplicates()
        &&& forall|i: int|
            0 <= i < self.size() ==> 1 <= #[trigger] self.order@[i] < self.nodes@.len()
        &&& forall|p: int| 0 <= p <= self.size() ==> #[trigger] self.node_ok(p)
    }

    /// Whether `h` is the handle of a node on the chain.
    pub closed spec fn live(self, h: usize) -> bool {
        h == 0 || self.order@.contains(h)
    }

    /// Chain position of the node with handle `h`.
    pub closed spec fn pos_of(self, h: usize) -> int {
        if h == 0 {
            0
        } else {
            self.order@.index_of(h) + 1
        }
    }

    /// A node that anchors only itself, ready to be spliced in.
    pub closed spec fn is_detached(self) -> bool {
        &&& self.wf()
        &&& self.size() == 0
        &&& self.nodes@.len() == 1
    }

    /// The anchor's own payload.
    pub closed spec fn node_value(self) -> Option<V> {
        if self.nodes@.len() == 0 {
            None
        } else {
            self.nodes@[0].value
        }
    }

    /// The anchor's own height.
    pub closed spec fn node_level(self) -> int {
        self.nodes@[0].level as int
    }

    /// The arena is an in-memory vector, so its slot count fits a `usize`.
    pub proof fn lemma_arena_fits(self)
        ensures
            self.arena_size() <= usize::MAX,
    {
        assert(vstd::std_specs::vec::spec_vec_len(&self.nodes) == self.nodes@.len());
    }

    /// As `lemma_pos_of_idx`, from the order facts alone.
    proof fn lemma_pos_of_idx_weak(self, p: int)
        requires
            self.nodes@.len() >= 1,
            self.order@.no_duplicates(),
            forall|i: int|
                0 <= i < self.size() ==> 1 <= #[trigger] self.order@[i] < self.nodes@.len(),
            0 <= p <= self.size(),
        ensures
            self.live(self.idx_at(p)),
            self.pos_of(self.idx_at(p)) == p,
            self.idx_at(p) < self.arena_size(),
            p > 0 ==> self.idx_at(p) >= 1,
    {
        broadcast use group_seq_properties;

        if p > 0 {
            let h = self.order@[p - 1];
            assert(self.order@.contains(h));
            let i = self.order@.index_of(h);
            assert(0 <= i < self.order@.len() && self.order@[i] == h);
            if i != p - 1 {
                assert(self.order@[i] == self.order@[p - 1]);
                assert(false);
            }
        }
    }

    /// Positions and handles are inverse to one another on a well-formed chain.
    pub proof fn lemma_pos_of_idx(self, p: int)
        requires
            self.wf(),
            0 <= p <= self.size(),
        ensures
            self.live(self.idx_at(p)),
            self.pos_of(self.idx_at(p)) == p,
            self.idx_at(p) < self.arena_size(),
            p > 0 ==> self.idx_at(p) >= 1,
    {
        self.lemma_pos_of_idx_weak(p);
    }

    /// As `lemma_idx_of_pos`, from the order facts alone.
    proof fn lemma_idx_of_pos_weak(self, h: usize)
        requires
            self.nodes@.len() >= 1,
            self.order@.no_duplicates(),
            forall|i: int|
                0 <= i < self.size() ==> 1 <= #[trigger] self.order@[i] < self.nodes@.len(),
            self.live(h),
        ensures
            0 <= self.pos_of(h) <= self.size(),
            self.idx_at(self.pos_of(h)) == h,
            h < self.arena_size(),
            h != 0 ==> self.pos_of(h) >= 1,
    {
        broadcast use group_seq_properties;

        if h != 0 {
            let i = self.order@.index_of(h);
            assert(0 <= i < self.order@.len() && self.order@[i] == h);
        }
    }

    /// Every live handle sits at a valid chain position.
    pub proof fn lemma_idx_of_pos(self, h: usize)
        requires
            self.wf(),
            self.live(h),
        ensures
            0 <= self.pos_of(h) <= self.size(),
            self.idx_at(self.pos_of(h)) == h,
            h < self.arena_size(),
            h != 0 ==> self.pos_of(h) >= 1,
    {
        broadcast use group_seq_properties;

        if h != 0 {
            let i = self.order@.index_of(h);
            assert(0 <= i < self.order@.len() && self.order@[i] == h);
        }
    }
}

fn filled_links(n: usize) -> (r: Vec<Option<usize>>)
    ensures
        r@.len() == n,
        forall|i: int| 0 <= i < n ==> r@[i] is None,
{
    let mut v: Vec<Option<usize>> = Vec::new();
    while v.len() < n
        invariant
            v@.len() <= n,
            forall|i: int| 0 <= i < v@.len() ==> v@[i] is None,
        decreases n - v@.len(),
    {
        v.push(None);
    }
    v
}

fn filled_lens(n: usize) -> (r: Vec<usize>)
    ensures
        r@.len() == n,
        forall|i: int| 0 <= i < n ==> r@[i] == 0,
{
    let mut v: Vec<usize> = Vec::new();
    while v.len() < n
        invariant
            v@.len() <= n,
            forall|i: int| 0 <= i < v@.len() ==> v@[i] == 0,
        decreases n - v@.len(),
    {
        v.push(0);
    }
    v
}

impl<V> SkipNode<V> {
    /// Create a head sentinel reaching `total_levels` levels: no payload, all
    /// links empty, all spans zero.
    pub fn head(total_levels: usize) -> (r: Self)
        requires
            1 <= total_levels,
        ensures
            r.wf(),
            r.size() == 0,
            r.elems() == Seq::<V>::empty(),
            r.height() == total_levels,
            r.node_value() is None,
    {
        let nd = Node {
            value: None,
            level: total_levels - 1,
            prev: None,
            links: filled_links(total_levels),
            links_len: filled_lens(total_levels),
        };
        let mut nodes: Vec<Node<V>> = Vec::new();
        nodes.push(nd);
        let r = SkipNode { nodes, order: Ghost(Seq::empty()) };
        proof {
            assert forall|p: int| 0 <= p <= r.size() implies #[trigger] r.node_ok(p) by {
                assert(forall|l: int| 0 <= l <= r.node_at(0).level ==> #[trigger] r.link_ok(0, l));
            }
            assert(r.elems() =~= Seq::<V>::empty());
        }
        r
    }

    /// Create a detached node carrying `value` at height `level`, to be
    /// spliced in later.
    pub fn new(value: V, level: usize) -> (r: Self)
        requires
            level < usize::MAX,
        ensures
            r.is_detached(),
            r.node_value() == Some(value),
            r.node_level() == level,
    {
        let nd = Node {
            value: Some(value),
            level,
            prev: None,
            links: filled_links(level + 1),
            links_len: filled_lens(level + 1),
        };
        let mut nodes: Vec<Node<V>> = Vec::new();
        nodes.push(nd);
        let r = SkipNode { nodes, order: Ghost(Seq::empty()) };
        proof {
            assert forall|p: int| 0 <= p <= r.size() implies #[trigger] r.node_ok(p) by {
                assert(forall|l: int| 0 <= l <= r.node_at(0).level ==> #[trigger] r.link_ok(0, l));
            }
        }
        r
    }

    /// Consume the anchor, returning the payload it carries.
    pub fn into_inner(self) -> (r: Option<V>)
        ensures
            r == self.node_value(),
    {
        let mut s = self;
        if s.nodes.len() >= 1 {
            let nd = s.nodes.remove(0);
            nd.value
        } else {
            None
        }
    }

    /// `next_pos` is the first position after `p` that reaches level `l`.
    pub proof fn lemma_next_pos(self, p: int, l: int)
        requires
            0 <= p <= self.size(),
        ensures
            p < self.next_pos(p, l) <= self.size() + 1,
            self.next_pos(p, l) <= self.size() ==> self.lv(self.next_pos(p, l)) >= l,
            forall|m: int| p < m < self.next_pos(p, l) && m <= self.size() ==> self.lv(m) < l,
        decreases self.size() - p,
    {
        if p >= self.size() {
        } else if self.lv(p + 1) >= l {
        } else {
            self.lemma_next_pos(p + 1, l);
        }
    }

    /// Any position with the first-after-`p` property is `next_pos`.
    pub proof fn lemma_next_pos_unique(self, p: int, l: int, q: int)
        requires
            0 <= p <= self.size(),
            p < q <= self.size() + 1,
            q <= self.size() ==> self.lv(q) >= l,
            forall|m: int| p < m < q && m <= self.size() ==> self.lv(m) < l,
        ensures
            self.next_pos(p, l) == q,
        decreases q - p,
    {
        if q == p + 1 {
        } else {
            assert(self.lv(p + 1) < l);
            self.lemma_next_pos_unique(p + 1, l, q);
        }
    }

    /// Relates first-after positions of two chains whose element levels agree
    /// except that `b` has one extra element spliced in at position `t + 1`.
    pub proof fn lemma_next_pos_shift(a: Self, b: Self, t: int, p: int, l: int)
        requires
            0 <= t <= a.size(),
            b.size() == a.size() + 1,
            forall|m: int| 1 <= m <= t ==> #[trigger] b.lv(m) == a.lv(m),
            forall|m: int| t + 2 <= m <= b.size() ==> #[trigger] b.lv(m) == a.lv(m - 1),
            0 <= p <= b.size(),
        ensures
            p <= t ==> b.next_pos(p, l) == (if a.next_pos(p, l) <= t {
                a.next_pos(p, l)
            } else if b.lv(t + 1) >= l {
                t + 1
            } else if a.next_pos(p, l) <= a.size() {
                a.next_pos(p, l) + 1
            } else {
                b.size() + 1
            }),
            p == t + 1 ==> b.next_pos(p, l) == (if a.next_pos(t, l) <= a.size() {
                a.next_pos(t, l) + 1
            } else {
                b.size() + 1
            }),
            p >= t + 2 ==> b.next_pos(p, l) == (if a.next_pos(p - 1, l) <= a.size() {
                a.next_pos(p - 1, l) + 1
            } else {
                b.size() + 1
            }),
    {
        if p <= t {
            let q = a.next_pos(p, l);
            a.lemma_next_pos(p, l);
            if q <= t {
                b.lemma_next_pos_unique(p, l, q);
            } else if b.lv(t + 1) >= l {
                assert forall|m: int| p < m < t + 1 && m <= b.size() implies b.lv(m) < l by {
                    assert(a.lv(m) < l);
                }
                b.lemma_next_pos_unique(p, l, t + 1);
            } else if q <= a.size() {
                assert forall|m: int| p < m < q + 1 && m <= b.size() implies b.lv(m) < l by {
                    if m <= t {
                        assert(a.lv(m) < l);
                    } else if m >= t + 2 {
                        assert(b.lv(m) == a.lv(m - 1));
                        assert(a.lv(m - 1) < l);
                    }
                }
                b.lemma_next_pos_unique(p, l, q + 1);
            } else {
                assert forall|m: int| p < m < b.size() + 1 && m <= b.size() implies b.lv(m)
                    < l by {
                    if m <= t {
                        assert(a.lv(m) < l);
                    } else if m >= t + 2 {
                        assert(a.lv(m - 1) < l);
                    }
                }
                b.lemma_next_pos_unique(p, l, b.size() + 1);
            }
        } else if p == t + 1 {
            let q = a.next_pos(t, l);
            a.lemma_next_pos(t, l);
            if q <= a.size() {
                assert forall|m: int| p < m < q + 1 && m <= b.size() implies b.lv(m) < l by {
                    assert(a.lv(m - 1) < l);
                }
                b.lemma_next_pos_unique(p, l, q + 1);
            } else {
                assert forall|m: int| p < m < b.size() + 1 && m <= b.size() implies b.lv(m)
                    < l by {
                    assert(a.lv(m - 1) < l);
                }
                b.lemma_next_pos_unique(p, l, b.size() + 1);
            }
        } else {
            let q = a.next_pos(p - 1, l);
            a.lemma_next_pos(p - 1, l);
            if q <= a.size() {
                assert forall|m: int| p < m < q + 1 && m <= b.size() implies b.lv(m) < l by {
                    assert(a.lv(m - 1) < l);
                }
                b.lemma_next_pos_unique(p, l, q + 1);
            } else {
                assert forall|m: int| p < m < b.size() + 1 && m <= b.size() implies b.lv(m)
                    < l by {
                    assert(a.lv(m - 1) < l);
                }
                b.lemma_next_pos_unique(p, l, b.size() + 1);
            }
        }
    }

    /// Whether the node with handle `node` is the chain's anchor (the only
    /// node with no predecessor).
    pub fn is_head(&self, node: usize) -> (r: bool)
        requires
            self.wf(),
            self.live(node),
        ensures
            r == (self.pos_of(node) == 0),
    {
        proof {
            self.lemma_idx_of_pos(node);
            assert(self.node_ok(self.pos_of(node)));
            if self.pos_of(node) > 0 {
                self.lemma_pos_of_idx(self.pos_of(node) - 1);
            }
        }
        self.nodes[node].prev.is_none()
    }

    /// Move forward from `node` along the level-`level` chain as long as the
    /// next hop keeps the total distance within `max_distance`; return the
    /// node reached and the distance travelled.
    #[verifier::spinoff_prover]
    pub fn advance_atmost(&self, node: usize, level: usize, max_distance: usize) -> (r: (
        usize,
        usize,
    ))
        requires
            self.wf(),
            self.live(node),
            level <= self.lv(self.pos_of(node)),
        ensures
            self.live(r.0),
            level <= self.lv(self.pos_of(r.0)),
            r.1 == self.pos_of(r.0) - self.pos_of(node),
            r.1 <= max_distance,
            self.pos_of(r.0) == self.pos_of(node) || self.lv(self.pos_of(r.0)) >= level,
            self.next_pos(self.pos_of(r.0), level as int) <= self.size() ==> self.next_pos(
                self.pos_of(r.0),
                level as int,
            ) - self.pos_of(node) > max_distance,
    {
        let ghost p0 = self.pos_of(node);
        proof {
            self.lemma_idx_of_pos(node);
        }
        let mut cur = node;
        let mut travelled: usize = 0;
        loop
            invariant
                self.wf(),
                self.live(cur),
                self.live(node),
                p0 == self.pos_of(node),
                0 <= p0 <= self.size(),
                travelled == self.pos_of(cur) - p0,
                travelled <= max_distance,
                level <= self.lv(self.pos_of(cur)),
                self.pos_of(cur) == p0 || self.lv(self.pos_of(cur)) >= level,
            decreases self.size() - self.pos_of(cur),
        {
            let ghost p = self.pos_of(cur);
            let ghost q = self.next_pos(p, level as int);
            proof {
                self.lemma_idx_of_pos(cur);
                assert(self.node_ok(p));
                assert(self.link_ok(p, level as int));
                self.lemma_next_pos(p, level as int);
                if q <= self.size() {
                    self.lemma_pos_of_idx(q);
                }
            }
            match self.nodes[cur].links[level] {
                Some(nxt) => {
                    let span = self.nodes[cur].links_len[level];
                    if span <= max_distance - travelled {
                        travelled = travelled + span;
                        cur = nxt;
                    } else {
                        return (cur, travelled);
                    }
                },
                None => {
                    return (cur, travelled);
                },
            }
        }
    }

    /// Distance at level `level` from `node` to `target`, or to the logical
    /// end of the chain when no target is given.  Fails exactly when the
    /// target lies behind the start node or is not linked at this level.
    #[verifier::spinoff_prover]
    pub fn distance(&self, node: usize, level: usize, target: Option<usize>) -> (r: Result<
        usize,
        (),
    >)
        requires
            self.wf(),
            self.live(node),
            level <= self.lv(self.pos_of(node)),
            target is Some ==> self.live(target->Some_0),
        ensures
            ({
                let p = self.pos_of(node);
                match target {
                    None => r == Ok::<usize, ()>((self.size() - p) as usize),
                    Some(t) => {
                        let pt = self.pos_of(t);
                        if pt == p || (pt > p && self.lv(pt) >= level) {
                            r == Ok::<usize, ()>((pt - p) as usize)
                        } else {
                            r == Err::<usize, ()>(())
                        }
                    },
                }
            }),
    {
        let ghost p0 = self.pos_of(node);
        proof {
            self.lemma_idx_of_pos(node);
        }
        match target {
            None => {
                let mut cur = node;
                let mut d: usize = 0;
                loop
                    invariant
                        target is None,
                        self.wf(),
                        self.live(cur),
                        p0 == self.pos_of(node),
                        0 <= p0 <= self.size(),
                        d == self.pos_of(cur) - p0,
                        level <= self.lv(self.pos_of(cur)),
                    decreases self.size() - self.pos_of(cur),
                {
                    let ghost p = self.pos_of(cur);
                    let ghost q = self.next_pos(p, level as int);
                    proof {
                        self.lemma_arena_fits();
                        self.lemma_idx_of_pos(cur);
                        assert(self.node_ok(p));
                        assert(self.link_ok(p, level as int));
                        self.lemma_next_pos(p, level as int);
                        if q <= self.size() {
                            self.lemma_pos_of_idx(q);
                        }
                    }
                    match self.nodes[cur].links[level] {
                        Some(nxt) => {
                            let span = self.nodes[cur].links_len[level];
                            d = d + span;
                            cur = nxt;
                        },
                        None => {
                            return Ok(d + self.nodes[cur].links_len[level]);
                        },
                    }
                }
            },
            Some(t) => {
                proof {
                    self.lemma_idx_of_pos(t);
                }
                let ghost pt = self.pos_of(t);
                let mut cur = node;
                let mut d: usize = 0;
                loop
                    invariant
                        self.wf(),
                        self.live(cur),
                        target == Some(t),
                        self.live(t),
                        pt == self.pos_of(t),
                        p0 == self.pos_of(node),
                        0 <= p0 <= self.size(),
                        d == self.pos_of(cur) - p0,
                        level <= self.lv(self.pos_of(cur)),
                        (pt == p0 || (pt > p0 && self.lv(pt) >= level)) ==> pt >= self.pos_of(
                            cur,
                        ),
                    decreases self.size() - self.pos_of(cur),
                {
                    let ghost p = self.pos_of(cur);
                    let ghost q = self.next_pos(p, level as int);
                    proof {
                        self.lemma_arena_fits();
                        self.lemma_idx_of_pos(cur);
                        self.lemma_idx_of_pos(t);
                        assert(self.node_ok(p));
                        assert(self.link_ok(p, level as int));
                        self.lemma_next_pos(p, level as int);
                        if q <= self.size() {
                            self.lemma_pos_of_idx(q);
                        }
                    }
                    if cur == t {
                        return Ok(d);
                    }
                    proof {
                        if p == pt {
                            self.lemma_pos_of_idx(p);
                            assert(cur == t);
                        }
                    }
                    match self.nodes[cur].links[level] {
                        Some(nxt) => {
                            let span = self.nodes[cur].links_len[level];
                            d = d + span;
                            cur = nxt;
                        },
                        None => {
                            return Err(());
                        },
                    }
                }
            },
        }
    }

    /// As `advance_atmost`, through a mutable handle on the chain; the chain
    /// itself is left unchanged.
    pub fn advance_atmost_mut(&mut self, node: usize, level: usize, max_distance: usize) -> (r: (
        usize,
        usize,
    ))
        requires
            old(self).wf(),
            old(self).live(node),
            level <= old(self).lv(old(self).pos_of(node)),
        ensures
            *final(self) == *old(self),
            old(self).live(r.0),
            level <= old(self).lv(old(self).pos_of(r.0)),
            r.1 == old(self).pos_of(r.0) - old(self).pos_of(node),
            r.1 <= max_distance,
            old(self).pos_of(r.0) == old(self).pos_of(node) || old(self).lv(
                old(self).pos_of(r.0),
            ) >= level,
            old(self).next_pos(old(self).pos_of(r.0), level as int) <= old(self).size()
                ==> old(self).next_pos(old(self).pos_of(r.0), level as int) - old(self).pos_of(
                node,
            ) > max_distance,
    {
        self.advance_atmost(node, level, max_distance)
    }

    /// Two chains of the same length and the same element levels agree on
    /// every first-after position.
    pub proof fn lemma_next_pos_agree(a: Self, b: Self, p: int, l: int)
        requires
            a.size() == b.size(),
            forall|m: int| 1 <= m <= a.size() ==> #[trigger] a.lv(m) == b.lv(m),
            0 <= p <= a.size(),
        ensures
            a.next_pos(p, l) == b.next_pos(p, l),
        decreases a.size() - p,
    {
        if p < a.size() {
            if a.lv(p + 1) >= l {
            } else {
                Self::lemma_next_pos_agree(a, b, p + 1, l);
            }
        }
    }

    /// Intermediate state of the bottom-up link patch during an insertion:
    /// `s` is `os` with one node of level `kk` spliced in at position
    /// `t + 1` (arena slot `ni`), its links correct below level `lb` and
    /// untouched from `lb` up.
    spec fn insert_inv(
        os: Self,
        s: Self,
        upd: Seq<usize>,
        tdist: Seq<usize>,
        distance: int,
        t: int,
        kk: int,
        ni: usize,
        vv: Option<V>,
        lb: int,
    ) -> bool {
        let top = os.node_at(0).level as int;
        &&& os.wf()
        &&& 0 <= lb <= top + 1
        &&& upd.len() == top + 1
        &&& tdist.len() == top + 1
        &&& ni as int == os.arena_size()
        &&& 0 <= kk <= top
        &&& 0 <= t <= os.size()
        &&& t == clamped(distance, os.size())
        &&& t == tdist[0]
        &&& vv is Some
        &&& (forall|j: int|
            0 <= j <= top ==> {
                &&& os.live(#[trigger] upd[j])
                &&& os.pos_of(upd[j]) == tdist[j]
                &&& tdist[j] <= t
                &&& j <= os.lv(tdist[j] as int)
                &&& (os.next_pos(tdist[j] as int, j) <= os.size() ==> os.next_pos(
                    tdist[j] as int,
                    j,
                ) > distance)
            })
        &&& s.arena_size() == os.arena_size() + 1
        &&& s.size() == os.size() + 1
        &&& s.order@ == os.order@.insert(t, ni)
        &&& s.order@.no_duplicates()
        &&& (forall|i: int| 0 <= i < s.size() ==> 1 <= #[trigger] s.order@[i] < s.nodes@.len())
        &&& (forall|p: int| 0 <= p <= t ==> #[trigger] s.idx_at(p) == os.idx_at(p))
        &&& s.idx_at(t + 1) == ni
        &&& (forall|p: int| t + 2 <= p <= s.size() ==> #[trigger] s.idx_at(p) == os.idx_at(p - 1))
        &&& (forall|m: int| 1 <= m <= t ==> #[trigger] s.lv(m) == os.lv(m))
        &&& s.lv(0) == top
        &&& s.lv(t + 1) == kk
        &&& (forall|m: int| t + 2 <= m <= s.size() ==> #[trigger] s.lv(m) == os.lv(m - 1))
        &&& (forall|m: int| 1 <= m <= t ==> #[trigger] s.node_at(m).value == os.node_at(m).value)
        &&& s.node_at(t + 1).value == vv
        &&& (forall|m: int|
            t + 2 <= m <= s.size() ==> #[trigger] s.node_at(m).value == os.node_at(m - 1).value)
        &&& (forall|p: int|
            0 <= p <= s.size() ==> {
                let nd = #[trigger] s.node_at(p);
                &&& nd.links@.len() == nd.level + 1
                &&& nd.links_len@.len() == nd.level + 1
                &&& nd.level <= top
                &&& (p > 0 ==> nd.value is Some)
                &&& nd.prev == (if p == 0 {
                    None
                } else {
                    Some(s.idx_at(p - 1))
                })
            })
        &&& (forall|p: int, j: int|
            0 <= p <= s.size() && 0 <= j < lb && j <= s.lv(p) ==> #[trigger] s.link_ok(p, j))
        &&& (forall|p: int, j: int|
            0 <= p <= s.size() && lb <= j <= s.lv(p) && p != t + 1 ==> {
                let m = (if p <= t {
                    p
                } else {
                    p - 1
                });
                &&& #[trigger] s.node_at(p).links@[j] == os.node_at(m).links@[j]
                &&& s.node_at(p).links_len@[j] == os.node_at(m).links_len@[j]
            })
        &&& (forall|j: int|
            lb <= j <= kk ==> (#[trigger] s.node_at(t + 1).links@[j] is None && s.node_at(
                t + 1,
            ).links_len@[j] == 0))
    }

    /// One level of the bottom-up patch: given the patch state at level `lc`
    /// and the two (or one) link writes of that level, the state advances to
    /// level `lc + 1`.
    #[verifier::rlimit(100)]
    #[verifier::spinoff_prover]
    proof fn lemma_insert_patch(
        os: Self,
        s0: Self,
        s: Self,
        upd: Seq<usize>,
        tdist: Seq<usize>,
        distance: int,
        t: int,
        kk: int,
        ni: usize,
        vv: Option<V>,
        lc: int,
        ph: usize,
        tl: int,
    )
        requires
            Self::insert_inv(os, s0, upd, tdist, distance, t, kk, ni, vv, lc),
            0 <= lc <= os.node_at(0).level,
            ph == upd[lc],
            tl == tdist[lc],
            s.order@ == s0.order@,
            s.nodes@.len() == s0.nodes@.len(),
            forall|x: int|
                0 <= x < s.nodes@.len() && x != ph && x != ni ==> #[trigger] s.nodes@[x]
                    == s0.nodes@[x],
            s.nodes@[ph as int].value == s0.nodes@[ph as int].value,
            s.nodes@[ph as int].level == s0.nodes@[ph as int].level,
            s.nodes@[ph as int].prev == s0.nodes@[ph as int].prev,
            lc <= kk ==> {
                &&& s.nodes@[ph as int].links@ == s0.nodes@[ph as int].links@.update(
                    lc,
                    Some(ni),
                )
                &&& s.nodes@[ph as int].links_len@ == s0.nodes@[ph as int].links_len@.update(
                    lc,
                    (t - tl + 1) as usize,
                )
                &&& s.nodes@[ni as int].value == s0.nodes@[ni as int].value
                &&& s.nodes@[ni as int].level == s0.nodes@[ni as int].level
                &&& s.nodes@[ni as int].prev == s0.nodes@[ni as int].prev
                &&& s.nodes@[ni as int].links@ == s0.nodes@[ni as int].links@.update(
                    lc,
                    s0.nodes@[ph as int].links@[lc],
                )
                &&& s.nodes@[ni as int].links_len@ == s0.nodes@[ni as int].links_len@.update(
                    lc,
                    (s0.nodes@[ph as int].links_len@[lc] - (t - tl)) as usize,
                )
            },
            lc > kk ==> {
                &&& s.nodes@[ph as int].links@ == s0.nodes@[ph as int].links@
                &&& s.nodes@[ph as int].links_len@ == s0.nodes@[ph as int].links_len@.update(
                    lc,
                    (s0.nodes@[ph as int].links_len@[lc] + 1) as usize,
                )
                &&& s.nodes@[ni as int] == s0.nodes@[ni as int]
            },
        ensures
            Self::insert_inv(os, s, upd, tdist, distance, t, kk, ni, vv, lc + 1),
    {
        let top = os.node_at(0).level as int;
        let ff = os.next_pos(tl, lc);
        os.lemma_arena_fits();
        assert(os.live(upd[lc]) && os.pos_of(upd[lc]) == tdist[lc] && tdist[lc] <= t && lc
            <= os.lv(tl));
        os.lemma_idx_of_pos(ph);
        assert(os.idx_at(tl) == ph && ph < os.arena_size());
        assert(ph != ni);
        assert(s0.idx_at(tl) == os.idx_at(tl));
        assert(s0.node_at(tl) == s0.nodes@[ph as int]);
        assert(s.idx_at(tl) == s0.idx_at(tl));
        assert(os.node_ok(tl));
        assert(os.link_ok(tl, lc));
        os.lemma_next_pos(tl, lc);
        assert(ff > t) by {
            if ff <= os.size() {
                assert(ff > distance);
            }
        }
        assert(s0.node_at(tl).links@[lc] == os.node_at(tl).links@[lc]) by {
            assert(s0.lv(tl) >= lc) by {
                if tl > 0 {
                    assert(s0.lv(tl) == os.lv(tl));
                }
            }
        }
        assert(s0.node_at(tl).links_len@[lc] == os.node_at(tl).links_len@[lc]);
        assert(s0.nodes@[ph as int].links_len@[lc] == os.node_at(tl).links_len@[lc]);
        assert(os.node_at(tl).links_len@[lc] == (if ff <= os.size() {
            ff - tl
        } else {
            os.size() - tl
        }));
        assert(0 <= t - tl + 1 <= usize::MAX);
        assert(os.node_at(tl).links_len@[lc] - (t - tl) >= 0);
        assert(os.node_at(tl).links_len@[lc] + 1 <= usize::MAX);
        assert(s0.idx_at(t + 1) == ni && s.idx_at(t + 1) == ni);
        assert(s.node_at(t + 1) == s.nodes@[ni as int]);
        assert(s0.node_at(t + 1) == s0.nodes@[ni as int]);
        // the untouched fields carry over position by position
        assert(s.order@ == os.order@.insert(t, ni));
        assert forall|p3: int| 0 <= p3 <= s.size() implies {
            let nd = #[trigger] s.node_at(p3);
            let n0 = s0.node_at(p3);
            &&& nd.level == n0.level
            &&& nd.value == n0.value
            &&& nd.prev == n0.prev
            &&& nd.links@.len() == n0.links@.len()
            &&& nd.links_len@.len() == n0.links_len@.len()
        } by {
            assert(s.idx_at(p3) == s0.idx_at(p3));
        }
        assert forall|m: int| 1 <= m <= t implies #[trigger] s.lv(m) == os.lv(m) by {
            assert(s.lv(m) == s0.lv(m));
            assert(s0.lv(m) == os.lv(m));
        }
        assert(s.lv(t + 1) == kk) by {
            assert(s.lv(t + 1) == s0.lv(t + 1));
        }
        assert(s.lv(0) == top) by {
            assert(s.lv(0) == s0.lv(0));
        }
        assert forall|m: int| t + 2 <= m <= s.size() implies #[trigger] s.lv(m) == os.lv(m - 1) by {
            assert(s.lv(m) == s0.lv(m));
            assert(s0.lv(m) == os.lv(m - 1));
        }
        assert forall|m: int| 1 <= m <= t implies #[trigger] s.node_at(m).value == os.node_at(
            m,
        ).value by {
            assert(s.node_at(m).value == s0.node_at(m).value);
        }
        assert(s.node_at(t + 1).value == vv) by {
            assert(s.node_at(t + 1).value == s0.node_at(t + 1).value);
        }
        assert forall|m: int| t + 2 <= m <= s.size() implies #[trigger] s.node_at(m).value
            == os.node_at(m - 1).value by {
            assert(s.node_at(m).value == s0.node_at(m).value);
        }
        assert forall|p3: int| 0 <= p3 <= s.size() implies {
            let nd = #[trigger] s.node_at(p3);
            &&& nd.links@.len() == nd.level + 1
            &&& nd.links_len@.len() == nd.level + 1
            &&& nd.level <= top
            &&& (p3 > 0 ==> nd.value is Some)
            &&& nd.prev == (if p3 == 0 {
                None
            } else {
                Some(s.idx_at(p3 - 1))
            })
        } by {
            assert(s.idx_at(p3) == s0.idx_at(p3));
            if p3 > 0 {
                assert(s.idx_at(p3 - 1) == s0.idx_at(p3 - 1));
            }
        }
        // links below the patched level are untouched and stay correct
        assert forall|p2: int, j2: int|
            0 <= p2 <= s.size() && 0 <= j2 < lc && j2 <= s.lv(p2) implies #[trigger] s.link_ok(
            p2,
            j2,
        ) by {
            assert(s0.link_ok(p2, j2));
            Self::lemma_next_pos_agree(s0, s, p2, j2);
            assert(s.node_at(p2).links@[j2] == s0.node_at(p2).links@[j2] && s.node_at(
                p2,
            ).links_len@[j2] == s0.node_at(p2).links_len@[j2]) by {
                assert(s.idx_at(p2) == s0.idx_at(p2));
            }
            assert forall|q3: int| 0 <= q3 <= s.size() implies #[trigger] s.idx_at(q3)
                == s0.idx_at(q3) by {}
        }
        // the patched level itself
        assert forall|p2: int| 0 <= p2 <= s.size() && lc <= s.lv(p2) implies s.link_ok(
            p2,
            lc,
        ) by {
            Self::lemma_next_pos_shift(os, s, t, p2, lc);
            if p2 == tl {
                if lc <= kk {
                    assert(s.next_pos(tl, lc) == t + 1);
                    assert(s.node_at(tl).links@[lc] == Some(ni));
                    assert(s.node_at(tl).links_len@[lc] == t - tl + 1);
                    assert(s.link_ok(p2, lc));
                } else {
                    assert(s.node_at(tl).links@[lc] == os.node_at(tl).links@[lc]);
                    assert(s.node_at(tl).links_len@[lc] == os.node_at(tl).links_len@[lc] + 1);
                    if ff <= os.size() {
                        os.lemma_pos_of_idx(ff);
                        assert(s.next_pos(tl, lc) == ff + 1);
                        assert(s.idx_at(ff + 1) == os.idx_at(ff));
                        assert(s.link_ok(p2, lc));
                    } else {
                        assert(s.next_pos(tl, lc) == s.size() + 1);
                        assert(s.link_ok(p2, lc));
                    }
                }
            } else if p2 == t + 1 {
                assert(lc <= kk);
                os.lemma_next_pos_unique(t, lc, ff);
                assert(s.node_at(p2).links@[lc] == os.node_at(tl).links@[lc]);
                assert(s.node_at(p2).links_len@[lc] == os.node_at(tl).links_len@[lc] - (t
                    - tl));
                if ff <= os.size() {
                    os.lemma_pos_of_idx(ff);
                    assert(s.next_pos(p2, lc) == ff + 1);
                    assert(s.idx_at(ff + 1) == os.idx_at(ff));
                    assert(s.link_ok(p2, lc));
                } else {
                    assert(s.next_pos(p2, lc) == s.size() + 1);
                    assert(s.link_ok(p2, lc));
                }
            } else {
                // a node the patch does not touch at this level
                let m = (if p2 <= t {
                    p2
                } else {
                    p2 - 1
                });
                os.lemma_pos_of_idx(m);
                assert(s.idx_at(p2) == s0.idx_at(p2) && s0.idx_at(p2) == os.idx_at(m));
                assert(s.idx_at(p2) != ph) by {
                    if s.idx_at(p2) == ph {
                        s.lemma_pos_of_idx_weak(p2);
                        s.lemma_pos_of_idx_weak(tl);
                        assert(p2 == tl);
                    }
                }
                assert(s.idx_at(p2) != ni) by {
                    if s.idx_at(p2) == ni {
                        s.lemma_pos_of_idx_weak(p2);
                        s.lemma_pos_of_idx_weak(t + 1);
                        assert(p2 == t + 1);
                    }
                }
                assert(s.node_at(p2) == s0.node_at(p2)) by {
                    assert(s.nodes@[s.idx_at(p2) as int] == s0.nodes@[s.idx_at(p2) as int]);
                }
                assert(s0.lv(p2) == s.lv(p2));
                assert(s0.node_at(p2).links@[lc] == os.node_at(m).links@[lc]);
                assert(s0.node_at(p2).links_len@[lc] == os.node_at(m).links_len@[lc]);
                assert(os.node_ok(m));
                assert(lc <= os.lv(m)) by {
                    if m > 0 {
                        if p2 <= t {
                            assert(s.lv(p2) == os.lv(p2));
                        } else {
                            assert(s.lv(p2) == os.lv(p2 - 1));
                        }
                    }
                }
                assert(os.link_ok(m, lc));
                let q2 = os.next_pos(m, lc);
                os.lemma_next_pos(m, lc);
                if p2 <= t {
                    if p2 > tl {
                        assert(tl < p2 < ff && p2 <= os.size());
                        assert(os.lv(p2) < lc);
                        assert(s.lv(p2) == os.lv(p2));
                        assert(false);
                    }
                    assert(p2 < tl);
                    assert(q2 <= tl) by {
                        if q2 > tl {
                            assert(p2 < tl < q2 && tl <= os.size());
                            assert(os.lv(tl) < lc);
                        }
                    }
                    os.lemma_pos_of_idx(q2);
                    assert(s.next_pos(p2, lc) == q2);
                    assert(s.idx_at(q2) == os.idx_at(q2));
                    assert(s.link_ok(p2, lc));
                } else {
                    assert(p2 >= t + 2);
                    if q2 <= os.size() {
                        os.lemma_pos_of_idx(q2);
                        assert(s.next_pos(p2, lc) == q2 + 1);
                        assert(s.idx_at(q2 + 1) == os.idx_at(q2));
                        assert(s.link_ok(p2, lc));
                    } else {
                        assert(s.next_pos(p2, lc) == s.size() + 1);
                        assert(s.link_ok(p2, lc));
                    }
                }
            }
        }
        // links above the patched level stay untouched
        assert forall|p2: int, j2: int|
            0 <= p2 <= s.size() && lc + 1 <= j2 <= s.lv(p2) && p2 != t + 1 implies {
            let m = (if p2 <= t {
                p2
            } else {
                p2 - 1
            });
            &&& #[trigger] s.node_at(p2).links@[j2] == os.node_at(m).links@[j2]
            &&& s.node_at(p2).links_len@[j2] == os.node_at(m).links_len@[j2]
        } by {
            let m = (if p2 <= t {
                p2
            } else {
                p2 - 1
            });
            assert(s.idx_at(p2) == s0.idx_at(p2));
            assert(s0.lv(p2) == s.lv(p2));
            assert(s0.node_at(p2).links@[j2] == os.node_at(m).links@[j2]);
            assert(s0.node_at(p2).links_len@[j2] == os.node_at(m).links_len@[j2]);
            if s.idx_at(p2) == ph {
                assert(s.nodes@[ph as int].links@[j2] == s0.nodes@[ph as int].links@[j2]);
                assert(s.nodes@[ph as int].links_len@[j2] == s0.nodes@[
                    ph as int
                ].links_len@[j2]);
            } else if s.idx_at(p2) == ni {
                assert(s.nodes@[ni as int].links@[j2] == s0.nodes@[ni as int].links@[j2]);
                assert(s.nodes@[ni as int].links_len@[j2] == s0.nodes@[
                    ni as int
                ].links_len@[j2]);
            } else {
                assert(s.nodes@[s.idx_at(p2) as int] == s0.nodes@[s.idx_at(p2) as int]);
            }
        }
        assert forall|j2: int|
            lc + 1 <= j2 <= kk implies (#[trigger] s.node_at(t + 1).links@[j2] is None
                && s.node_at(t + 1).links_len@[j2] == 0) by {
            assert(s0.node_at(t + 1).links@[j2] is None);
            assert(s0.node_at(t + 1).links_len@[j2] == 0);
            assert(s.nodes@[ni as int].links@[j2] == s0.nodes@[ni as int].links@[j2]);
            assert(s.nodes@[ni as int].links_len@[j2] == s0.nodes@[ni as int].links_len@[j2]);
        }
        assert forall|p2: int, j2: int|
            0 <= p2 <= s.size() && 0 <= j2 < lc + 1 && j2 <= s.lv(p2) implies #[trigger] s.link_ok(
            p2,
            j2,
        ) by {
            if j2 == lc {
                assert(s.link_ok(p2, lc));
            } else {
                assert(s.link_ok(p2, j2));
            }
        }
        assert(Self::insert_inv(os, s, upd, tdist, distance, t, kk, ni, vv, lc + 1));
    }

    /// Splice a detached node in `distance` level-0 steps after the anchor
    /// (or at the reachable end when the chain is shorter), keeping every
    /// span at every level consistent; returns the new node's handle and the
    /// actual distance from the anchor to it.
    #[verifier::rlimit(100)]
    #[verifier::spinoff_prover]
    pub fn insert(&mut self, new_node: SkipNode<V>, distance: usize) -> (r: (usize, usize))
        requires
            old(self).wf(),
            new_node.is_detached(),
            new_node.node_value() is Some,
            new_node.node_level() < old(self).height(),
        ensures
            final(self).wf(),
            final(self).size() == old(self).size() + 1,
            final(self).height() == old(self).height(),
            final(self).elems() == old(self).elems().insert(
                clamped(distance as int, old(self).size()),
                new_node.node_value()->Some_0,
            ),
            final(self).lvls() == old(self).lvls().insert(
                clamped(distance as int, old(self).size()),
                new_node.node_level(),
            ),
            final(self).live(r.0),
            final(self).pos_of(r.0) == clamped(distance as int, old(self).size()) + 1,
            r.1 == clamped(distance as int, old(self).size()) + 1,
    {
        let ghost os = *old(self);
        let ghost kk = new_node.node_level();
        let ghost vv = new_node.node_value();
        proof {
            os.lemma_arena_fits();
        }
        let mut nn = new_node;
        let mut rec = nn.nodes.remove(0);
        let k = rec.level;
        proof {
            assert(new_node.node_ok(0));
            assert(rec.links@.len() == k + 1 && rec.links_len@.len() == k + 1);
            assert forall|j: int| 0 <= j <= k implies (#[trigger] rec.links@[j] is None
                && rec.links_len@[j] == 0) by {
                assert(new_node.link_ok(0, j));
            }
        }
        let new_idx = self.nodes.len();

        // First pass: descend level by level, recording for each level the
        // last node reachable within the remaining distance budget.
        let top = self.nodes[0].level;
        let cap = self.nodes[0].links.len();
        proof {
            assert(os.node_ok(0));
            assert(cap == top + 1);
        }
        let mut upd = filled_lens(cap);
        let mut tdist = filled_lens(cap);
        let mut cur: usize = 0;
        let mut left: usize = distance;
        let mut l: usize = cap;
        while l > 0
            invariant
                os == *old(self),
                *self == os,
                os.wf(),
                top == os.node_at(0).level,
                new_idx == os.arena_size(),
                l <= top + 1,
                upd@.len() == top + 1,
                tdist@.len() == top + 1,
                os.live(cur),
                left <= distance,
                os.pos_of(cur) == distance - left,
                os.pos_of(cur) <= os.size(),
                l >= 1 ==> l - 1 <= os.lv(os.pos_of(cur)),
                l == 0 ==> tdist@[0] == distance - left,
                forall|j: int|
                    l <= j <= top ==> {
                        &&& os.live(#[trigger] upd@[j])
                        &&& os.pos_of(upd@[j]) == tdist@[j]
                        &&& tdist@[j] <= distance - left
                        &&& j <= os.lv(tdist@[j] as int)
                        &&& (os.next_pos(tdist@[j] as int, j) <= os.size() ==> os.next_pos(
                            tdist@[j] as int,
                            j,
                        ) > distance)
                    },
            decreases l,
        {
            l = l - 1;
            let (nxt, dl) = self.advance_atmost(cur, l, left);
            left = left - dl;
            upd[l] = nxt;
            tdist[l] = distance - left;
            cur = nxt;
        }

        let p0h = upd[0];
        let t0u = tdist[0];
        let ghost t = t0u as int;
        proof {
            assert(os.pos_of(upd@[0]) == t && t <= os.size());
            os.lemma_next_pos(t, 0);
            if t < os.size() {
                assert(os.next_pos(t, 0) == t + 1);
                assert(t == distance);
            }
            assert(t == clamped(distance as int, os.size()));
            os.lemma_idx_of_pos(p0h);
            assert(os.node_ok(t));
            assert(os.link_ok(t, 0));
        }
        let old_next = self.nodes[p0h].links[0];
        rec.prev = Some(p0h);
        self.nodes.push(rec);
        proof {
            if os.next_pos(t, 0) <= os.size() {
                os.lemma_pos_of_idx(t + 1);
            }
        }
        match old_next {
            Some(nx) => {
                proof {
                    assert(os.next_pos(t, 0) <= os.size());
                    assert(nx == os.idx_at(t + 1) && nx < os.arena_size());
                }
                self.nodes[nx].prev = Some(new_idx);
            },
            None => {},
        }
        self.order = Ghost(os.order@.insert(t, new_idx));
        proof {
            os.order@.insert_ensures(t, new_idx);
            assert forall|i: int, j: int|
                0 <= i < self.order@.len() && 0 <= j < self.order@.len() && i != j implies self
                .order@[i] != self.order@[j] by {
                let a = (if i < t {
                    i
                } else {
                    i - 1
                });
                let b = (if j < t {
                    j
                } else {
                    j - 1
                });
                if i != t && j != t {
                    assert(self.order@[i] == os.order@[a] && self.order@[j] == os.order@[b]);
                } else if i == t {
                    assert(self.order@[i] == new_idx && self.order@[j] == os.order@[b]);
                    assert(os.order@[b] < new_idx);
                } else {
                    assert(self.order@[j] == new_idx && self.order@[i] == os.order@[a]);
                    assert(os.order@[a] < new_idx);
                }
            }
            assert(self.order@.no_duplicates());
            assert forall|p: int| 0 <= p <= t implies #[trigger] self.idx_at(p) == os.idx_at(
                p,
            ) by {
                if p > 0 {
                    assert(self.order@[p - 1] == os.order@[p - 1]);
                }
            }
            assert(self.idx_at(t + 1) == new_idx);
            assert forall|p: int| t + 2 <= p <= self.size() implies #[trigger] self.idx_at(p)
                == os.idx_at(p - 1) by {
                assert(self.order@[p - 1] == os.order@[p - 2]);
            }
            // arena frame facts: only the pushed slot and the old successor's
            // back-link differ from the old arena
            assert(self.nodes@.len() == os.nodes@.len() + 1);
            let ghost ni = new_idx as int;
            assert(self.nodes@[ni].value == vv);
            assert(self.nodes@[ni].level as int == kk);
            assert(self.nodes@[ni].prev == Some(p0h));
            assert(self.nodes@[ni].links@.len() == kk + 1);
            assert(self.nodes@[ni].links_len@.len() == kk + 1);
            assert(forall|j: int|
                0 <= j <= kk ==> #[trigger] self.nodes@[ni].links@[j] is None
                    && self.nodes@[ni].links_len@[j] == 0);
            if old_next is Some {
                let nx = old_next->Some_0 as int;
                assert(self.nodes@[nx].value == os.nodes@[nx].value);
                assert(self.nodes@[nx].level == os.nodes@[nx].level);
                assert(self.nodes@[nx].links@ == os.nodes@[nx].links@);
                assert(self.nodes@[nx].links_len@ == os.nodes@[nx].links_len@);
                assert(self.nodes@[nx].prev == Some(new_idx));
                assert(forall|s: int|
                    0 <= s < os.arena_size() && s != nx ==> #[trigger] self.nodes@[s]
                        == os.nodes@[s]);
            } else {
                assert(forall|s: int|
                    0 <= s < os.arena_size() ==> #[trigger] self.nodes@[s] == os.nodes@[s]);
            }
            // field mappings by chain position
            assert forall|p: int| 0 <= p <= self.size() && p != t + 1 implies {
                let m = (if p <= t {
                    p
                } else {
                    p - 1
                });
                let nd = #[trigger] self.node_at(p);
                let no = os.node_at(m);
                &&& nd.value == no.value
                &&& nd.level == no.level
                &&& nd.links@ == no.links@
                &&& nd.links_len@ == no.links_len@
            } by {
                let m = (if p <= t {
                    p
                } else {
                    p - 1
                });
                os.lemma_pos_of_idx(m);
                if old_next is Some && self.idx_at(p) == old_next->Some_0 {
                    os.lemma_pos_of_idx(t + 1);
                    assert(m == t + 1);
                }
            }
            assert forall|p: int| 0 <= p <= self.size() implies {
                let nd = #[trigger] self.node_at(p);
                &&& nd.links@.len() == nd.level + 1
                &&& nd.links_len@.len() == nd.level + 1
                &&& nd.level <= top
                &&& (p > 0 ==> nd.value is Some)
            } by {
                if p == t + 1 {
                    assert(self.node_at(p) == self.nodes@[new_idx as int]);
                } else {
                    let m = (if p <= t {
                        p
                    } else {
                        p - 1
                    });
                    assert(os.node_ok(m));
                }
            }
            assert forall|p: int| 0 <= p <= self.size() implies #[trigger] self.node_at(p).prev
                == (if p == 0 {
                None
            } else {
                Some(self.idx_at(p - 1))
            }) by {
                os.lemma_pos_of_idx(t);
                if p == t + 1 {
                } else if p == 0 {
                    assert(os.node_ok(0));
                    if old_next is Some {
                        os.lemma_pos_of_idx(t + 1);
                    }
                } else {
                    let m = (if p <= t {
                        p
                    } else {
                        p - 1
                    });
                    assert(os.node_ok(m));
                    os.lemma_pos_of_idx(m);
                    if old_next is Some && self.idx_at(p) == old_next->Some_0 {
                        os.lemma_pos_of_idx(t + 1);
                        assert(m == t + 1);
                        assert(p == t + 2);
                        assert(self.idx_at(p - 1) == new_idx);
                    } else {
                        if p == t + 2 {
                            assert(os.next_pos(t, 0) == t + 1);
                            assert(os.link_ok(t, 0));
                            assert(false);
                        }
                        assert(os.node_at(m).prev == Some(os.idx_at(m - 1)));
                        if p <= t {
                            assert(self.idx_at(p - 1) == os.idx_at(p - 1));
                        } else {
                            assert(p >= t + 3);
                            assert(self.idx_at(p - 1) == os.idx_at(p - 2));
                        }
                    }
                }
            }
        }

        // Second pass: patch links level by level from the bottom up.  At the
        // new node's own levels the predecessor's link is split around the
        // new node; above them the crossing span just grows by one.
        proof {
            assert(Self::insert_inv(
                os,
                *self,
                upd@,
                tdist@,
                distance as int,
                t,
                kk,
                new_idx,
                vv,
                0,
            ));
        }
        let mut l2: usize = 0;
        while l2 <= top
            invariant
                os == *old(self),
                top == os.node_at(0).level,
                top < usize::MAX,
                l2 <= top + 1,
                upd@.len() == top + 1,
                tdist@.len() == top + 1,
                kk == k as int,
                t == t0u as int,
                Self::insert_inv(
                    os,
                    *self,
                    upd@,
                    tdist@,
                    distance as int,
                    t,
                    kk,
                    new_idx,
                    vv,
                    l2 as int,
                ),
            decreases top + 1 - l2,
        {
            let ghost s0 = *self;
            let ghost lc = l2 as int;
            let ph = upd[l2];
            let tlu = tdist[l2];
            let ghost tl = tlu as int;
            let ghost ff = os.next_pos(tl, lc);
            proof {
                os.lemma_arena_fits();
                assert(os.live(upd@[lc]) && os.pos_of(upd@[lc]) == tdist@[lc] && tdist@[lc] <= t
                    && lc <= os.lv(tl));
                os.lemma_idx_of_pos(ph);
                assert(os.idx_at(tl) == ph && ph < os.arena_size());
                assert(self.idx_at(tl) == os.idx_at(tl));
                assert(self.lv(tl) >= lc) by {
                    if tl > 0 {
                        assert(self.lv(tl) == os.lv(tl));
                    }
                }
                assert(os.node_ok(tl));
                assert(os.link_ok(tl, lc));
                os.lemma_next_pos(tl, lc);
                assert(ff > t) by {
                    if ff <= os.size() {
                        assert(ff > distance);
                    }
                }
                assert(self.node_at(tl).links@[lc] == os.node_at(tl).links@[lc]);
                assert(self.node_at(tl).links_len@[lc] == os.node_at(tl).links_len@[lc]);
                assert(self.node_at(tl) == self.nodes@[ph as int]);
                assert(self.node_at(tl).links@.len() == self.node_at(tl).level + 1);
                assert(new_idx < self.nodes@.len());
                assert(self.idx_at(t + 1) == new_idx);
                assert(self.node_at(t + 1) == self.nodes@[new_idx as int]);
                assert(self.node_at(t + 1).links@.len() == kk + 1);
            }
            if l2 <= k {
                let tgt = self.nodes[ph].links[l2];
                let span = self.nodes[ph].links_len[l2];
                let delta = t0u - tlu;
                proof {
                    assert(span == (if ff <= os.size() {
                        ff - tl
                    } else {
                        os.size() - tl
                    }));
                    assert(span >= delta);
                }
                self.nodes[new_idx].links[l2] = tgt;
                self.nodes[new_idx].links_len[l2] = span - delta;
                self.nodes[ph].links[l2] = Some(new_idx);
                self.nodes[ph].links_len[l2] = delta + 1;
                proof {
                    assert(ph != new_idx);
                    assert(self.order@ == s0.order@);
                    assert(self.nodes@.len() == s0.nodes@.len());
                    assert(forall|x: int|
                        0 <= x < self.nodes@.len() && x != ph && x != new_idx
                            ==> #[trigger] self.nodes@[x] == s0.nodes@[x]);
                    assert(self.nodes@[ph as int].links@ =~= s0.nodes@[
                        ph as int
                    ].links@.update(lc, Some(new_idx)));
                    assert(self.nodes@[ph as int].links_len@ =~= s0.nodes@[
                        ph as int
                    ].links_len@.update(lc, (t - tl + 1) as usize));
                    assert(self.nodes@[new_idx as int].links@ =~= s0.nodes@[
                        new_idx as int
                    ].links@.update(lc, s0.nodes@[ph as int].links@[lc]));
                    assert(self.nodes@[new_idx as int].links_len@ =~= s0.nodes@[
                        new_idx as int
                    ].links_len@.update(
                        lc,
                        (s0.nodes@[ph as int].links_len@[lc] - (t - tl)) as usize,
                    ));
                    Self::lemma_insert_patch(
                        os,
                        s0,
                        *self,
                        upd@,
                        tdist@,
                        distance as int,
                        t,
                        kk,
                        new_idx,
                        vv,
                        lc,
                        ph,
                        tl,
                    );
                }
            } else {
                let cur_len = self.nodes[ph].links_len[l2];
                proof {
                    assert(cur_len <= os.size() - tl);
                }
                self.nodes[ph].links_len[l2] = cur_len + 1;
                proof {
                    assert(ph != new_idx);
                    assert(self.order@ == s0.order@);
                    assert(self.nodes@.len() == s0.nodes@.len());
                    assert(forall|x: int|
                        0 <= x < self.nodes@.len() && x != ph && x != new_idx
                            ==> #[trigger] self.nodes@[x] == s0.nodes@[x]);
                    assert(self.nodes@[ph as int].links@ =~= s0.nodes@[ph as int].links@);
                    assert(self.nodes@[ph as int].links_len@ =~= s0.nodes@[
                        ph as int
                    ].links_len@.update(lc, (s0.nodes@[ph as int].links_len@[lc] + 1) as usize));
                    assert(self.nodes@[new_idx as int] == s0.nodes@[new_idx as int]);
                    Self::lemma_insert_patch(
                        os,
                        s0,
                        *self,
                        upd@,
                        tdist@,
                        distance as int,
                        t,
                        kk,
                        new_idx,
                        vv,
                        lc,
                        ph,
                        tl,
                    );
                }
            }
            l2 = l2 + 1;
        }

        proof {
            assert forall|p: int| 0 <= p <= self.size() implies #[trigger] self.node_ok(p) by {
                assert forall|j: int| 0 <= j <= self.node_at(p).level implies self.link_ok(
                    p,
                    j,
                ) by {
                    assert(j <= self.lv(p) && j < top + 1);
                }
            }
            assert(self.wf());
            assert(self.elems() =~= os.elems().insert(t, vv->Some_0)) by {
                os.elems().insert_ensures(t, vv->Some_0);
                assert forall|i: int| 0 <= i < self.size() implies self.elems()[i] == os.elems()
                    .insert(t, vv->Some_0)[i] by {
                    if i < t {
                        assert(self.node_at(i + 1).value == os.node_at(i + 1).value);
                    } else if i == t {
                    } else {
                        assert(self.node_at(i + 1).value == os.node_at(i).value);
                    }
                }
            }
            assert(self.lvls() =~= os.lvls().insert(t, kk)) by {
                os.lvls().insert_ensures(t, kk);
                assert forall|i: int| 0 <= i < self.size() implies self.lvls()[i] == os.lvls()
                    .insert(t, kk)[i] by {
                    if i < t {
                        assert(self.lv(i + 1) == os.lv(i + 1));
                    } else if i > t {
                        assert(self.lv(i + 1) == os.lv(i));
                    }
                }
            }
            self.lemma_pos_of_idx_weak(t + 1);
        }
        (new_idx, t0u + 1)
    }

    /// Intermediate state of the bottom-up link patch during a removal: `s`
    /// is `od` with the node at position `t + 1` (arena slot `ri`, level
    /// `kr`) spliced out, its links correct below level `lb` and untouched
    /// from `lb` up.
    spec fn remove_inv(
        od: Self,
        s: Self,
        upd: Seq<usize>,
        tdist: Seq<usize>,
        distance: int,
        t: int,
        kr: int,
        ri: usize,
        lb: int,
    ) -> bool {
        let top = od.node_at(0).level as int;
        &&& od.wf()
        &&& 0 <= lb <= top + 1
        &&& upd.len() == top + 1
        &&& tdist.len() == top + 1
        &&& 0 <= t < od.size()
        &&& t == distance
        &&& t == tdist[0]
        &&& kr == od.lv(t + 1)
        &&& 0 <= kr <= top
        &&& ri == od.idx_at(t + 1)
        &&& (forall|j: int|
            0 <= j <= top ==> {
                &&& od.live(#[trigger] upd[j])
                &&& od.pos_of(upd[j]) == tdist[j]
                &&& tdist[j] <= t
                &&& j <= od.lv(tdist[j] as int)
                &&& (od.next_pos(tdist[j] as int, j) <= od.size() ==> od.next_pos(
                    tdist[j] as int,
                    j,
                ) > distance)
            })
        &&& s.arena_size() == od.arena_size()
        &&& s.size() == od.size() - 1
        &&& s.order@ == od.order@.remove(t)
        &&& s.order@.no_duplicates()
        &&& (forall|i: int| 0 <= i < s.size() ==> 1 <= #[trigger] s.order@[i] < s.nodes@.len())
        &&& (forall|p: int| 0 <= p <= t ==> #[trigger] s.idx_at(p) == od.idx_at(p))
        &&& (forall|p: int| t + 1 <= p <= s.size() ==> #[trigger] s.idx_at(p) == od.idx_at(p + 1))
        &&& (forall|m: int| 1 <= m <= t ==> #[trigger] s.lv(m) == od.lv(m))
        &&& s.lv(0) == top
        &&& (forall|m: int| t + 1 <= m <= s.size() ==> #[trigger] s.lv(m) == od.lv(m + 1))
        &&& (forall|m: int| 1 <= m <= t ==> #[trigger] s.node_at(m).value == od.node_at(m).value)
        &&& (forall|m: int|
            t + 1 <= m <= s.size() ==> #[trigger] s.node_at(m).value == od.node_at(m + 1).value)
        &&& (forall|p: int|
            0 <= p <= s.size() ==> {
                let nd = #[trigger] s.node_at(p);
                &&& nd.links@.len() == nd.level + 1
                &&& nd.links_len@.len() == nd.level + 1
                &&& nd.level <= top
                &&& (p > 0 ==> nd.value is Some)
                &&& nd.prev == (if p == 0 {
                    None
                } else {
                    Some(s.idx_at(p - 1))
                })
            })
        &&& (forall|p: int, j: int|
            0 <= p <= s.size() && 0 <= j < lb && j <= s.lv(p) ==> #[trigger] s.link_ok(p, j))
        &&& (forall|p: int, j: int|
            0 <= p <= s.size() && lb <= j <= s.lv(p) ==> {
                let m = (if p <= t {
                    p
                } else {
                    p + 1
                });
                &&& #[trigger] s.node_at(p).links@[j] == od.node_at(m).links@[j]
                &&& s.node_at(p).links_len@[j] == od.node_at(m).links_len@[j]
            })
    }

    /// One level of the bottom-up unsplice: given the patch state at level
    /// `lc` and that level's link write, the state advances to level
    /// `lc + 1`.
    #[verifier::rlimit(100)]
    #[verifier::spinoff_prover]
    proof fn lemma_remove_patch(
        od: Self,
        s0: Self,
        s: Self,
        upd: Seq<usize>,
        tdist: Seq<usize>,
        distance: int,
        t: int,
        kr: int,
        ri: usize,
        rec: Node<V>,
        lc: int,
        ph: usize,
        tl: int,
    )
        requires
            Self::remove_inv(od, s0, upd, tdist, distance, t, kr, ri, lc),
            0 <= lc <= od.node_at(0).level,
            ph == upd[lc],
            tl == tdist[lc],
            rec == od.node_at(t + 1),
            s.order@ == s0.order@,
            s.nodes@.len() == s0.nodes@.len(),
            forall|x: int|
                0 <= x < s.nodes@.len() && x != ph ==> #[trigger] s.nodes@[x] == s0.nodes@[x],
            s.nodes@[ph as int].value == s0.nodes@[ph as int].value,
            s.nodes@[ph as int].level == s0.nodes@[ph as int].level,
            s.nodes@[ph as int].prev == s0.nodes@[ph as int].prev,
            lc <= kr ==> {
                &&& s.nodes@[ph as int].links@ == s0.nodes@[ph as int].links@.update(
                    lc,
                    rec.links@[lc],
                )
                &&& s.nodes@[ph as int].links_len@ == s0.nodes@[ph as int].links_len@.update(
                    lc,
                    (s0.nodes@[ph as int].links_len@[lc] + rec.links_len@[lc] - 1) as usize,
                )
            },
            lc > kr ==> {
                &&& s.nodes@[ph as int].links@ == s0.nodes@[ph as int].links@
                &&& s.nodes@[ph as int].links_len@ == s0.nodes@[ph as int].links_len@.update(
                    lc,
                    (s0.nodes@[ph as int].links_len@[lc] - 1) as usize,
                )
            },
        ensures
            Self::remove_inv(od, s, upd, tdist, distance, t, kr, ri, lc + 1),
    {
        let top = od.node_at(0).level as int;
        od.lemma_arena_fits();
        assert(od.live(upd[lc]) && od.pos_of(upd[lc]) == tdist[lc] && tdist[lc] <= t && lc
            <= od.lv(tl));
        od.lemma_idx_of_pos(ph);
        assert(od.idx_at(tl) == ph && ph < od.arena_size());
        od.lemma_pos_of_idx(t + 1);
        assert(ri != ph);
        assert(s0.idx_at(tl) == od.idx_at(tl));
        assert(s0.node_at(tl) == s0.nodes@[ph as int]);
        assert(s.idx_at(tl) == s0.idx_at(tl));
        assert(od.node_ok(tl));
        assert(od.link_ok(tl, lc));
        let ff = od.next_pos(tl, lc);
        od.lemma_next_pos(tl, lc);
        assert(ff >= t + 1) by {
            if ff <= od.size() {
                assert(ff > distance);
            }
        }
        assert(ff == (if lc <= kr {
            t + 1
        } else {
            od.next_pos(tl, lc)
        })) by {
            if lc <= kr {
                assert(od.lv(t + 1) >= lc);
                if ff > t + 1 {
                    assert(od.lv(t + 1) < lc);
                }
            }
        }
        if lc > kr {
            assert(ff > t + 1) by {
                if ff == t + 1 {
                    assert(od.lv(t + 1) >= lc);
                }
            }
        }
        assert(od.node_ok(t + 1));
        assert(od.link_ok(t + 1, lc) || lc > kr);
        let gg = od.next_pos(t + 1, lc);
        od.lemma_next_pos(t + 1, lc);
        assert(s0.node_at(tl).links@[lc] == od.node_at(tl).links@[lc]) by {
            assert(s0.lv(tl) >= lc) by {
                if tl > 0 {
                    assert(s0.lv(tl) == od.lv(tl));
                }
            }
        }
        assert(s0.node_at(tl).links_len@[lc] == od.node_at(tl).links_len@[lc]);
        // the untouched fields carry over position by position
        assert forall|p3: int| 0 <= p3 <= s.size() implies {
            let nd = #[trigger] s.node_at(p3);
            let n0 = s0.node_at(p3);
            &&& nd.level == n0.level
            &&& nd.value == n0.value
            &&& nd.prev == n0.prev
            &&& nd.links@.len() == n0.links@.len()
            &&& nd.links_len@.len() == n0.links_len@.len()
        } by {
            assert(s.idx_at(p3) == s0.idx_at(p3));
        }
        assert forall|m: int| 1 <= m <= t implies #[trigger] s.lv(m) == od.lv(m) by {
            assert(s.lv(m) == s0.lv(m));
            assert(s0.lv(m) == od.lv(m));
        }
        assert(s.lv(0) == top) by {
            assert(s.lv(0) == s0.lv(0));
        }
        assert forall|m: int| t + 1 <= m <= s.size() implies #[trigger] s.lv(m) == od.lv(m + 1) by {
            assert(s.lv(m) == s0.lv(m));
            assert(s0.lv(m) == od.lv(m + 1));
        }
        assert forall|m: int| 1 <= m <= t implies #[trigger] s.node_at(m).value == od.node_at(
            m,
        ).value by {
            assert(s.node_at(m).value == s0.node_at(m).value);
        }
        assert forall|m: int| t + 1 <= m <= s.size() implies #[trigger] s.node_at(m).value
            == od.node_at(m + 1).value by {
            assert(s.node_at(m).value == s0.node_at(m).value);
        }
        assert forall|p3: int| 0 <= p3 <= s.size() implies {
            let nd = #[trigger] s.node_at(p3);
            &&& nd.links@.len() == nd.level + 1
            &&& nd.links_len@.len() == nd.level + 1
            &&& nd.level <= top
            &&& (p3 > 0 ==> nd.value is Some)
            &&& nd.prev == (if p3 == 0 {
                None
            } else {
                Some(s.idx_at(p3 - 1))
            })
        } by {
            assert(s.idx_at(p3) == s0.idx_at(p3));
            if p3 > 0 {
                assert(s.idx_at(p3 - 1) == s0.idx_at(p3 - 1));
            }
        }
        // links below the patched level are untouched and stay correct
        assert forall|p2: int, j2: int|
            0 <= p2 <= s.size() && 0 <= j2 < lc && j2 <= s.lv(p2) implies #[trigger] s.link_ok(
            p2,
            j2,
        ) by {
            assert(s0.link_ok(p2, j2));
            Self::lemma_next_pos_agree(s0, s, p2, j2);
            assert(s.node_at(p2).links@[j2] == s0.node_at(p2).links@[j2] && s.node_at(
                p2,
            ).links_len@[j2] == s0.node_at(p2).links_len@[j2]) by {
                assert(s.idx_at(p2) == s0.idx_at(p2));
            }
            assert forall|q3: int| 0 <= q3 <= s.size() implies #[trigger] s.idx_at(q3)
                == s0.idx_at(q3) by {}
        }
        // the patched level itself
        assert forall|p2: int| 0 <= p2 <= s.size() && lc <= s.lv(p2) implies s.link_ok(
            p2,
            lc,
        ) by {
            if p2 == tl {
                assert(s.node_at(tl) == s.nodes@[ph as int]);
                if lc <= kr {
                    assert(s.node_at(tl).links@[lc] == rec.links@[lc]);
                    assert(s.node_at(tl).links_len@[lc] == (t + 1 - tl) + od.node_at(
                        t + 1,
                    ).links_len@[lc] - 1);
                    if gg <= od.size() {
                        od.lemma_pos_of_idx(gg);
                        s.lemma_pos_of_idx_weak(gg - 1);
                        assert(s.idx_at(gg - 1) == od.idx_at(gg));
                        assert forall|m: int| tl < m < gg - 1 && m <= s.size() implies s.lv(
                            m,
                        ) < lc by {
                            if m <= t {
                                assert(s.lv(m) == od.lv(m));
                            } else {
                                assert(s.lv(m) == od.lv(m + 1));
                            }
                        }
                        assert(gg - 1 <= s.size() ==> s.lv(gg - 1) >= lc);
                        s.lemma_next_pos_unique(tl, lc, gg - 1);
                        assert(s.link_ok(p2, lc));
                    } else {
                        assert forall|m: int| tl < m < s.size() + 1 && m <= s.size() implies s
                            .lv(m) < lc by {
                            if m <= t {
                                assert(s.lv(m) == od.lv(m));
                            } else {
                                assert(s.lv(m) == od.lv(m + 1));
                            }
                        }
                        s.lemma_next_pos_unique(tl, lc, s.size() + 1);
                        assert(s.link_ok(p2, lc));
                    }
                } else {
                    assert(s.node_at(tl).links@[lc] == od.node_at(tl).links@[lc]);
                    assert(s.node_at(tl).links_len@[lc] == od.node_at(tl).links_len@[lc] - 1);
                    if ff <= od.size() {
                        od.lemma_pos_of_idx(ff);
                        s.lemma_pos_of_idx_weak(ff - 1);
                        assert(s.idx_at(ff - 1) == od.idx_at(ff));
                        assert forall|m: int| tl < m < ff - 1 && m <= s.size() implies s.lv(
                            m,
                        ) < lc by {
                            if m <= t {
                                assert(s.lv(m) == od.lv(m));
                            } else {
                                assert(s.lv(m) == od.lv(m + 1));
                            }
                        }
                        assert(ff - 1 <= s.size() ==> s.lv(ff - 1) >= lc);
                        s.lemma_next_pos_unique(tl, lc, ff - 1);
                        assert(s.link_ok(p2, lc));
                    } else {
                        assert forall|m: int| tl < m < s.size() + 1 && m <= s.size() implies s
                            .lv(m) < lc by {
                            if m <= t {
                                assert(s.lv(m) == od.lv(m));
                            } else {
                                assert(s.lv(m) == od.lv(m + 1));
                            }
                        }
                        s.lemma_next_pos_unique(tl, lc, s.size() + 1);
                        assert(s.link_ok(p2, lc));
                    }
                }
            } else {
                // a node the unsplice does not touch at this level
                let m = (if p2 <= t {
                    p2
                } else {
                    p2 + 1
                });
                od.lemma_pos_of_idx(m);
                assert(s.idx_at(p2) == s0.idx_at(p2) && s0.idx_at(p2) == od.idx_at(m));
                assert(s.idx_at(p2) != ph) by {
                    if s.idx_at(p2) == ph {
                        s.lemma_pos_of_idx_weak(p2);
                        s.lemma_pos_of_idx_weak(tl);
                        assert(p2 == tl);
                    }
                }
                assert(s.node_at(p2) == s0.node_at(p2)) by {
                    assert(s.nodes@[s.idx_at(p2) as int] == s0.nodes@[s.idx_at(p2) as int]);
                }
                assert(s0.lv(p2) == s.lv(p2));
                assert(s0.node_at(p2).links@[lc] == od.node_at(m).links@[lc]);
                assert(s0.node_at(p2).links_len@[lc] == od.node_at(m).links_len@[lc]);
                assert(od.node_ok(m));
                assert(lc <= od.lv(m)) by {
                    if m > 0 {
                        if p2 <= t {
                            assert(s.lv(p2) == od.lv(p2));
                        } else {
                            assert(s.lv(p2) == od.lv(p2 + 1));
                        }
                    }
                }
                assert(od.link_ok(m, lc));
                let q2 = od.next_pos(m, lc);
                od.lemma_next_pos(m, lc);
                if p2 <= t {
                    if p2 > tl {
                        assert(tl < p2 < ff && p2 <= od.size());
                        assert(od.lv(p2) < lc);
                        assert(s.lv(p2) == od.lv(p2));
                        assert(false);
                    }
                    assert(p2 < tl);
                    assert(q2 <= tl) by {
                        if q2 > tl {
                            assert(p2 < tl < q2 && tl <= od.size());
                            assert(od.lv(tl) < lc);
                        }
                    }
                    od.lemma_pos_of_idx(q2);
                    s.lemma_pos_of_idx_weak(q2);
                    assert(s.idx_at(q2) == od.idx_at(q2));
                    assert forall|m3: int| p2 < m3 < q2 && m3 <= s.size() implies s.lv(m3)
                        < lc by {
                        assert(s.lv(m3) == od.lv(m3));
                    }
                    assert(q2 <= s.size() ==> s.lv(q2) >= lc) by {
                        if q2 > 0 && q2 <= s.size() {
                            assert(s.lv(q2) == od.lv(q2));
                        }
                    }
                    s.lemma_next_pos_unique(p2, lc, q2);
                    assert(s.link_ok(p2, lc));
                } else {
                    assert(p2 >= t + 1 && m >= t + 2);
                    assert(q2 > t + 1);
                    if q2 <= od.size() {
                        od.lemma_pos_of_idx(q2);
                        s.lemma_pos_of_idx_weak(q2 - 1);
                        assert(s.idx_at(q2 - 1) == od.idx_at(q2));
                        assert forall|m3: int| p2 < m3 < q2 - 1 && m3 <= s.size() implies s
                            .lv(m3) < lc by {
                            assert(s.lv(m3) == od.lv(m3 + 1));
                        }
                        assert(q2 - 1 <= s.size() ==> s.lv(q2 - 1) >= lc);
                        s.lemma_next_pos_unique(p2, lc, q2 - 1);
                        assert(s.link_ok(p2, lc));
                    } else {
                        assert forall|m3: int| p2 < m3 < s.size() + 1 && m3 <= s.size()
                            implies s.lv(m3) < lc by {
                            assert(s.lv(m3) == od.lv(m3 + 1));
                        }
                        s.lemma_next_pos_unique(p2, lc, s.size() + 1);
                        assert(s.link_ok(p2, lc));
                    }
                }
            }
        }
        // links above the patched level stay untouched
        assert forall|p2: int, j2: int|
            0 <= p2 <= s.size() && lc + 1 <= j2 <= s.lv(p2) implies {
            let m = (if p2 <= t {
                p2
            } else {
                p2 + 1
            });
            &&& #[trigger] s.node_at(p2).links@[j2] == od.node_at(m).links@[j2]
            &&& s.node_at(p2).links_len@[j2] == od.node_at(m).links_len@[j2]
        } by {
            let m = (if p2 <= t {
                p2
            } else {
                p2 + 1
            });
            assert(s.idx_at(p2) == s0.idx_at(p2));
            assert(s0.lv(p2) == s.lv(p2));
            assert(s0.node_at(p2).links@[j2] == od.node_at(m).links@[j2]);
            assert(s0.node_at(p2).links_len@[j2] == od.node_at(m).links_len@[j2]);
            if s.idx_at(p2) == ph {
                assert(s.nodes@[ph as int].links@[j2] == s0.nodes@[ph as int].links@[j2]);
                assert(s.nodes@[ph as int].links_len@[j2] == s0.nodes@[
                    ph as int
                ].links_len@[j2]);
            } else {
                assert(s.nodes@[s.idx_at(p2) as int] == s0.nodes@[s.idx_at(p2) as int]);
            }
        }
    }

    /// Remove and return the element `distance` level-0 steps after the
    /// anchor, together with the actual distance travelled; `None`, with the
    /// chain unchanged, when no such element exists.
    #[verifier::rlimit(100)]
    #[verifier::spinoff_prover]
    pub fn remove(&mut self, distance: usize) -> (r: Option<(SkipNode<V>, usize)>)
        requires
            old(self).wf(),
        ensures
            distance < old(self).size() ==> {
                &&& r is Some
                &&& final(self).wf()
                &&& final(self).size() == old(self).size() - 1
                &&& final(self).height() == old(self).height()
                &&& final(self).elems() == old(self).elems().remove(distance as int)
                &&& final(self).lvls() == old(self).lvls().remove(distance as int)
                &&& r->Some_0.1 == distance + 1
                &&& r->Some_0.0.is_detached()
                &&& r->Some_0.0.node_value() == Some(old(self).elems()[distance as int])
                &&& r->Some_0.0.node_level() == old(self).lvls()[distance as int]
            },
            distance >= old(self).size() ==> r is None && *final(self) == *old(self),
    {
        let ghost od = *old(self);
        proof {
            od.lemma_arena_fits();
        }
        let top = self.nodes[0].level;
        let cap = self.nodes[0].links.len();
        proof {
            assert(od.node_ok(0));
            assert(cap == top + 1);
        }
        let mut upd = filled_lens(cap);
        let mut tdist = filled_lens(cap);
        let mut cur: usize = 0;
        let mut left: usize = distance;
        let mut l: usize = cap;
        while l > 0
            invariant
                od == *old(self),
                *self == od,
                od.wf(),
                top == od.node_at(0).level,
                l <= top + 1,
                upd@.len() == top + 1,
                tdist@.len() == top + 1,
                od.live(cur),
                left <= distance,
                od.pos_of(cur) == distance - left,
                od.pos_of(cur) <= od.size(),
                l >= 1 ==> l - 1 <= od.lv(od.pos_of(cur)),
                l == 0 ==> tdist@[0] == distance - left,
                forall|j: int|
                    l <= j <= top ==> {
                        &&& od.live(#[trigger] upd@[j])
                        &&& od.pos_of(upd@[j]) == tdist@[j]
                        &&& tdist@[j] <= distance - left
                        &&& j <= od.lv(tdist@[j] as int)
                        &&& (od.next_pos(tdist@[j] as int, j) <= od.size() ==> od.next_pos(
                            tdist@[j] as int,
                            j,
                        ) > distance)
                    },
            decreases l,
        {
            l = l - 1;
            let (nxt, dl) = self.advance_atmost(cur, l, left);
            left = left - dl;
            upd[l] = nxt;
            tdist[l] = distance - left;
            cur = nxt;
        }

        let p0h = upd[0];
        let t0u = tdist[0];
        let ghost t = t0u as int;
        proof {
            assert(od.pos_of(upd@[0]) == t && t <= od.size());
            od.lemma_next_pos(t, 0);
            if t < od.size() {
                assert(od.next_pos(t, 0) == t + 1);
                assert(t == distance);
            }
            od.lemma_idx_of_pos(p0h);
            assert(od.node_ok(t));
            assert(od.link_ok(t, 0));
        }
        let rm_idx = match self.nodes[p0h].links[0] {
            None => {
                proof {
                    assert(od.next_pos(t, 0) > od.size());
                    assert(t == od.size());
                    assert(distance >= od.size());
                }
                return None;
            },
            Some(ri) => ri,
        };
        let ghost kr = od.lv(t + 1);
        proof {
            assert(od.next_pos(t, 0) == t + 1 && t + 1 <= od.size());
            assert(t == distance && distance < od.size());
            od.lemma_pos_of_idx(t + 1);
            assert(rm_idx == od.idx_at(t + 1));
            assert(1 <= rm_idx < od.arena_size());
            assert(od.node_ok(t + 1));
            assert(0 <= kr <= top);
        }
        // park a stub in the removed node's slot and take its record out
        let stub: Node<V> = Node {
            value: None,
            level: 0,
            prev: None,
            links: Vec::new(),
            links_len: Vec::new(),
        };
        self.nodes.push(stub);
        let rec = self.nodes.swap_remove(rm_idx);
        proof {
            assert(rec == od.node_at(t + 1));
        }
        match rec.links[0] {
            Some(nx) => {
                proof {
                    assert(od.link_ok(t + 1, 0));
                    assert(od.next_pos(t + 1, 0) == t + 2 && t + 2 <= od.size());
                    od.lemma_pos_of_idx(t + 2);
                    assert(nx == od.idx_at(t + 2) && nx < od.arena_size());
                    assert(nx != rm_idx);
                    assert(od.idx_at(t) == p0h);
                }
                self.nodes[nx].prev = Some(p0h);
            },
            None => {},
        }
        self.order = Ghost(od.order@.remove(t));
        proof {
            od.order@.remove_ensures(t);
            assert forall|i: int, j: int|
                0 <= i < self.order@.len() && 0 <= j < self.order@.len() && i != j implies self
                .order@[i] != self.order@[j] by {
                let a = (if i < t {
                    i
                } else {
                    i + 1
                });
                let b = (if j < t {
                    j
                } else {
                    j + 1
                });
                assert(self.order@[i] == od.order@[a] && self.order@[j] == od.order@[b]);
            }
            assert(self.order@.no_duplicates());
            assert forall|p: int| 0 <= p <= t implies #[trigger] self.idx_at(p) == od.idx_at(
                p,
            ) by {
                if p > 0 {
                    assert(self.order@[p - 1] == od.order@[p - 1]);
                }
            }
            assert forall|p: int| t + 1 <= p <= self.size() implies #[trigger] self.idx_at(p)
                == od.idx_at(p + 1) by {
                assert(self.order@[p - 1] == od.order@[p]);
            }
            assert forall|p: int| 0 <= p <= self.size() implies {
                let m = (if p <= t {
                    p
                } else {
                    p + 1
                });
                let nd = #[trigger] self.node_at(p);
                let no = od.node_at(m);
                &&& nd.value == no.value
                &&& nd.level == no.level
                &&& nd.links@ == no.links@
                &&& nd.links_len@ == no.links_len@
            } by {
                let m = (if p <= t {
                    p
                } else {
                    p + 1
                });
                od.lemma_pos_of_idx(m);
                assert(od.idx_at(m) != rm_idx) by {
                    if od.idx_at(m) == rm_idx {
                        od.lemma_pos_of_idx(t + 1);
                        assert(m == t + 1);
                    }
                }
                if rec.links@[0] is Some && self.idx_at(p) == rec.links@[0]->Some_0 {
                    od.lemma_pos_of_idx(t + 2);
                    assert(m == t + 2);
                }
            }
            assert forall|p: int| 0 <= p <= self.size() implies {
                let nd = #[trigger] self.node_at(p);
                &&& nd.links@.len() == nd.level + 1
                &&& nd.links_len@.len() == nd.level + 1
                &&& nd.level <= top
                &&& (p > 0 ==> nd.value is Some)
            } by {
                let m = (if p <= t {
                    p
                } else {
                    p + 1
                });
                assert(od.node_ok(m));
            }
            assert forall|p: int| 0 <= p <= self.size() implies #[trigger] self.node_at(p).prev
                == (if p == 0 {
                None
            } else {
                Some(self.idx_at(p - 1))
            }) by {
                od.lemma_pos_of_idx(t);
                if p == 0 {
                    assert(od.node_ok(0));
                    if rec.links@[0] is Some {
                        od.lemma_pos_of_idx(t + 2);
                    }
                } else {
                    let m = (if p <= t {
                        p
                    } else {
                        p + 1
                    });
                    assert(od.node_ok(m));
                    od.lemma_pos_of_idx(m);
                    if rec.links@[0] is Some && self.idx_at(p) == rec.links@[0]->Some_0 {
                        od.lemma_pos_of_idx(t + 2);
                        assert(m == t + 2);
                        assert(p == t + 1);
                        assert(self.idx_at(p - 1) == od.idx_at(t));
                    } else {
                        if p == t + 1 {
                            assert(od.link_ok(t + 1, 0));
                            assert(m == t + 2);
                            assert(od.node_at(t + 2).prev == Some(od.idx_at(t + 1)));
                            assert(self.node_at(p) == od.node_at(t + 2));
                            assert(false);
                        }
                        assert(od.node_at(m).prev == Some(od.idx_at(m - 1)));
                        if p <= t {
                            assert(self.idx_at(p - 1) == od.idx_at(p - 1));
                        } else {
                            assert(p >= t + 2);
                            assert(self.idx_at(p - 1) == od.idx_at(p));
                        }
                    }
                }
            }
            assert(Self::remove_inv(od, *self, upd@, tdist@, distance as int, t, kr, rm_idx, 0));
        }

        // patch links level by level from the bottom up: where the removed
        // node was linked the predecessor inherits its link, elsewhere the
        // crossing span shrinks by one
        let mut l2: usize = 0;
        while l2 <= top
            invariant
                od == *old(self),
                top == od.node_at(0).level,
                top < usize::MAX,
                l2 <= top + 1,
                upd@.len() == top + 1,
                tdist@.len() == top + 1,
                t == t0u as int,
                kr == od.lv(t + 1),
                rec == od.node_at(t + 1),
                distance == t,
                Self::remove_inv(
                    od,
                    *self,
                    upd@,
                    tdist@,
                    distance as int,
                    t,
                    kr,
                    rm_idx,
                    l2 as int,
                ),
            decreases top + 1 - l2,
        {
            let ghost s0 = *self;
            let ghost lc = l2 as int;
            let ph = upd[l2];
            let tlu = tdist[l2];
            let ghost tl = tlu as int;
            proof {
                od.lemma_arena_fits();
                assert(od.live(upd@[lc]) && od.pos_of(upd@[lc]) == tdist@[lc] && tdist@[lc] <= t
                    && lc <= od.lv(tl));
                od.lemma_idx_of_pos(ph);
                assert(od.idx_at(tl) == ph && ph < od.arena_size());
                assert(self.idx_at(tl) == od.idx_at(tl));
                assert(self.lv(tl) >= lc) by {
                    if tl > 0 {
                        assert(self.lv(tl) == od.lv(tl));
                    }
                }
                assert(od.node_ok(tl));
                assert(od.link_ok(tl, lc));
                od.lemma_next_pos(tl, lc);
                assert(self.node_at(tl).links@[lc] == od.node_at(tl).links@[lc]);
                assert(self.node_at(tl).links_len@[lc] == od.node_at(tl).links_len@[lc]);
                assert(self.node_at(tl) == self.nodes@[ph as int]);
                assert(self.node_at(tl).links@.len() == self.node_at(tl).level + 1);
                assert(od.next_pos(tl, lc) >= t + 1) by {
                    if od.next_pos(tl, lc) <= od.size() {
                        assert(od.next_pos(tl, lc) > distance);
                    }
                }
                assert(od.node_ok(t + 1));
            }
            if l2 <= rec.level {
                let pl = self.nodes[ph].links_len[l2];
                proof {
                    // internal consistency: the span recorded at the
                    // predecessor must equal the distance consumed while
                    // descending into this level, plus one
                    assert(od.lv(t + 1) >= lc);
                    assert(od.next_pos(tl, lc) == t + 1) by {
                        if od.next_pos(tl, lc) > t + 1 {
                            assert(od.lv(t + 1) < lc);
                        }
                    }
                    assert(pl == t + 1 - tl);
                    assert(od.link_ok(t + 1, lc));
                    od.lemma_next_pos(t + 1, lc);
                    assert(rec.links_len@[lc] <= od.size() - (t + 1));
                }
                let rl = rec.links_len[l2];
                let rt = rec.links[l2];
                self.nodes[ph].links[l2] = rt;
                self.nodes[ph].links_len[l2] = pl + rl - 1;
                proof {
                    assert(self.order@ == s0.order@);
                    assert(self.nodes@.len() == s0.nodes@.len());
                    assert(forall|x: int|
                        0 <= x < self.nodes@.len() && x != ph ==> #[trigger] self.nodes@[x]
                            == s0.nodes@[x]);
                    assert(self.nodes@[ph as int].links@ =~= s0.nodes@[
                        ph as int
                    ].links@.update(lc, rec.links@[lc]));
                    assert(self.nodes@[ph as int].links_len@ =~= s0.nodes@[
                        ph as int
                    ].links_len@.update(
                        lc,
                        (s0.nodes@[ph as int].links_len@[lc] + rec.links_len@[lc] - 1) as usize,
                    ));
                    Self::lemma_remove_patch(
                        od,
                        s0,
                        *self,
                        upd@,
                        tdist@,
                        distance as int,
                        t,
                        kr,
                        rm_idx,
                        rec,
                        lc,
                        ph,
                        tl,
                    );
                }
            } else {
                let pl = self.nodes[ph].links_len[l2];
                proof {
                    assert(pl >= 1);
                }
                self.nodes[ph].links_len[l2] = pl - 1;
                proof {
                    assert(self.order@ == s0.order@);
                    assert(self.nodes@.len() == s0.nodes@.len());
                    assert(forall|x: int|
                        0 <= x < self.nodes@.len() && x != ph ==> #[trigger] self.nodes@[x]
                            == s0.nodes@[x]);
                    assert(self.nodes@[ph as int].links@ =~= s0.nodes@[ph as int].links@);
                    assert(self.nodes@[ph as int].links_len@ =~= s0.nodes@[
                        ph as int
                    ].links_len@.update(lc, (s0.nodes@[ph as int].links_len@[lc] - 1) as usize));
                    Self::lemma_remove_patch(
                        od,
                        s0,
                        *self,
                        upd@,
                        tdist@,
                        distance as int,
                        t,
                        kr,
                        rm_idx,
                        rec,
                        lc,
                        ph,
                        tl,
                    );
                }
            }
            l2 = l2 + 1;
        }

        proof {
            assert forall|p: int| 0 <= p <= self.size() implies #[trigger] self.node_ok(p) by {
                assert forall|j: int| 0 <= j <= self.node_at(p).level implies self.link_ok(
                    p,
                    j,
                ) by {
                    assert(j <= self.lv(p) && j < top + 1);
                }
            }
            assert(self.wf());
            assert(self.elems() =~= od.elems().remove(t)) by {
                od.elems().remove_ensures(t);
                assert forall|i: int| 0 <= i < self.size() implies self.elems()[i] == od.elems()
                    .remove(t)[i] by {
                    if i < t {
                        assert(self.node_at(i + 1).value == od.node_at(i + 1).value);
                    } else {
                        assert(self.node_at(i + 1).value == od.node_at(i + 2).value);
                    }
                }
            }
            assert(self.lvls() =~= od.lvls().remove(t)) by {
                od.lvls().remove_ensures(t);
                assert forall|i: int| 0 <= i < self.size() implies self.lvls()[i] == od.lvls()
                    .remove(t)[i] by {
                    if i < t {
                        assert(self.lv(i + 1) == od.lv(i + 1));
                    } else {
                        assert(self.lv(i + 1) == od.lv(i + 2));
                    }
                }
            }
        }
        let out_level = rec.level;
        let out = SkipNode {
            nodes: {
                let mut v: Vec<Node<V>> = Vec::new();
                v.push(
                    Node {
                        value: rec.value,
                        level: out_level,
                        prev: None,
                        links: filled_links(out_level + 1),
                        links_len: filled_lens(out_level + 1),
                    },
                );
                v
            },
            order: Ghost(Seq::empty()),
        };
        proof {
            assert forall|p: int| 0 <= p <= out.size() implies #[trigger] out.node_ok(p) by {
                assert(forall|j: int|
                    0 <= j <= out.node_at(0).level ==> #[trigger] out.link_ok(0, j));
            }
            assert(out.is_detached());
            assert(od.node_at(t + 1).value is Some);
            assert(out.node_value() == Some(od.elems()[t]));
            assert(out.node_level() == od.lvls()[t]);
        }
        Some((out, t0u + 1))
    }

    /// Advance from `node` along the level-`level` chain for as long as
    /// `pred`, given the current node and the candidate ahead, approves the
    /// hop; returns the furthest node reached and the distance travelled.
    #[verifier::rlimit(100)]
    #[verifier::spinoff_prover]
    pub fn advance_while<F: Fn(usize, usize) -> bool>(
        &self,
        node: usize,
        level: usize,
        pred: F,
    ) -> (r: (usize, usize))
        requires
            self.wf(),
            self.live(node),
            level <= self.lv(self.pos_of(node)),
            forall|a: usize, b: usize| #[trigger] call_requires(pred, (a, b)),
        ensures
            self.live(r.0),
            level <= self.lv(self.pos_of(r.0)),
            r.1 == self.pos_of(r.0) - self.pos_of(node),
            self.pos_of(r.0) == self.pos_of(node) || self.lv(self.pos_of(r.0)) >= level,
            forall|q: int|
                self.pos_of(node) <= q < self.pos_of(r.0) && (q == self.pos_of(node) || self.lv(q)
                    >= level) ==> call_ensures(
                    pred,
                    (#[trigger] self.idx_at(q), self.idx_at(self.next_pos(q, level as int))),
                    true,
                ),
            self.next_pos(self.pos_of(r.0), level as int) <= self.size() ==> call_ensures(
                pred,
                (r.0, self.idx_at(self.next_pos(self.pos_of(r.0), level as int))),
                false,
            ),
    {
        let ghost p0 = self.pos_of(node);
        proof {
            self.lemma_idx_of_pos(node);
        }
        let mut cur = node;
        let mut travelled: usize = 0;
        loop
            invariant
                self.wf(),
                self.live(cur),
                self.live(node),
                p0 == self.pos_of(node),
                0 <= p0 <= self.size(),
                travelled == self.pos_of(cur) - p0,
                level <= self.lv(self.pos_of(cur)),
                self.pos_of(cur) == p0 || self.lv(self.pos_of(cur)) >= level,
                forall|a: usize, b: usize| #[trigger] call_requires(pred, (a, b)),
                forall|q: int|
                    p0 <= q < self.pos_of(cur) && (q == p0 || self.lv(q) >= level)
                        ==> call_ensures(
                        pred,
                        (#[trigger] self.idx_at(q), self.idx_at(self.next_pos(q, level as int))),
                        true,
                    ),
            decreases self.size() - self.pos_of(cur),
        {
            let ghost p = self.pos_of(cur);
            let ghost q = self.next_pos(p, level as int);
            proof {
                self.lemma_arena_fits();
                self.lemma_idx_of_pos(cur);
                assert(self.node_ok(p));
                assert(self.link_ok(p, level as int));
                self.lemma_next_pos(p, level as int);
                if q <= self.size() {
                    self.lemma_pos_of_idx(q);
                }
            }
            match self.nodes[cur].links[level] {
                Some(nxt) => {
                    if pred(cur, nxt) {
                        let span = self.nodes[cur].links_len[level];
                        travelled = travelled + span;
                        cur = nxt;
                        proof {
                            assert forall|q2: int|
                                p0 <= q2 < self.pos_of(cur) && (q2 == p0 || self.lv(q2) >= level)
                                    implies call_ensures(
                                pred,
                                (
                                    #[trigger] self.idx_at(q2),
                                    self.idx_at(self.next_pos(q2, level as int)),
                                ),
                                true,
                            ) by {
                                if q2 >= p {
                                    assert(q2 == p);
                                }
                            }
                        }
                    } else {
                        return (cur, travelled);
                    }
                },
                None => {
                    return (cur, travelled);
                },
            }
        }
    }

    /// As `advance_while`, through a mutable handle on the chain; the chain
    /// itself is left unchanged.
    #[verifier::rlimit(100)]
    #[verifier::spinoff_prover]
    pub fn advance_while_mut<F: Fn(usize, usize) -> bool>(
        &mut self,
        node: usize,
        level: usize,
        pred: F,
    ) -> (r: (usize, usize))
        requires
            old(self).wf(),
            old(self).live(node),
            level <= old(self).lv(old(self).pos_of(node)),
            forall|a: usize, b: usize| #[trigger] call_requires(pred, (a, b)),
        ensures
            *final(self) == *old(self),
            old(self).live(r.0),
            level <= old(self).lv(old(self).pos_of(r.0)),
            r.1 == old(self).pos_of(r.0) - old(self).pos_of(node),
            old(self).pos_of(r.0) == old(self).pos_of(node) || old(self).lv(
                old(self).pos_of(r.0),
            ) >= level,
            forall|q: int|
                old(self).pos_of(node) <= q < old(self).pos_of(r.0) && (q == old(self).pos_of(
                    node,
                ) || old(self).lv(q) >= level) ==> call_ensures(
                    pred,
                    (
                        #[trigger] old(self).idx_at(q),
                        old(self).idx_at(old(self).next_pos(q, level as int)),
                    ),
                    true,
                ),
            old(self).next_pos(old(self).pos_of(r.0), level as int) <= old(self).size()
                ==> call_ensures(
                pred,
                (r.0, old(self).idx_at(old(self).next_pos(old(self).pos_of(r.0), level as int))),
                false,
            ),
    {
        self.advance_while(node, level, pred)
    }

    /// Largest chain position strictly before `p` that lies on the level-`l`
    /// chain (the anchor always does).
    pub closed spec fn prev_on_level(self, p: int, l: int) -> int
        decreases p,
    {
        if p <= 1 {
            0
        } else if self.lv(p - 1) >= l {
            p - 1
        } else {
            self.prev_on_level(p - 1, l)
        }
    }

    /// `prev_on_level` really is the nearest level-`l` chain position before `p`.
    pub proof fn lemma_prev_on_level(self, p: int, l: int)
        requires
            1 <= p,
        ensures
            0 <= self.prev_on_level(p, l) < p,
            self.prev_on_level(p, l) == 0 || self.lv(self.prev_on_level(p, l)) >= l,
            forall|m: int| self.prev_on_level(p, l) < m < p ==> self.lv(m) < l,
        decreases p,
    {
        if p > 1 && self.lv(p - 1) < l {
            self.lemma_prev_on_level(p - 1, l);
        }
    }

    /// Sum of the level-`l` spans along the chain from the anchor up to and
    /// including the link that reaches position `p`.
    pub closed spec fn span_sum_to(self, p: int, l: int) -> int
        decreases p,
        when p >= 0 via Self::span_sum_to_decreases
    {
        if p <= 0 {
            0
        } else {
            self.span_sum_to(self.prev_on_level(p, l), l) + self.span(self.prev_on_level(p, l), l)
        }
    }

    #[via_fn]
    proof fn span_sum_to_decreases(self, p: int, l: int) {
        if p > 0 {
            self.lemma_prev_on_level(p, l);
        }
    }

    /// Rank-sum law: at every level, the spans along that level's chain from
    /// the anchor up to and including the link that reaches a node sum to
    /// the node's position in the full level-0 order, so any node's rank can
    /// be recovered without scanning the base chain.
    #[verifier::spinoff_prover]
    pub proof fn lemma_rank_sum(self, p: int, l: int)
        requires
            self.wf(),
            0 <= p <= self.size(),
            0 <= l < self.height(),
            p == 0 || self.lv(p) >= l,
        ensures
            self.span_sum_to(p, l) == p,
        decreases p,
    {
        if p > 0 {
            let pr = self.prev_on_level(p, l);
            self.lemma_prev_on_level(p, l);
            self.lemma_rank_sum(pr, l);
            self.lemma_next_pos_unique(pr, l, p);
            assert(self.node_ok(pr));
            assert(l <= self.lv(pr)) by {
                if pr == 0 {
                    assert(self.lv(0) == self.height() - 1);
                }
            }
            assert(self.link_ok(pr, l));
            assert(self.span(pr, l) == p - pr);
        }
    }

    /// The level-0 chain steps from each position to the next, so following
    /// it from the anchor visits the elements exactly in the order `elems()`
    /// records, whatever interleaving of insertions and removals built it.
    pub proof fn lemma_level0_chain(self, p: int)
        requires
            self.wf(),
            0 <= p <= self.size(),
        ensures
            p < self.size() ==> self.next_pos(p, 0) == p + 1 && self.node_at(p).links@[0] == Some(
                self.idx_at(p + 1),
            ) && self.span(p, 0) == 1,
            p == self.size() ==> self.node_at(p).links@[0] is None && self.span(p, 0) == 0,
    {
        assert(self.node_ok(p));
        assert(self.link_ok(p, 0));
        if p < self.size() {
            assert(self.next_pos(p, 0) == p + 1);
        }
    }

    /// The whole span structure is a function of the element levels alone:
    /// two well-formed chains with the same element levels agree on every
    /// span and on every first-after position.  Together with the contracts
    /// of `insert` and `remove`, this yields the insert-then-remove inverse:
    /// removing at the offset just inserted at returns the inserted value
    /// and level and restores every span to its pre-insert value.
    #[verifier::spinoff_prover]
    pub proof fn lemma_spans_determined(a: Self, b: Self, p: int, l: int)
        requires
            a.wf(),
            b.wf(),
            a.size() == b.size(),
            a.lvls() == b.lvls(),
            0 <= p <= a.size(),
            0 <= l <= a.lv(p),
            l <= b.lv(p),
        ensures
            a.next_pos(p, l) == b.next_pos(p, l),
            a.span(p, l) == b.span(p, l),
    {
        assert forall|m: int| 1 <= m <= a.size() implies #[trigger] a.lv(m) == b.lv(m) by {
            assert(a.lvls()[m - 1] == a.lv(m));
            assert(b.lvls()[m - 1] == b.lv(m));
            assert(a.lvls()[m - 1] == b.lvls()[m - 1]);
        }
        Self::lemma_next_pos_agree(a, b, p, l);
        assert(a.node_ok(p));
        assert(b.node_ok(p));
        assert(a.link_ok(p, l));
        assert(b.link_ok(p, l));
    }
}

/// Consuming iterator over a chain's values, popping at either end and
/// counting exactly what remains.
pub struct IntoIter<T> {
    nodes: Vec<Node<T>>,
    first: Option<usize>,
    last: usize,
    size: usize,
    all: Ghost<Seq<T>>,
    rem: Ghost<Seq<usize>>,
    nf: Ghost<int>,
    nb: Ghost<int>,
}

impl<T> IntoIter<T> {
    /// Every value the iterator was created over, in order.
    pub closed spec fn original(self) -> Seq<T> {
        self.all@
    }

    /// Values popped from the front so far, in pop order.
    pub closed spec fn popped_front(self) -> Seq<T> {
        self.all@.take(self.nf@)
    }

    /// Values popped from the back so far, in pop order (last value first).
    pub closed spec fn popped_back(self) -> Seq<T> {
        self.all@.skip(self.all@.len() - self.nb@).reverse()
    }

    /// Values not yet popped, in order.
    pub closed spec fn remaining(self) -> Seq<T> {
        self.all@.subrange(self.nf@, self.all@.len() - self.nb@)
    }

    pub closed spec fn count(self) -> int {
        self.size as int
    }

    /// The held nodes still form a doubly linked level-0 chain carrying the
    /// remaining values.
    pub closed spec fn wf(self) -> bool {
        &&& 0 <= self.nf@
        &&& 0 <= self.nb@
        &&& self.all@.len() == self.nf@ + self.size + self.nb@
        &&& self.rem@.len() == self.size
        &&& self.rem@.no_duplicates()
        &&& (self.size > 0 ==> self.first == Some(self.rem@[0]) && self.last == self.rem@[
            self.size - 1
        ])
        &&& (self.size == 0 ==> self.first is None)
        &&& (forall|i: int| 0 <= i < self.size ==> #[trigger] self.rem@[i] < self.nodes@.len())
        &&& (forall|i: int|
            0 <= i < self.size ==> (#[trigger] self.nodes@[self.rem@[i] as int].value) == Some(
                self.all@[self.nf@ + i],
            ))
        &&& (forall|i: int|
            0 <= i < self.size ==> (#[trigger] self.nodes@[self.rem@[i] as int].links@.len())
                >= 1)
        &&& (forall|i: int|
            0 <= i < self.size - 1 ==> (#[trigger] self.nodes@[self.rem@[i] as int].links@[0])
                == Some(self.rem@[i + 1]))
        &&& (self.size > 0 ==> self.nodes@[self.rem@[self.size - 1] as int].links@[0] is None)
        &&& (forall|i: int|
            1 <= i < self.size ==> (#[trigger] self.nodes@[self.rem@[i] as int].prev) == Some(
                self.rem@[i - 1],
            ))
    }

    /// Exact element count of what is left to pop.
    pub fn size_hint(&self) -> (r: (usize, Option<usize>))
        requires
            self.wf(),
        ensures
            r.0 as int == self.remaining().len(),
            r.1 == Some(r.0),
    {
        (self.size, Some(self.size))
    }

    /// Pop the front value.
    pub fn next(&mut self) -> (r: Option<T>)
        requires
            old(self).wf(),
        ensures
            final(self).wf(),
            final(self).original() == old(self).original(),
            old(self).count() == 0 ==> r is None && final(self).remaining() == old(self).remaining() && final(self).popped_front() == old(self).popped_front() && final(self).popped_back() == old(self).popped_back() && final(self).count() == 0,
            old(self).count() > 0 ==> {
                &&& r == Some(old(self).remaining()[0])
                &&& final(self).remaining() == old(self).remaining().drop_first()
                &&& final(self).popped_front() == old(self).popped_front().push(
                    old(self).remaining()[0],
                )
                &&& final(self).popped_back() == old(self).popped_back()
                &&& final(self).count() == old(self).count() - 1
            },
    {
        match self.first {
            None => {
                proof {
                    assert(self.remaining() =~= old(self).remaining());
                }
                None
            },
            Some(h) => {
                let ghost r0 = self.rem@;
                let v = self.nodes[h].value.take();
                let nf2 = self.nodes[h].links[0];
                self.first = nf2;
                self.size = self.size - 1;
                self.rem = Ghost(r0.drop_first());
                self.nf = Ghost(self.nf@ + 1);
                proof {
                    assert(old(self).size > 0);
                    assert(h == r0[0]);
                    assert forall|i: int| 0 <= i < self.size implies (#[trigger] self.nodes@[
                        self.rem@[i] as int
                    ].value) == Some(self.all@[self.nf@ + i]) by {
                        assert(self.rem@[i] == r0[i + 1]);
                        assert(r0[i + 1] != h);
                    }
                    assert(self.remaining() =~= old(self).remaining().drop_first());
                    assert(self.popped_front() =~= old(self).popped_front().push(
                        old(self).remaining()[0],
                    ));
                    assert(self.popped_back() =~= old(self).popped_back());
                }
                v
            },
        }
    }

    /// Pop the back value.
    pub fn next_back(&mut self) -> (r: Option<T>)
        requires
            old(self).wf(),
        ensures
            final(self).wf(),
            final(self).original() == old(self).original(),
            old(self).count() == 0 ==> r is None && final(self).remaining() == old(self).remaining() && final(self).popped_front() == old(self).popped_front() && final(self).popped_back() == old(self).popped_back() && final(self).count() == 0,
            old(self).count() > 0 ==> {
                &&& r == Some(old(self).remaining().last())
                &&& final(self).remaining() == old(self).remaining().drop_last()
                &&& final(self).popped_back() == old(self).popped_back().push(
                    old(self).remaining().last(),
                )
                &&& final(self).popped_front() == old(self).popped_front()
                &&& final(self).count() == old(self).count() - 1
            },
    {
        let fh = match self.first {
            None => {
                proof {
                    assert(self.remaining() =~= old(self).remaining());
                }
                return None;
            },
            Some(fh) => fh,
        };
        let ghost r0 = self.rem@;
        if self.size == 1 {
            let v = self.nodes[fh].value.take();
            self.first = None;
            self.size = 0;
            self.rem = Ghost(Seq::empty());
            self.nb = Ghost(self.nb@ + 1);
            proof {
                assert(fh == r0[0]);
                assert(v == Some(self.all@[self.nf@]));
                assert(self.remaining() =~= old(self).remaining().drop_last());
                assert(old(self).remaining().len() == 1);
                assert(v == Some(old(self).remaining().last()));
                assert(self.popped_back() =~= old(self).popped_back().push(
                    old(self).remaining().last(),
                ));
                assert(self.popped_front() =~= old(self).popped_front());
            }
            v
        } else {
            let bh = self.last;
            proof {
                assert(self.size >= 2);
                assert(bh == r0[self.size - 1]);
                assert(self.nodes@[bh as int].prev == Some(r0[self.size - 2]));
            }
            let nl = match self.nodes[bh].prev {
                Some(nl) => nl,
                None => {
                    proof {
                        assert(false);
                    }
                    0
                },
            };
            let v = self.nodes[bh].value.take();
            self.nodes[nl].links[0] = None;
            self.last = nl;
            self.size = self.size - 1;
            self.rem = Ghost(r0.drop_last());
            self.nb = Ghost(self.nb@ + 1);
            proof {
                let sz = r0.len() as int;
                assert(nl == r0[sz - 2] && bh == r0[sz - 1]);
                assert(nl != bh);
                assert forall|i: int| 0 <= i < self.size implies (#[trigger] self.nodes@[
                    self.rem@[i] as int
                ].value) == Some(self.all@[self.nf@ + i]) by {
                    assert(self.rem@[i] == r0[i]);
                    assert(r0[i] != bh);
                    if r0[i] == nl {
                        assert(i == sz - 2);
                    }
                }
                assert forall|i: int| 0 <= i < self.size - 1 implies (#[trigger] self.nodes@[
                    self.rem@[i] as int
                ].links@[0]) == Some(self.rem@[i + 1]) by {
                    assert(self.rem@[i] == r0[i] && self.rem@[i + 1] == r0[i + 1]);
                    assert(r0[i] != bh);
                    if r0[i] == nl {
                        assert(i == sz - 2);
                        assert(false);
                    }
                }
                assert forall|i: int| 1 <= i < self.size implies (#[trigger] self.nodes@[
                    self.rem@[i] as int
                ].prev) == Some(self.rem@[i - 1]) by {
                    assert(self.rem@[i] == r0[i] && self.rem@[i - 1] == r0[i - 1]);
                    assert(r0[i] != bh);
                    if r0[i] == nl {
                        assert(i == sz - 2);
                    }
                }
                assert(v == Some(self.all@[self.nf@ + sz - 1]));
                assert(old(self).remaining().last() == self.all@[self.nf@ + sz - 1]);
                assert(self.remaining() =~= old(self).remaining().drop_last());
                assert(self.popped_back() =~= old(self).popped_back().push(
                    old(self).remaining().last(),
                ));
                assert(self.popped_front() =~= old(self).popped_front());
            }
            v
        }
    }

    /// Round-trip law: at every point of a two-ended consumption, the values
    /// popped from the front, the values still remaining, and the reverse of
    /// the values popped from the back together make up the original
    /// sequence.  Consuming fully from the front therefore yields the same
    /// sequence as consuming fully from the back, reversed.
    pub proof fn lemma_round_trip(self)
        requires
            self.wf(),
        ensures
            self.popped_front() + self.remaining() + self.popped_back().reverse()
                == self.original(),
    {
        assert(self.popped_back().reverse() =~= self.all@.skip(self.all@.len() - self.nb@));
        assert(self.popped_front() + self.remaining() + self.popped_back().reverse() =~= self
            .all@);
    }
}

impl<V> SkipNode<V> {
    /// Handle of the last node on the chain, with the chain's length.
    fn back_and_len(&self) -> (r: (usize, usize))
        requires
            self.wf(),
        ensures
            self.live(r.0),
            self.pos_of(r.0) == self.size(),
            r.1 == self.size(),
    {
        let mut b: usize = 0;
        let mut n: usize = 0;
        loop
            invariant
                self.wf(),
                self.live(b),
                self.pos_of(b) == n,
                n <= self.size(),
            decreases self.size() - n,
        {
            let ghost p = self.pos_of(b);
            let ghost q = self.next_pos(p, 0);
            proof {
                self.lemma_arena_fits();
                self.lemma_idx_of_pos(b);
                assert(self.node_ok(p));
                assert(self.link_ok(p, 0));
                self.lemma_next_pos(p, 0);
                if q <= self.size() {
                    self.lemma_pos_of_idx(q);
                }
                if p < self.size() {
                    assert(q == p + 1);
                }
            }
            match self.nodes[b].links[0] {
                Some(x) => {
                    b = x;
                    n = n + 1;
                },
                None => {
                    return (b, n);
                },
            }
        }
    }

    /// Number of levels the anchor's link vector spans.
    pub fn level_count(&self) -> (r: usize)
        requires
            self.wf(),
        ensures
            r as int == self.height(),
    {
        proof {
            assert(self.node_ok(0));
        }
        self.nodes[0].links.len()
    }

    /// Consume the chain into a two-ended iterator over its element values.
    pub fn into_iter(self) -> (r: IntoIter<V>)
        requires
            self.wf(),
        ensures
            r.wf(),
            r.original() == self.elems(),
            r.remaining() == self.elems(),
            r.popped_front() == Seq::<V>::empty(),
            r.popped_back() == Seq::<V>::empty(),
            r.count() == self.size(),
    {
        let (back, len) = self.back_and_len();
        proof {
            assert(self.node_ok(0));
        }
        let first = self.nodes[0].links[0];
        proof {
            assert(self.link_ok(0, 0));
            self.lemma_next_pos(0, 0);
            if self.size() > 0 {
                self.lemma_pos_of_idx(1);
                assert(self.next_pos(0, 0) == 1);
            }
            self.lemma_idx_of_pos(back);
        }
        let s = self;
        let it = IntoIter::<V> {
            nodes: s.nodes,
            first,
            last: back,
            size: len,
            all: Ghost(self.elems()),
            rem: Ghost(self.order@),
            nf: Ghost(0),
            nb: Ghost(0),
        };
        proof {
            assert forall|i: int| 0 <= i < it.size implies {
                &&& (#[trigger] it.rem@[i]) < it.nodes@.len()
                &&& it.nodes@[it.rem@[i] as int].value == Some(it.all@[it.nf@ + i])
                &&& it.nodes@[it.rem@[i] as int].links@.len() >= 1
                &&& (i < it.size - 1 ==> it.nodes@[it.rem@[i] as int].links@[0] == Some(
                    it.rem@[i + 1],
                ))
                &&& (i >= 1 ==> it.nodes@[it.rem@[i] as int].prev == Some(it.rem@[i - 1]))
            } by {
                self.lemma_pos_of_idx(i + 1);
                assert(self.idx_at(i + 1) == self.order@[i]);
                assert(self.node_ok(i + 1));
                self.lemma_level0_chain(i + 1);
                if i < it.size - 1 {
                    self.lemma_pos_of_idx(i + 2);
                }
                if i >= 1 {
                    self.lemma_pos_of_idx(i);
                }
                assert(it.nodes@[it.rem@[i] as int] == self.node_at(i + 1));
                assert(it.all@[i] == self.node_at(i + 1).value->Some_0);
            }
            if it.size > 0 {
                self.lemma_pos_of_idx(self.size());
                assert(it.last == self.idx_at(self.size()));
                self.lemma_level0_chain(self.size());
            }
            assert(it.remaining() =~= self.elems());
            assert(it.popped_front() =~= Seq::<V>::empty());
            assert(it.popped_back() =~= Seq::<V>::empty());
        }
        it
    }
}

} // verus!
