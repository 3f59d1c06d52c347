//! The graph store: owns nodes and undirected adjacency lists.
//!
//! Nodes are identified by compact `u32` identifiers handed out
//! sequentially by [`SimpleGraph::add`].  An undirected edge is stored
//! as two directed entries, one in each endpoint's list.  The
//! well-formedness invariant [`SimpleGraph::wf`] holds at every public
//! boundary: adjacency is symmetric, stores no duplicates, never links
//! a node to itself, and only mentions identifiers in bounds.
//! Out-of-bounds edge operations and self-loops are silently ignored.

use vstd::prelude::*;

verus! {

/// Node identifier within one graph store.
pub type Idx = u32;

pub struct SimpleGraph<T> {
    pub nodes: Vec<T>,
    pub adj_lists: Vec<Vec<Idx>>,
}

impl<T> SimpleGraph<T> {
    /// The stored points, in identifier order.
    pub open spec fn spec_nodes(&self) -> Seq<T> {
        self.nodes@
    }

    /// The number of nodes.
    pub open spec fn spec_size(&self) -> int {
        self.nodes@.len() as int
    }

    /// The adjacency list of `v`.
    pub open spec fn adj(&self, v: int) -> Seq<Idx> {
        self.adj_lists@[v]@
    }

    /// Degree of `v`: the length of its adjacency list.
    pub open spec fn deg(&self, v: int) -> int {
        self.adj(v).len() as int
    }

    /// `v` is a valid identifier.
    pub open spec fn valid(&self, v: Idx) -> bool {
        (v as int) < self.spec_size()
    }

    /// There is an edge from `v` to `w`.
    pub open spec fn has_edge(&self, v: Idx, w: Idx) -> bool {
        self.valid(v) && self.adj(v as int).contains(w)
    }

    /// Every node's degree is at most `b`.
    pub open spec fn degrees_bounded(&self, b: int) -> bool {
        forall|v: int| 0 <= v < self.spec_size() ==> self.deg(v) <= b
    }

    /// Well-formedness: lists parallel to nodes, adjacency symmetric,
    /// duplicate-free, self-loop-free and in bounds.
    pub open spec fn wf(&self) -> bool {
        &&& self.adj_lists@.len() == self.nodes@.len()
        &&& self.nodes@.len() <= u32::MAX
        &&& forall|v: int|
            0 <= v < self.spec_size() ==> (#[trigger] self.adj(v)).no_duplicates()
        &&& forall|v: int, j: int|
            0 <= v < self.spec_size() && 0 <= j < self.adj(v).len() ==> (#[trigger] self.adj(v)[j]
                as int) < self.spec_size() && self.adj(v)[j] != v
        &&& forall|v: Idx, w: Idx| #[trigger] self.has_edge(v, w) ==> self.has_edge(w, v)
    }

    pub fn new() -> (r: Self)
        ensures
            r.wf(),
            r.spec_size() == 0,
    {
        SimpleGraph { nodes: Vec::new(), adj_lists: Vec::new() }
    }

    /// Build a graph holding the given points and no edges.
    #[verifier::loop_isolation(false)]
    pub fn from_points(points: Vec<T>) -> (r: Self)
        requires
            points@.len() <= u32::MAX,
        ensures
            r.wf(),
            r.spec_nodes() == points@,
            forall|v: int| 0 <= v < r.spec_size() ==> r.adj(v).len() == 0,
    {
        let n = points.len();
        let mut adj_lists: Vec<Vec<Idx>> = Vec::new();
        let mut i: usize = 0;
        while i < n
            invariant
                0 <= i <= n,
                adj_lists@.len() == i,
                forall|v: int| 0 <= v < i ==> adj_lists@[v]@.len() == 0,
            decreases n - i,
        {
            adj_lists.push(Vec::new());
            i += 1;
        }
        SimpleGraph { nodes: points, adj_lists }
    }

    /// The stored points.
    pub fn nodes(&self) -> (r: &Vec<T>)
        ensures
            r@ == self.spec_nodes(),
    {
        &self.nodes
    }

    /// The adjacency lists, parallel to the nodes.
    pub fn adj_lists(&self) -> (r: &Vec<Vec<Idx>>)
        ensures
            r@ == self.adj_lists@,
    {
        &self.adj_lists
    }

    pub fn size(&self) -> (r: usize)
        ensures
            r == self.spec_size(),
    {
        self.nodes.len()
    }

    /// Append a point; it gets the next identifier and no edges.
    pub fn add(&mut self, t: T) -> (idx: Idx)
        requires
            old(self).wf(),
            old(self).spec_size() < u32::MAX,
        ensures
            final(self).wf(),
            idx as int == old(self).spec_size(),
            final(self).spec_nodes() == old(self).spec_nodes().push(t),
            final(self).spec_size() == old(self).spec_size() + 1,
            forall|v: int|
                0 <= v < old(self).spec_size() ==> final(self).adj(v) == old(self).adj(v),
            final(self).adj(idx as int).len() == 0,
            forall|v: Idx, w: Idx| final(self).has_edge(v, w) == old(self).has_edge(v, w),
    {
        let idx = self.nodes.len() as u32;
        self.nodes.push(t);
        self.adj_lists.push(Vec::new());
        assert(forall|v: int|
            0 <= v < old(self).spec_size() ==> #[trigger] self.adj(v) == old(self).adj(v));
        assert forall|v: Idx, w: Idx| self.has_edge(v, w) == old(self).has_edge(v, w) by {
            if (v as int) < old(self).spec_size() {
                assert(self.adj(v as int) == old(self).adj(v as int));
            } else if (v as int) == old(self).spec_size() {
                assert(self.adj(v as int).len() == 0);
            }
        }
        assert(self.wf()) by {
            assert forall|v: int| 0 <= v < self.spec_size() implies (
            #[trigger] self.adj(v)).no_duplicates() by {
                if v < old(self).spec_size() {
                    assert(self.adj(v) == old(self).adj(v));
                }
            }
            assert forall|v: int, j: int|
                0 <= v < self.spec_size() && 0 <= j < self.adj(v).len() implies (
            #[trigger] self.adj(v)[j] as int) < self.spec_size() && self.adj(v)[j] != v by {
                assert(v < old(self).spec_size());
                assert(self.adj(v) == old(self).adj(v));
            }
        }
        idx
    }

    /// The point stored under `v`, if `v` is in bounds.
    pub fn get(&self, v: Idx) -> (r: Option<&T>)
        ensures
            match r {
                Some(p) => self.valid(v) && *p == self.spec_nodes()[v as int],
                None => !self.valid(v),
            },
    {
        if (v as usize) < self.nodes.len() {
            Some(&self.nodes[v as usize])
        } else {
            None
        }
    }

    /// A copy of `v`'s adjacency list; empty if `v` is out of bounds.
    #[verifier::loop_isolation(false)]
    pub fn neighborhood(&self, v: Idx) -> (r: Vec<Idx>)
        requires
            self.wf(),
        ensures
            self.valid(v) ==> r@ == self.adj(v as int),
            !self.valid(v) ==> r@.len() == 0,
    {
        if (v as usize) < self.adj_lists.len() {
            let mut out: Vec<Idx> = Vec::new();
            let list = &self.adj_lists[v as usize];
            let mut i: usize = 0;
            while i < list.len()
                invariant
                    0 <= i <= list@.len(),
                    out@ == list@.take(i as int),
                decreases list@.len() - i,
            {
                out.push(list[i]);
                i += 1;
            }
            assert(out@ =~= list@);
            out
        } else {
            Vec::new()
        }
    }

    /// Whether `v` and `w` are in bounds.
    fn is_in_bounds(&self, v: Idx, w: Idx) -> (r: bool)
        ensures
            r == (self.valid(v) && self.valid(w)),
    {
        let len = self.nodes.len();
        (v as usize) < len && (w as usize) < len
    }

    /// There is an edge between `v` and `w`.
    #[verifier::loop_isolation(false)]
    pub fn is_connected(&self, v: Idx, w: Idx) -> (r: bool)
        requires
            self.wf(),
        ensures
            r == self.has_edge(v, w),
    {
        if (v as usize) >= self.nodes.len() {
            return false;
        }
        let list = &self.adj_lists[v as usize];
        let mut i: usize = 0;
        while i < list.len()
            invariant
                0 <= i <= list@.len(),
                forall|j: int| 0 <= j < i ==> list@[j] != w,
            decreases list@.len() - i,
        {
            if list[i] == w {
                assert(list@[i as int] == w);
                assert(list@ == self.adj(v as int));
                assert(self.adj(v as int).contains(w));
                return true;
            }
            i += 1;
        }
        false
    }

    /// Decide well-formedness by inspection: list lengths, bounds,
    /// self-loops, duplicates and symmetry are all checked, so
    /// untrusted data can be validated before use.
    #[verifier::loop_isolation(false)]
    #[verifier::rlimit(60)]
    pub fn check_wf(&self) -> (r: bool)
        ensures
            r == self.wf(),
    {
        let n = self.nodes.len();
        if self.adj_lists.len() != n {
            return false;
        }
        if n > 0xffff_ffff {
            return false;
        }
        let mut v: usize = 0;
        while v < n
            invariant
                0 <= v <= n,
                n == self.spec_size(),
                self.adj_lists@.len() == n,
                forall|a: int| 0 <= a < v ==> (#[trigger] self.adj(a)).no_duplicates(),
                forall|a: int, j: int|
                    0 <= a < v && 0 <= j < self.adj(a).len() ==> ((#[trigger] self.adj(a)[j])
                        as int) < n && self.adj(a)[j] != a,
                forall|a: int, w: Idx|
                    0 <= a < v && #[trigger] self.adj(a).contains(w) ==> (w as int) < n
                        && self.adj(w as int).contains(a as Idx),
            decreases n - v,
        {
            let dv = self.adj_lists[v].len();
            let mut j: usize = 0;
            while j < dv
                invariant
                    0 <= j <= dv,
                    dv == self.adj(v as int).len(),
                    (v as int) < n,
                    forall|t: int|
                        0 <= t < j ==> ((#[trigger] self.adj(v as int)[t]) as int) < n
                            && self.adj(v as int)[t] != v,
                    forall|t1: int, t2: int|
                        0 <= t1 < t2 < j ==> self.adj(v as int)[t1] != self.adj(v as int)[t2],
                    forall|t: int|
                        0 <= t < j ==> #[trigger] self.adj(
                            (self.adj(v as int)[t]) as int,
                        ).contains(v as Idx),
                decreases dv - j,
            {
                let w = self.adj_lists[v][j];
                if (w as usize) >= n || (w as usize) == v {
                    proof {
                        assert(self.adj(v as int)[j as int] == w);
                    }
                    return false;
                }
                let mut t: usize = 0;
                while t < j
                    invariant
                        0 <= t <= j < dv,
                        dv == self.adj(v as int).len(),
                        (v as int) < n,
                        w == self.adj(v as int)[j as int],
                        forall|u: int| 0 <= u < t ==> self.adj(v as int)[u] != w,
                    decreases j - t,
                {
                    if self.adj_lists[v][t] == w {
                        proof {
                            assert(self.adj(v as int)[t as int] == self.adj(v as int)[j as int]);
                            assert(!self.adj(v as int).no_duplicates());
                        }
                        return false;
                    }
                    t += 1;
                }
                // symmetry: the reverse entry must exist
                let wl = self.adj_lists[w as usize].len();
                let mut u: usize = 0;
                let mut found = false;
                while u < wl && !found
                    invariant
                        0 <= u <= wl,
                        (w as int) < n,
                        (v as int) < n,
                        wl == self.adj(w as int).len(),
                        w == self.adj(v as int)[j as int],
                        found ==> self.adj(w as int).contains(v as Idx),
                        !found ==> forall|x: int| 0 <= x < u ==> self.adj(w as int)[x] != v,
                    decreases (if found {
                        0int
                    } else {
                        1int
                    }), wl - u,
                {
                    if self.adj_lists[w as usize][u] == v as u32 {
                        proof {
                            assert(self.adj(w as int)[u as int] == v as Idx);
                        }
                        found = true;
                    } else {
                        u += 1;
                    }
                }
                if !found {
                    proof {
                        assert(!self.adj(w as int).contains(v as Idx));
                        assert(self.adj(v as int)[j as int] == w);
                        assert(self.adj(v as int).contains(w));
                        assert(self.has_edge(v as Idx, w));
                        assert(!self.has_edge(w, v as Idx));
                    }
                    return false;
                }
                j += 1;
            }
            proof {
                assert(self.adj(v as int).no_duplicates());
                assert forall|w: Idx| self.adj(v as int).contains(w) implies (w as int) < n
                    && #[trigger] self.adj(w as int).contains(v as Idx) by {
                    let t = choose|t: int|
                        0 <= t < self.adj(v as int).len() && self.adj(v as int)[t] == w;
                }
            }
            v += 1;
        }
        proof {
            assert(self.wf()) by {
                assert forall|a: Idx, b: Idx| #[trigger] self.has_edge(a, b) implies self.has_edge(
                    b,
                    a,
                ) by {
                    assert((a as int) < n);
                    assert(self.adj(a as int).contains(b));
                    assert(((a as int) as Idx) == a);
                    assert(self.adj(b as int).contains(a));
                }
            }
        }
        true
    }

    /// Degree of `v`; zero if out of bounds.
    pub fn degree(&self, v: Idx) -> (r: usize)
        requires
            self.wf(),
        ensures
            self.valid(v) ==> r == self.deg(v as int),
            !self.valid(v) ==> r == 0,
    {
        if (v as usize) < self.nodes.len() {
            self.adj_lists[v as usize].len()
        } else {
            0
        }
    }
}

/// Adjacency symmetry: in a well-formed graph store,
/// `w ∈ adj(v)` exactly when `v ∈ adj(w)`.
pub proof fn lemma_adjacency_symmetric<T>(g: SimpleGraph<T>, v: Idx, w: Idx)
    requires
        g.wf(),
    ensures
        g.has_edge(v, w) <==> g.has_edge(w, v),
{
}

/// No self-loops: in a well-formed graph store no node neighbours
/// itself.
pub proof fn lemma_no_self_loop<T>(g: SimpleGraph<T>, v: Idx)
    requires
        g.wf(),
    ensures
        !g.has_edge(v, v),
{
    if g.has_edge(v, v) {
        let j = choose|j: int| 0 <= j < g.adj(v as int).len() && g.adj(v as int)[j] == v;
        assert(g.adj(v as int)[j] != v);
    }
}

/// `s.push(x)` holds exactly the members of `s` plus `x`.
pub proof fn lemma_push_contains(s: Seq<Idx>, v: Idx, x: Idx)
    ensures
        s.push(v).contains(x) <==> (s.contains(x) || x == v),
{
    let t = s.push(v);
    if t.contains(x) {
        let i = choose|i: int| 0 <= i < t.len() && t[i] == x;
        if i < s.len() {
            assert(s[i] == x);
        }
    }
    if s.contains(x) {
        let i = choose|i: int| 0 <= i < s.len() && s[i] == x;
        assert(t[i] == x);
    }
    assert(t[s.len() as int] == v);
}

/// Pushing a fresh element keeps a sequence duplicate-free.
pub proof fn lemma_push_no_duplicates(s: Seq<Idx>, v: Idx)
    requires
        s.no_duplicates(),
        !s.contains(v),
    ensures
        s.push(v).no_duplicates(),
{
    let t = s.push(v);
    assert forall|i: int, j: int| 0 <= i < j < t.len() implies t[i] != t[j] by {
        if j < s.len() {
            assert(s[i] != s[j]);
        } else {
            assert(t[j] == v);
            assert(t[i] == s[i]);
            assert(s.contains(s[i]));
        }
    }
}

/// Removing position `i` from a duplicate-free sequence removes exactly
/// the member `s[i]`.
pub proof fn lemma_remove_idx(s: Seq<Idx>, i: int, x: Idx)
    requires
        0 <= i < s.len(),
        s.no_duplicates(),
    ensures
        s.remove(i).contains(x) <==> (s.contains(x) && x != s[i]),
        s.remove(i).no_duplicates(),
{
    let t = s.remove(i);
    assert forall|a: int, b: int| 0 <= a < b < t.len() implies t[a] != t[b] by {
        let a2: int = if a < i { a } else { a + 1 };
        let b2: int = if b < i { b } else { b + 1 };
        assert(t[a] == s[a2] && t[b] == s[b2]);
        assert(s[a2] != s[b2]);
    }
    if t.contains(x) {
        let j = choose|j: int| 0 <= j < t.len() && t[j] == x;
        let j2: int = if j < i { j } else { j + 1 };
        assert(s[j2] == x);
        assert(s.contains(x));
        assert(s[j2] != s[i]);
    }
    if s.contains(x) && x != s[i] {
        let j = choose|j: int| 0 <= j < s.len() && s[j] == x;
        if j < i {
            assert(t[j] == x);
        } else {
            assert(j > i);
            assert(t[j - 1] == x);
        }
    }
}

impl<T> SimpleGraph<T> {
    /// Record `target` in `src`'s list if it is not already there.
    #[verifier::loop_isolation(false)]
    fn connect_directed(&mut self, src: Idx, target: Idx)
        requires
            (src as int) < old(self).adj_lists@.len(),
        ensures
            final(self).nodes@ == old(self).nodes@,
            final(self).adj_lists@.len() == old(self).adj_lists@.len(),
            forall|x: int|
                0 <= x < old(self).adj_lists@.len() && x != src as int ==> final(self).adj_lists@[x] == old(self).adj_lists@[x],
            old(self).adj_lists@[src as int]@.contains(target) ==> final(self).adj_lists@ == old(self).adj_lists@,
            !old(self).adj_lists@[src as int]@.contains(target) ==> final(self).adj_lists@[src as int]@ == old(self).adj_lists@[src as int]@.push(target),
    {
        let ghost l = self.adj_lists@[src as int]@;
        let n = self.adj_lists[src as usize].len();
        let mut i: usize = 0;
        while i < n
            invariant
                0 <= i <= n,
                self.adj_lists@ == old(self).adj_lists@,
                self.nodes@ == old(self).nodes@,
                forall|j: int| 0 <= j < i ==> l[j] != target,
            decreases n - i,
        {
            if self.adj_lists[src as usize][i] == target {
                assert(l[i as int] == target);
                assert(l.contains(target));
                return ;
            }
            i += 1;
        }
        assert(!l.contains(target));
        self.adj_lists[src as usize].push(target);
    }

    /// Strike `target` from `src`'s list if it is there.
    #[verifier::loop_isolation(false)]
    fn disconnect_directed(&mut self, src: Idx, target: Idx)
        requires
            (src as int) < old(self).adj_lists@.len(),
            old(self).adj_lists@[src as int]@.no_duplicates(),
        ensures
            final(self).nodes@ == old(self).nodes@,
            final(self).adj_lists@.len() == old(self).adj_lists@.len(),
            forall|x: int|
                0 <= x < old(self).adj_lists@.len() && x != src as int ==> final(self).adj_lists@[x] == old(self).adj_lists@[x],
            !old(self).adj_lists@[src as int]@.contains(target) ==> final(self).adj_lists@ == old(self).adj_lists@,
            forall|x: Idx|
                final(self).adj_lists@[src as int]@.contains(x) <==> (old(self).adj_lists@[src as int]@.contains(x) && x != target),
            final(self).adj_lists@[src as int]@.no_duplicates(),
            final(self).adj_lists@[src as int]@.len() == old(self).adj_lists@[src as int]@.len()
                - (if old(self).adj_lists@[src as int]@.contains(target) {
                1int
            } else {
                0int
            }),
    {
        let ghost l = self.adj_lists@[src as int]@;
        let n = self.adj_lists[src as usize].len();
        let mut i: usize = 0;
        while i < n
            invariant
                0 <= i <= n,
                self.adj_lists@ == old(self).adj_lists@,
                self.nodes@ == old(self).nodes@,
                forall|j: int| 0 <= j < i ==> l[j] != target,
            decreases n - i,
        {
            if self.adj_lists[src as usize][i] == target {
                assert(l[i as int] == target);
                assert(l.contains(target));
                self.adj_lists[src as usize].remove(i);
                proof {
                    assert forall|x: Idx|
                        self.adj_lists@[src as int]@.contains(x) <==> (l.contains(x) && x
                            != target) by {
                        lemma_remove_idx(l, i as int, x);
                    }
                    lemma_remove_idx(l, i as int, target);
                }
                return ;
            }
            i += 1;
        }
        assert(!l.contains(target));
    }
}

impl<T> SimpleGraph<T> {
    /// Add the undirected edge between `v` and `w`.  Out-of-bounds
    /// identifiers and self-loops are silently ignored; the operation is
    /// idempotent.
    pub fn add_edge(&mut self, v: Idx, w: Idx)
        requires
            old(self).wf(),
        ensures
            final(self).wf(),
            final(self).spec_nodes() == old(self).spec_nodes(),
            final(self).spec_size() == old(self).spec_size(),
            forall|a: Idx, b: Idx|
                final(self).has_edge(a, b) <==> (old(self).has_edge(a, b) || (old(self).valid(v)
                    && old(self).valid(w) && v != w && ((a == v && b == w) || (a == w && b
                    == v)))),
            forall|x: int|
                0 <= x < old(self).spec_size() && x != v as int && x != w as int ==> final(
                self).adj(x) == old(self).adj(x),
            (old(self).valid(v) && old(self).valid(w) && v != w && !old(self).has_edge(v, w))
                ==> (final(self).adj(v as int) == old(self).adj(v as int).push(w) && final(
            self).adj(w as int) == old(self).adj(w as int).push(v)),
            (!(old(self).valid(v) && old(self).valid(w)) || v == w || old(self).has_edge(v, w))
                ==> final(self).adj_lists@ == old(self).adj_lists@,
    {
        if !self.is_in_bounds(v, w) {
            return ;
        }
        if v == w {
            return ;
        }
        let ghost g0 = *self;
        assert(g0.has_edge(v, w) <==> g0.has_edge(w, v));
        self.connect_directed(v, w);
        self.connect_directed(w, v);
        proof {
            lemma_push_contains(g0.adj(v as int), w, w);
            lemma_push_contains(g0.adj(w as int), v, v);
            if g0.has_edge(v, w) {
                assert(self.adj_lists@ == g0.adj_lists@);
            } else {
                assert(self.adj(v as int) == g0.adj(v as int).push(w));
                assert(self.adj(w as int) == g0.adj(w as int).push(v));
                lemma_push_no_duplicates(g0.adj(v as int), w);
                lemma_push_no_duplicates(g0.adj(w as int), v);
            }
            assert forall|a: Idx, b: Idx|
                self.has_edge(a, b) <==> (g0.has_edge(a, b) || (g0.valid(v) && g0.valid(w) && v
                    != w && ((a == v && b == w) || (a == w && b == v)))) by {
                if g0.valid(a) {
                    if a == v {
                        lemma_push_contains(g0.adj(v as int), w, b);
                    } else if a == w {
                        lemma_push_contains(g0.adj(w as int), v, b);
                    } else {
                        assert(self.adj(a as int) == g0.adj(a as int));
                    }
                }
            }
            assert(self.wf()) by {
                assert forall|x: int|
                    0 <= x < self.spec_size() implies (#[trigger] self.adj(x)).no_duplicates() by {
                    if x != v as int && x != w as int {
                        assert(self.adj(x) == g0.adj(x));
                    }
                }
                assert forall|x: int, j: int|
                    0 <= x < self.spec_size() && 0 <= j < self.adj(x).len() implies (
                #[trigger] self.adj(x)[j] as int) < self.spec_size() && self.adj(x)[j] != x by {
                    if x != v as int && x != w as int {
                        assert(self.adj(x) == g0.adj(x));
                    } else if !g0.has_edge(v, w) {
                        if x == v as int {
                            assert(self.adj(x) == g0.adj(x).push(w));
                        } else {
                            assert(self.adj(x) == g0.adj(x).push(v));
                        }
                    }
                }
                assert forall|a: Idx, b: Idx| self.has_edge(a, b) implies self.has_edge(b, a) by {
                    if g0.has_edge(a, b) {
                        assert(g0.has_edge(b, a));
                        assert(self.has_edge(b, a));
                    } else {
                        assert(self.has_edge(b, a));
                    }
                }
            }
        }
    }

    /// Remove the undirected edge between `v` and `w`, if present.
    pub fn remove_edge(&mut self, v: Idx, w: Idx)
        requires
            old(self).wf(),
        ensures
            final(self).wf(),
            final(self).spec_nodes() == old(self).spec_nodes(),
            final(self).spec_size() == old(self).spec_size(),
            forall|a: Idx, b: Idx|
                final(self).has_edge(a, b) <==> (old(self).has_edge(a, b) && !((a == v && b == w)
                    || (a == w && b == v))),
            forall|x: int|
                0 <= x < old(self).spec_size() && x != v as int && x != w as int ==> final(
                self).adj(x) == old(self).adj(x),
            old(self).valid(v) && old(self).valid(w) && v != w ==> final(self).deg(v as int)
                == old(self).deg(v as int) - (if old(self).has_edge(v, w) {
                1int
            } else {
                0int
            }),
            old(self).valid(v) && old(self).valid(w) && v != w ==> final(self).deg(w as int)
                == old(self).deg(w as int) - (if old(self).has_edge(w, v) {
                1int
            } else {
                0int
            }),
            (!(old(self).valid(v) && old(self).valid(w)) || v == w) ==> final(self).adj_lists@
                == old(self).adj_lists@,
    {
        if !self.is_in_bounds(v, w) {
            return ;
        }
        if v == w {
            // A well-formed graph has no self-loop to remove.
            assert(forall|a: Idx, b: Idx|
                self.has_edge(a, b) ==> !((a == v && b == w) || (a == w && b == v)));
            return ;
        }
        let ghost g0 = *self;
        proof {
            assert(g0.adj(v as int).no_duplicates());
            assert(g0.adj(w as int).no_duplicates());
        }
        self.disconnect_directed(v, w);
        proof {
            assert(self.adj_lists@[w as int] == g0.adj_lists@[w as int]);
        }
        self.disconnect_directed(w, v);
        proof {
            assert(self.adj(v as int).contains(w) == false);
            assert(self.adj(w as int).contains(v) == false);
            assert forall|a: Idx, b: Idx|
                self.has_edge(a, b) <==> (g0.has_edge(a, b) && !((a == v && b == w) || (a == w && b
                    == v))) by {
                if g0.valid(a) {
                    if a != v && a != w {
                        assert(self.adj(a as int) == g0.adj(a as int));
                    }
                }
            }
            assert(self.wf()) by {
                assert forall|x: int|
                    0 <= x < self.spec_size() implies (#[trigger] self.adj(x)).no_duplicates() by {
                    if x != v as int && x != w as int {
                        assert(self.adj(x) == g0.adj(x));
                    }
                }
                assert forall|x: int, j: int|
                    0 <= x < self.spec_size() && 0 <= j < self.adj(x).len() implies (
                #[trigger] self.adj(x)[j] as int) < self.spec_size() && self.adj(x)[j] != x by {
                    if x != v as int && x != w as int {
                        assert(self.adj(x) == g0.adj(x));
                    } else {
                        let y = self.adj(x)[j];
                        assert(self.adj(x).contains(y));
                        assert(g0.adj(x).contains(y));
                        let j0 = choose|j0: int| 0 <= j0 < g0.adj(x).len() && g0.adj(x)[j0] == y;
                        assert((g0.adj(x)[j0] as int) < g0.spec_size());
                    }
                }
                assert forall|a: Idx, b: Idx| self.has_edge(a, b) implies self.has_edge(b, a) by {
                    assert(g0.has_edge(a, b));
                    assert(g0.has_edge(b, a));
                    assert(self.has_edge(b, a));
                }
            }
        }
    }

    /// Remove every edge incident to `v`.
    #[verifier::loop_isolation(false)]
    #[verifier::rlimit(60)]
    #[verifier::spinoff_prover]
    pub fn clear_edges(&mut self, v: Idx)
        requires
            old(self).wf(),
        ensures
            final(self).wf(),
            final(self).spec_nodes() == old(self).spec_nodes(),
            final(self).spec_size() == old(self).spec_size(),
            forall|a: Idx, b: Idx|
                final(self).has_edge(a, b) <==> (old(self).has_edge(a, b) && a != v && b != v),
            old(self).valid(v) ==> final(self).deg(v as int) == 0,
            forall|x: Idx|
                old(self).valid(x) && x != v ==> final(self).deg(x as int) == old(self).deg(
                    x as int,
                ) - (if old(self).has_edge(x, v) {
                    1int
                } else {
                    0int
                }),
            forall|x: Idx|
                old(self).valid(x) && x != v && !old(self).has_edge(v, x) ==> final(self).adj(
                    x as int,
                ) == old(self).adj(x as int),
    {
        let ghost g0 = *self;
        if (v as usize) >= self.nodes.len() {
            proof {
                assert forall|a: Idx, b: Idx|
                    self.has_edge(a, b) <==> (g0.has_edge(a, b) && a != v && b != v) by {
                    if g0.has_edge(a, b) && b == v {
                        assert(g0.has_edge(b, a));
                    }
                }
            }
            return ;
        }
        let nbrs = self.neighborhood(v);
        let ghost a0 = g0.adj(v as int);
        let n = nbrs.len();
        let mut i: usize = 0;
        while i < n
            invariant
                0 <= i <= n,
                g0.valid(v),
                nbrs@ == a0,
                n == a0.len(),
                self.wf(),
                self.spec_nodes() == g0.spec_nodes(),
                forall|a: Idx, b: Idx|
                    self.has_edge(a, b) <==> (g0.has_edge(a, b) && !((a == v && a0.take(
                        i as int,
                    ).contains(b)) || (b == v && a0.take(i as int).contains(a)))),
                self.deg(v as int) == a0.len() - i,
                forall|x: Idx|
                    g0.valid(x) && x != v ==> self.deg(x as int) == g0.deg(x as int) - (if a0.take(
                        i as int,
                    ).contains(x) {
                        1int
                    } else {
                        0int
                    }),
                forall|x: Idx|
                    g0.valid(x) && x != v && !a0.take(i as int).contains(x) ==> self.adj(x as int)
                        == g0.adj(x as int),
            decreases n - i,
        {
            let w = nbrs[i];
            let ghost gpre = *self;
            proof {
                assert(a0[i as int] == w);
                assert(a0.contains(w));
                assert(g0.has_edge(v, w));
                assert(w != v && g0.valid(w));
                assert(!a0.take(i as int).contains(w)) by {
                    if a0.take(i as int).contains(w) {
                        let j = choose|j: int|
                            0 <= j < i && a0.take(i as int)[j] == w;
                        assert(a0[j] == w && a0[i as int] == w);
                        assert(a0.no_duplicates());
                    }
                }
                assert(gpre.has_edge(v, w));
                assert(gpre.has_edge(w, v));
                assert(forall|a: Idx, b: Idx|
                    gpre.has_edge(a, b) <==> (g0.has_edge(a, b) && !((a == v && a0.take(
                        i as int,
                    ).contains(b)) || (b == v && a0.take(i as int).contains(a)))));
            }
            self.remove_edge(v, w);
            proof {
                assert(a0.take(i + 1) =~= a0.take(i as int).push(a0[i as int]));
                assert forall|x: Idx|
                    a0.take(i + 1).contains(x) <==> (a0.take(i as int).contains(x) || x
                        == w) by {
                    lemma_push_contains(a0.take(i as int), w, x);
                }
                assert(self.deg(v as int) == a0.len() - i - 1);
                assert forall|a: Idx, b: Idx|
                    self.has_edge(a, b) <==> (g0.has_edge(a, b) && !((a == v && a0.take(
                        i + 1,
                    ).contains(b)) || (b == v && a0.take(i + 1).contains(a)))) by {
                    assert(self.has_edge(a, b) <==> (gpre.has_edge(a, b) && !((a == v && b == w)
                        || (a == w && b == v))));
                }
            }
            i += 1;
        }
        proof {
            {
                assert(a0.take(n as int) =~= a0);
                assert forall|a: Idx, b: Idx|
                    self.has_edge(a, b) <==> (g0.has_edge(a, b) && a != v && b != v) by {
                    if g0.has_edge(a, b) {
                        if a == v {
                            assert(a0.contains(b));
                        }
                        if b == v {
                            assert(g0.has_edge(b, a));
                            assert(a0.contains(a));
                        }
                    }
                }
                assert forall|x: Idx|
                    g0.valid(x) && x != v implies self.deg(x as int) == g0.deg(x as int) - (
                if g0.has_edge(x, v) {
                    1int
                } else {
                    0int
                }) by {
                    assert(a0.contains(x) <==> g0.has_edge(v, x));
                    assert(g0.has_edge(v, x) <==> g0.has_edge(x, v)) by {
                        if g0.has_edge(x, v) {
                            assert(g0.has_edge(v, x));
                        }
                    }
                }
            }
        }
    }

    /// Connect `v` to each listed neighbour, skipping invalid entries,
    /// self-loops and edges already present.
    #[verifier::loop_isolation(false)]
    #[verifier::rlimit(60)]
    #[verifier::spinoff_prover]
    pub fn add_neighbors(&mut self, v: Idx, neighbors: &Vec<Idx>)
        requires
            old(self).wf(),
        ensures
            final(self).wf(),
            final(self).spec_nodes() == old(self).spec_nodes(),
            final(self).spec_size() == old(self).spec_size(),
            forall|a: Idx, b: Idx|
                final(self).has_edge(a, b) <==> (old(self).has_edge(a, b) || (old(self).valid(v)
                    && ((a == v && neighbors@.contains(b) && old(self).valid(b) && b != v) || (b
                    == v && neighbors@.contains(a) && old(self).valid(a) && a != v)))),
            old(self).valid(v) ==> old(self).deg(v as int) <= final(self).deg(v as int) <= old(self).deg(v as int) + neighbors@.len(),
            forall|x: Idx|
                old(self).valid(x) && x != v ==> old(self).deg(x as int) <= final(self).deg(
                    x as int,
                ) <= old(self).deg(x as int) + (if neighbors@.contains(x) {
                    1int
                } else {
                    0int
                }),
            forall|x: Idx|
                old(self).valid(x) && x != v && !neighbors@.contains(x) ==> final(self).adj(
                    x as int,
                ) == old(self).adj(x as int),
    {
        let ghost g0 = *self;
        let ghost nn = neighbors@;
        let n = neighbors.len();
        let mut i: usize = 0;
        while i < n
            invariant
                0 <= i <= n,
                self.wf(),
                self.spec_nodes() == g0.spec_nodes(),
                forall|a: Idx, b: Idx|
                    self.has_edge(a, b) <==> (g0.has_edge(a, b) || (g0.valid(v) && ((a == v
                        && nn.take(i as int).contains(b) && g0.valid(b) && b != v) || (b == v
                        && nn.take(i as int).contains(a) && g0.valid(a) && a != v)))),
                g0.valid(v) ==> g0.deg(v as int) <= self.deg(v as int) <= g0.deg(v as int) + i,
                forall|x: Idx|
                    g0.valid(x) && x != v ==> g0.deg(x as int) <= self.deg(x as int) <= g0.deg(
                        x as int,
                    ) + (if nn.take(i as int).contains(x) {
                        1int
                    } else {
                        0int
                    }),
                forall|x: Idx|
                    g0.valid(x) && x != v && !nn.take(i as int).contains(x) ==> self.adj(x as int)
                        == g0.adj(x as int),
            decreases n - i,
        {
            let b = neighbors[i];
            let ghost gpre = *self;
            proof {
                assert(nn[i as int] == b);
                assert(nn.contains(b));
                assert(forall|a: Idx, b2: Idx|
                    gpre.has_edge(a, b2) <==> (g0.has_edge(a, b2) || (g0.valid(v) && ((a == v
                        && nn.take(i as int).contains(b2) && g0.valid(b2) && b2 != v) || (b2 == v
                        && nn.take(i as int).contains(a) && g0.valid(a) && a != v)))));
            }
            self.add_edge(v, b);
            proof {
                assert(nn.take(i + 1) =~= nn.take(i as int).push(nn[i as int]));
                assert forall|x: Idx|
                    nn.take(i + 1).contains(x) <==> (nn.take(i as int).contains(x) || x
                        == b) by {
                    lemma_push_contains(nn.take(i as int), b, x);
                }
                assert(forall|x: Idx| gpre.valid(x) == g0.valid(x));
                assert(forall|x: Idx| self.valid(x) == g0.valid(x));
                if g0.valid(v) && gpre.valid(b) && b != v && !gpre.has_edge(v, b) {
                    assert(!nn.take(i as int).contains(b)) by {
                        if nn.take(i as int).contains(b) {
                            assert(gpre.has_edge(v, b));
                        }
                    }
                }
                assert forall|a: Idx, b2: Idx|
                    self.has_edge(a, b2) <==> (g0.has_edge(a, b2) || (g0.valid(v) && ((a == v
                        && nn.take(i + 1).contains(b2) && g0.valid(b2) && b2 != v) || (b2 == v
                        && nn.take(i + 1).contains(a) && g0.valid(a) && a != v)))) by {
                    assert(self.has_edge(a, b2) <==> (gpre.has_edge(a, b2) || (gpre.valid(v)
                        && gpre.valid(b) && v != b && ((a == v && b2 == b) || (a == b && b2
                        == v)))));
                }
            }
            i += 1;
        }
        proof {
            assert(nn.take(n as int) =~= nn);
        }
    }
}

/// The graph-store interface: append-only nodes with compact
/// identifiers and undirected, idempotent, bounds-checked edge
/// updates.
pub trait Graph<T>: Sized {
    spec fn g_nodes(&self) -> Seq<T>;

    spec fn g_adj(&self, v: int) -> Seq<Idx>;

    spec fn g_wf(&self) -> bool;

    /// There is an edge from `v` to `w`.
    open spec fn g_edge(&self, v: Idx, w: Idx) -> bool {
        (v as int) < self.g_nodes().len() && self.g_adj(v as int).contains(w)
    }

    fn add(&mut self, t: T) -> (idx: Idx)
        requires
            old(self).g_wf(),
            old(self).g_nodes().len() < 0xffff_ffff,
        ensures
            final(self).g_wf(),
            idx as int == old(self).g_nodes().len(),
            final(self).g_nodes() == old(self).g_nodes().push(t),
            final(self).g_adj(idx as int).len() == 0,
            forall|v: int|
                0 <= v < old(self).g_nodes().len() ==> final(self).g_adj(v) == old(self).g_adj(v),
    ;

    fn get(&self, v: Idx) -> (r: Option<&T>)
        ensures
            match r {
                Some(p) => (v as int) < self.g_nodes().len() && *p == self.g_nodes()[v as int],
                None => (v as int) >= self.g_nodes().len(),
            },
    ;

    fn add_edge(&mut self, v: Idx, w: Idx)
        requires
            old(self).g_wf(),
        ensures
            final(self).g_wf(),
            final(self).g_nodes() == old(self).g_nodes(),
            forall|a: Idx, b: Idx|
                final(self).g_edge(a, b) <==> (old(self).g_edge(a, b) || ((v as int) < old(
                    self,
                ).g_nodes().len() && (w as int) < old(self).g_nodes().len() && v != w && ((a == v
                    && b == w) || (a == w && b == v)))),
    ;

    fn remove_edge(&mut self, v: Idx, w: Idx)
        requires
            old(self).g_wf(),
        ensures
            final(self).g_wf(),
            final(self).g_nodes() == old(self).g_nodes(),
            forall|a: Idx, b: Idx|
                final(self).g_edge(a, b) <==> (old(self).g_edge(a, b) && !((a == v && b == w) || (
                a == w && b == v))),
    ;

    fn neighborhood(&self, v: Idx) -> (r: Vec<Idx>)
        requires
            self.g_wf(),
        ensures
            (v as int) < self.g_nodes().len() ==> r@ == self.g_adj(v as int),
            (v as int) >= self.g_nodes().len() ==> r@.len() == 0,
    ;

    fn size(&self) -> (r: usize)
        ensures
            r == self.g_nodes().len(),
    ;

    fn is_connected(&self, v: Idx, w: Idx) -> (r: bool)
        requires
            self.g_wf(),
        ensures
            r == self.g_edge(v, w),
    ;

    fn degree(&self, v: Idx) -> (r: usize)
        requires
            self.g_wf(),
        ensures
            (v as int) < self.g_nodes().len() ==> r == self.g_adj(v as int).len(),
            (v as int) >= self.g_nodes().len() ==> r == 0,
    ;

    fn clear_edges(&mut self, v: Idx)
        requires
            old(self).g_wf(),
        ensures
            final(self).g_wf(),
            final(self).g_nodes() == old(self).g_nodes(),
            forall|a: Idx, b: Idx|
                final(self).g_edge(a, b) <==> (old(self).g_edge(a, b) && a != v && b != v),
    ;

    fn add_neighbors(&mut self, v: Idx, neighbors: &Vec<Idx>)
        requires
            old(self).g_wf(),
        ensures
            final(self).g_wf(),
            final(self).g_nodes() == old(self).g_nodes(),
            forall|a: Idx, b: Idx|
                final(self).g_edge(a, b) <==> (old(self).g_edge(a, b) || ((v as int) < old(
                    self,
                ).g_nodes().len() && ((a == v && neighbors@.contains(b) && (b as int) < old(
                    self,
                ).g_nodes().len() && b != v) || (b == v && neighbors@.contains(a) && (a as int)
                    < old(self).g_nodes().len() && a != v)))),
    ;
}

impl<T> Graph<T> for SimpleGraph<T> {
    open spec fn g_nodes(&self) -> Seq<T> {
        self.spec_nodes()
    }

    open spec fn g_adj(&self, v: int) -> Seq<Idx> {
        self.adj(v)
    }

    open spec fn g_wf(&self) -> bool {
        self.wf()
    }

    fn add(&mut self, t: T) -> (idx: Idx) {
        self.add(t)
    }

    fn get(&self, v: Idx) -> (r: Option<&T>) {
        self.get(v)
    }

    fn add_edge(&mut self, v: Idx, w: Idx) {
        self.add_edge(v, w);
        proof {
            assert(forall|a: Idx, b: Idx|
                #[trigger] self.g_edge(a, b) == self.has_edge(a, b));
            assert(forall|a: Idx, b: Idx|
                #[trigger] old(self).g_edge(a, b) == old(self).has_edge(a, b));
        }
    }

    fn remove_edge(&mut self, v: Idx, w: Idx) {
        self.remove_edge(v, w);
        proof {
            assert(forall|a: Idx, b: Idx|
                #[trigger] self.g_edge(a, b) == self.has_edge(a, b));
            assert(forall|a: Idx, b: Idx|
                #[trigger] old(self).g_edge(a, b) == old(self).has_edge(a, b));
        }
    }

    fn neighborhood(&self, v: Idx) -> (r: Vec<Idx>) {
        self.neighborhood(v)
    }

    fn size(&self) -> (r: usize) {
        self.size()
    }

    fn is_connected(&self, v: Idx, w: Idx) -> (r: bool) {
        self.is_connected(v, w)
    }

    fn degree(&self, v: Idx) -> (r: usize) {
        self.degree(v)
    }

    fn clear_edges(&mut self, v: Idx) {
        self.clear_edges(v);
        proof {
            assert(forall|a: Idx, b: Idx|
                #[trigger] self.g_edge(a, b) == self.has_edge(a, b));
            assert(forall|a: Idx, b: Idx|
                #[trigger] old(self).g_edge(a, b) == old(self).has_edge(a, b));
        }
    }

    fn add_neighbors(&mut self, v: Idx, neighbors: &Vec<Idx>) {
        self.add_neighbors(v, neighbors);
        proof {
            assert(forall|a: Idx, b: Idx|
                #[trigger] self.g_edge(a, b) == self.has_edge(a, b));
            assert(forall|a: Idx, b: Idx|
                #[trigger] old(self).g_edge(a, b) == old(self).has_edge(a, b));
        }
    }
}

} // verus!
