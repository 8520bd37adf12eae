//! A combinatorial undirected graph used to generate test inputs and to
//! inspect generated data. Edges are kept as normalized pairs (larger
//! endpoint first) without duplicates, alongside adjacency lists.
use vstd::prelude::*;
use vstd::multiset::Multiset;


verus! {

/// An undirected graph on nodes `0..n` with no self-loops and no duplicate
/// edges.
pub struct Graph {
    /// Adjacency list of each node.
    pub nodes: Vec<Vec<usize>>,
    /// Normalized edges: each stored as (larger endpoint, smaller endpoint).
    pub edges: Vec<(usize, usize)>,
}

impl Graph {
    /// The number of nodes.
    pub open spec fn n(self) -> int {
        self.nodes@.len() as int
    }

    /// Well-formedness: edges are normalized, distinct and within range;
    /// adjacency entries are within range, never self-loops, and each is
    /// backed by an edge; the node and edge counts fit the signed counters
    /// the queries return.
    pub open spec fn wf(self) -> bool {
        &&& self.nodes@.len() <= 0x7fff_ffff
        &&& self.edges@.len() <= 0x7fff_ffff
        &&& forall|k: int|
            0 <= k < self.edges@.len() ==> (#[trigger] self.edges@[k]).1 < self.edges@[k].0
                && self.edges@[k].0 < self.nodes@.len()
        &&& forall|k1: int, k2: int|
            0 <= k1 < k2 < self.edges@.len() ==> self.edges@[k1] != self.edges@[k2]
        &&& forall|u: int, j: int|
            0 <= u < self.nodes@.len() && 0 <= j < self.nodes@[u]@.len() ==> (
            #[trigger] self.nodes@[u]@[j]) < self.nodes@.len() && self.nodes@[u]@[j] != u
                && self.spec_has_edge(u, self.nodes@[u]@[j] as int)
    }

    /// True when an edge joins `u` and `v`. Symmetric by construction, and
    /// false when `u == v`.
    pub open spec fn spec_has_edge(self, u: int, v: int) -> bool {
        exists|k: int|
            0 <= k < self.edges@.len() && ((#[trigger] self.edges@[k]).0 == if u >= v {
                u
            } else {
                v
            }) && (self.edges@[k].1 == if u >= v {
                v
            } else {
                u
            })
    }

    /// A graph with `n` nodes and no edges.
    pub fn new_empty(n: i32) -> (r: Graph)
        requires
            0 <= n,
        ensures
            r.wf(),
            r.n() == n,
            r.edges@ == Seq::<(usize, usize)>::empty(),
            forall|u: int, v: int| !r.spec_has_edge(u, v),
    {
        let count = n as usize;
        let mut nodes: Vec<Vec<usize>> = Vec::new();
        let mut i: usize = 0;
        while i < count
            invariant
                i <= count,
                nodes@.len() == i as int,
                forall|u: int| 0 <= u < i ==> (#[trigger] nodes@[u])@.len() == 0,
            decreases count - i,
        {
            nodes.push(Vec::new());
            i = i + 1;
        }
        Graph { nodes, edges: Vec::new() }
    }

    /// The number of nodes.
    pub fn get_num_nodes(&self) -> (r: i32)
        requires
            self.wf(),
        ensures
            r as int == self.n(),
    {
        self.nodes.len() as i32
    }

    /// The number of edges.
    pub fn get_num_edges(&self) -> (r: i32)
        requires
            self.wf(),
        ensures
            r as int == self.edges@.len(),
    {
        self.edges.len() as i32
    }

    /// Decides whether an edge joins `u` and `v`; `has_edge(u, v)` and
    /// `has_edge(v, u)` always agree, and `has_edge(u, u)` is false.
    pub fn has_edge(&self, u: usize, v: usize) -> (r: bool)
        requires
            self.wf(),
        ensures
            r == self.spec_has_edge(u as int, v as int),
    {
        let hi = if u >= v {
            u
        } else {
            v
        };
        let lo = if u >= v {
            v
        } else {
            u
        };
        let n = self.edges.len();
        let mut k: usize = 0;
        while k < n
            invariant
                n == self.edges@.len(),
                k <= n,
                hi as int == if u >= v {
                    u as int
                } else {
                    v as int
                },
                lo as int == if u >= v {
                    v as int
                } else {
                    u as int
                },
                forall|k2: int|
                    0 <= k2 < k ==> !((#[trigger] self.edges@[k2]).0 == hi && self.edges@[k2].1
                        == lo),
            decreases n - k,
        {
            let e = self.edges[k];
            if e.0 == hi && e.1 == lo {
                return true;
            }
            k = k + 1;
        }
        false
    }

    /// Adds the edge between `u` and `v`. A self-loop, an edge already
    /// present, or a full edge counter leaves the graph unchanged.
    pub fn add_edge(&mut self, u: usize, v: usize)
        requires
            old(self).wf(),
            u < old(self).n(),
            v < old(self).n(),
        ensures
            final(self).wf(),
            final(self).n() == old(self).n(),
            (u == v || old(self).spec_has_edge(u as int, v as int) || old(self).edges@.len()
                >= 0x7fff_ffff) ==> *final(self) == *old(self),
            !(u == v || old(self).spec_has_edge(u as int, v as int) || old(self).edges@.len()
                >= 0x7fff_ffff) ==> {
                &&& final(self).edges@ == old(self).edges@.push(
                    (
                        if u >= v {
                            u
                        } else {
                            v
                        },
                        if u >= v {
                            v
                        } else {
                            u
                        },
                    ),
                )
                &&& forall|a: int, b: int|
                    #[trigger] final(self).spec_has_edge(a, b) <==> (old(self).spec_has_edge(a, b)
                        || (a == u && b == v) || (a == v && b == u))
            },
    {
        if u == v {
            return ;
        }
        if self.has_edge(u, v) {
            return ;
        }
        if self.edges.len() >= 0x7fff_ffff {
            return ;
        }
        let hi = if u >= v {
            u
        } else {
            v
        };
        let lo = if u >= v {
            v
        } else {
            u
        };
        let ghost pre = *self;
        self.edges.push((hi, lo));
        let mut lu: Vec<usize> = Vec::new();
        self.nodes.set_and_swap(u, &mut lu);
        lu.push(v);
        self.nodes.set_and_swap(u, &mut lu);
        let mut lv: Vec<usize> = Vec::new();
        self.nodes.set_and_swap(v, &mut lv);
        lv.push(u);
        self.nodes.set_and_swap(v, &mut lv);
        proof {
            let fin = *self;
            assert(fin.nodes@[u as int]@ =~= pre.nodes@[u as int]@.push(v));
            assert(fin.nodes@[v as int]@ =~= pre.nodes@[v as int]@.push(u));
            assert(forall|w: int|
                0 <= w < pre.nodes@.len() && w != u && w != v ==> (#[trigger] fin.nodes@[w])@
                    == pre.nodes@[w]@);
            assert(fin.edges@ == pre.edges@.push((hi, lo)));
            assert forall|a: int, b: int| #[trigger] fin.spec_has_edge(a, b) implies (
            pre.spec_has_edge(a, b) || (a == u && b == v) || (a == v && b == u)) by {
                let k = choose|k: int|
                    0 <= k < fin.edges@.len() && ((#[trigger] fin.edges@[k]).0 == if a >= b {
                        a
                    } else {
                        b
                    }) && (fin.edges@[k].1 == if a >= b {
                        b
                    } else {
                        a
                    });
                if k < pre.edges@.len() {
                    assert(pre.edges@[k] == fin.edges@[k]);
                    assert(pre.spec_has_edge(a, b));
                }
            }
            assert forall|a: int, b: int|
                (pre.spec_has_edge(a, b) || (a == u && b == v) || (a == v && b
                    == u)) implies #[trigger] fin.spec_has_edge(a, b) by {
                if pre.spec_has_edge(a, b) {
                    let k = choose|k: int|
                        0 <= k < pre.edges@.len() && ((#[trigger] pre.edges@[k]).0 == if a >= b {
                            a
                        } else {
                            b
                        }) && (pre.edges@[k].1 == if a >= b {
                            b
                        } else {
                            a
                        });
                    assert(fin.edges@[k] == pre.edges@[k]);
                } else {
                    assert(fin.edges@[fin.edges@.len() - 1] == (hi, lo));
                }
            }
            assert(!pre.spec_has_edge(u as int, v as int));
            assert(fin.nodes@.len() == pre.nodes@.len());
                assert(fin.edges@.len() == pre.edges@.len() + 1);
                assert forall|k: int|
                    0 <= k < fin.edges@.len() implies (#[trigger] fin.edges@[k]).1
                    < fin.edges@[k].0 && fin.edges@[k].0 < fin.nodes@.len() by {
                    if k < pre.edges@.len() {
                        assert(fin.edges@[k] == pre.edges@[k]);
                    } else {
                        assert(fin.edges@[k] == (hi, lo));
                    }
                }
                assert forall|k1: int, k2: int|
                    0 <= k1 < k2 < fin.edges@.len() implies fin.edges@[k1] != fin.edges@[k2] by {
                    if k2 == fin.edges@.len() - 1 {
                        if fin.edges@[k1] == (hi, lo) {
                            assert(pre.edges@[k1] == (hi, lo));
                            assert(pre.spec_has_edge(u as int, v as int));
                        }
                    }
                }
            assert(fin.nodes@.len() <= 0x7fff_ffff);
            assert(fin.edges@.len() <= 0x7fff_ffff);
            assert forall|w: int, j: int|
                0 <= w < fin.nodes@.len() && 0 <= j < fin.nodes@[w]@.len() implies (
            #[trigger] fin.nodes@[w]@[j]) < fin.nodes@.len() && fin.nodes@[w]@[j] != w
                && fin.spec_has_edge(w, fin.nodes@[w]@[j] as int) by {
                if w == u as int && j == fin.nodes@[w]@.len() - 1 {
                    assert(fin.nodes@[w]@[j] == v);
                    assert(fin.spec_has_edge(u as int, v as int));
                } else if w == v as int && j == fin.nodes@[w]@.len() - 1 {
                    assert(fin.nodes@[w]@[j] == u);
                    assert(fin.spec_has_edge(v as int, u as int));
                } else {
                    assert(fin.nodes@[w]@[j] == pre.nodes@[w]@[j]);
                    assert(pre.spec_has_edge(w, pre.nodes@[w]@[j] as int));
                    assert(fin.spec_has_edge(w, fin.nodes@[w]@[j] as int));
                }
            }
            assert(fin.wf());
        }
    }

    /// A graph on `n` nodes holding every possible edge.
    pub fn new_full(n: i32) -> (r: Graph)
        requires
            0 <= n,
            n * (n - 1) / 2 <= 0x7fff_ffff,
        ensures
            r.wf(),
            r.n() == n,
            r.edges@.len() == n * (n - 1) / 2,
            forall|a: int, b: int|
                #[trigger] r.spec_has_edge(a, b) <==> (0 <= a < n && 0 <= b < n && a != b),
    {
        let mut result = Graph::new_empty(n);
        let count = n as usize;
        let mut u: usize = 0;
        while u < count
            invariant
                count == n as int,
                n * (n - 1) / 2 <= 0x7fff_ffff,
                result.wf(),
                result.n() == n,
                u <= count,
                result.edges@.len() == u * (u - 1) / 2,
                forall|a: int, b: int|
                    #[trigger] result.spec_has_edge(a, b) <==> (0 <= a < n && 0 <= b < n && a != b
                        && (if a >= b {
                        a
                    } else {
                        b
                    }) < u),
            decreases count - u,
        {
            let mut v: usize = 0;
            while v < u
                invariant
                    count == n as int,
                    n * (n - 1) / 2 <= 0x7fff_ffff,
                    result.wf(),
                    result.n() == n,
                    u < count,
                    v <= u,
                    result.edges@.len() == u * (u - 1) / 2 + v,
                    forall|a: int, b: int|
                        #[trigger] result.spec_has_edge(a, b) <==> (0 <= a < n && 0 <= b < n && a
                            != b && ((if a >= b {
                            a
                        } else {
                            b
                        }) < u || ((if a >= b {
                            a
                        } else {
                            b
                        }) == u && (if a >= b {
                            b
                        } else {
                            a
                        }) < v))),
                decreases u - v,
            {
                proof {
                    assert(u * (u - 1) / 2 + v + 1 <= n * (n - 1) / 2) by (nonlinear_arith)
                        requires
                            0 <= v < u < n,
                    ;
                }
                result.add_edge(u, v);
                v = v + 1;
            }
            u = u + 1;
            proof {
                assert(u * (u - 1) / 2 == (u - 1) * (u - 2) / 2 + (u - 1)) by (nonlinear_arith)
                    requires
                        1 <= u,
                ;
            }
        }
        proof {
            assert(count * (count - 1) / 2 == n * (n - 1) / 2);
        }
        result
    }

    /// Whether the graph holds every possible edge, judged by its edge count.
    pub fn is_full(&self) -> (r: bool)
        requires
            self.wf(),
        ensures
            r == (self.edges@.len() == self.n() * (self.n() - 1) / 2),
    {
        let n = self.nodes.len() as i64;
        proof {
            assert(0 <= n <= 0x7fff_ffff);
            assert(n * (n - 1) <= 0x7fff_ffff * 0x7fff_fffe) by (nonlinear_arith)
                requires
                    0 <= n <= 0x7fff_ffff,
            ;
            assert(n * (n - 1) >= 0) by (nonlinear_arith)
                requires
                    0 <= n,
            ;
        }
        let full: i64 = n * (n - 1) / 2;
        (self.edges.len() as i64) == full
    }

    /// The normalized edge list, each pair larger endpoint first, in
    /// insertion order.
    pub fn edges_iter(&self) -> (r: &Vec<(usize, usize)>)
        ensures
            r@ == self.edges@,
    {
        &self.edges
    }
}

} // verus!

verus! {

/// A pair with its larger element first.
pub open spec fn norm_pair(p: (usize, usize)) -> (usize, usize) {
    if p.0 >= p.1 {
        p
    } else {
        (p.1, p.0)
    }
}

/// A uniformly random reordering of a vector: one element at a time is drawn
/// from the remainder. The result holds exactly the elements given.
fn shuffle<T>(v: Vec<T>) -> (r: Vec<T>)
    ensures
        r@.to_multiset() == v@.to_multiset(),
        r@.len() == v@.len(),
{
    broadcast use vstd::seq_lib::group_to_multiset_ensures;

    let mut src = v;
    let mut out: Vec<T> = Vec::new();
    proof {
        assert(out@.to_multiset().add(src@.to_multiset()) =~= v@.to_multiset());
    }
    while src.len() > 0
        invariant
            out@.to_multiset().add(src@.to_multiset()) == v@.to_multiset(),
            out@.len() + src@.len() == v@.len(),
        decreases src.len(),
    {
        broadcast use vstd::seq_lib::group_to_multiset_ensures;

        let j = crate::gen::rand_usize_below(src.len());
        let ghost pre_src = src@;
        let ghost pre_out = out@;
        let x = src.remove(j);
        out.push(x);
        proof {
            assert(src@.to_multiset() == pre_src.to_multiset().remove(pre_src[j as int]));
            assert(out@.to_multiset() == pre_out.to_multiset().insert(x));
            assert(out@.to_multiset().add(src@.to_multiset()) =~= v@.to_multiset());
        }
    }
    proof {
        assert(src@.to_multiset() =~= Multiset::<T>::empty());
        assert(out@.to_multiset() =~= v@.to_multiset());
    }
    out
}

/// Every normalized in-range pair, smaller first component first: the
/// candidate edges of a graph on `n` nodes.
fn all_pairs(n: i32) -> (r: Vec<(usize, usize)>)
    requires
        0 <= n,
        n * (n - 1) / 2 <= 0x7fff_ffff,
    ensures
        r@.len() == n * (n - 1) / 2,
        r@.no_duplicates(),
        forall|k: int|
            0 <= k < r@.len() ==> (#[trigger] r@[k]).1 < r@[k].0 && (r@[k].0 as int) < n,
{
    let count = n as usize;
    let mut r: Vec<(usize, usize)> = Vec::new();
    let mut u: usize = 0;
    while u < count
        invariant
            count == n as int,
            n * (n - 1) / 2 <= 0x7fff_ffff,
            u <= count,
            r@.len() == u * (u - 1) / 2,
            r@.no_duplicates(),
            forall|k: int|
                0 <= k < r@.len() ==> (#[trigger] r@[k]).1 < r@[k].0 && (r@[k].0 as int) < n
                    && (r@[k].0 as int) < u,
        decreases count - u,
    {
        let mut v: usize = 0;
        while v < u
            invariant
                count == n as int,
                n * (n - 1) / 2 <= 0x7fff_ffff,
                u < count,
                v <= u,
                r@.len() == u * (u - 1) / 2 + v,
                r@.no_duplicates(),
                forall|k: int|
                    0 <= k < r@.len() ==> (#[trigger] r@[k]).1 < r@[k].0 && (r@[k].0 as int) < n
                        && ((r@[k].0 as int) < u || ((r@[k].0 as int) == u && (r@[k].1 as int)
                        < v)),
            decreases u - v,
        {
            proof {
                assert(u * (u - 1) / 2 + v + 1 <= n * (n - 1) / 2) by (nonlinear_arith)
                    requires
                        0 <= v < u < n,
                ;
            }
            r.push((u, v));
            v = v + 1;
        }
        u = u + 1;
        proof {
            assert(u * (u - 1) / 2 == (u - 1) * (u - 2) / 2 + (u - 1)) by (nonlinear_arith)
                requires
                    1 <= u,
            ;
        }
    }
    proof {
        assert(count * (count - 1) / 2 == n * (n - 1) / 2);
    }
    r
}

/// A shuffled copy of `all_pairs(n)`: distinct normalized in-range pairs in
/// random order.
fn shuffled_pairs(n: i32) -> (r: Vec<(usize, usize)>)
    requires
        0 <= n,
        n * (n - 1) / 2 <= 0x7fff_ffff,
    ensures
        r@.len() == n * (n - 1) / 2,
        r@.no_duplicates(),
        forall|k: int|
            0 <= k < r@.len() ==> (#[trigger] r@[k]).1 < r@[k].0 && (r@[k].0 as int) < n,
{
    broadcast use vstd::seq_lib::group_to_multiset_ensures;

    let pairs = all_pairs(n);
    let r = shuffle(pairs);
    proof {
        pairs@.lemma_multiset_has_no_duplicates();
        r@.lemma_multiset_has_no_duplicates_conv();
        assert forall|k: int|
            0 <= k < r@.len() implies (#[trigger] r@[k]).1 < r@[k].0 && (r@[k].0 as int) < n by {
            assert(r@.to_multiset().contains(r@[k]));
            assert(pairs@.to_multiset().contains(r@[k]));
            assert(pairs@.contains(r@[k]));
            let i = choose|i: int| 0 <= i < pairs@.len() && pairs@[i] == r@[k];
            assert(pairs@[i].1 < pairs@[i].0 && (pairs@[i].0 as int) < n);
        }
    }
    r
}

impl Graph {
    /// Adds the distinct normalized pairs `pairs[0..m]` as edges to a graph
    /// that holds exactly `pairs[0..from]` so far.
    fn add_pairs(&mut self, pairs: &Vec<(usize, usize)>, from: usize, m: usize)
        requires
            old(self).wf(),
            from <= m <= pairs@.len(),
            pairs@.no_duplicates(),
            forall|k: int|
                0 <= k < pairs@.len() ==> (#[trigger] pairs@[k]).1 < pairs@[k].0 && (
                pairs@[k].0 as int) < old(self).n(),
            old(self).edges@ == pairs@.take(from as int),
            m <= 0x7fff_ffff,
        ensures
            final(self).wf(),
            final(self).n() == old(self).n(),
            final(self).edges@ == pairs@.take(m as int),
    {
        let mut i: usize = from;
        while i < m
            invariant
                self.wf(),
                self.n() == old(self).n(),
                from <= i <= m <= pairs@.len(),
                m <= 0x7fff_ffff,
                pairs@.no_duplicates(),
                forall|k: int|
                    0 <= k < pairs@.len() ==> (#[trigger] pairs@[k]).1 < pairs@[k].0 && (
                    pairs@[k].0 as int) < self.n(),
                self.edges@ == pairs@.take(i as int),
            decreases m - i,
        {
            let p = pairs[i];
            proof {
                assert(p.1 < p.0 && (p.0 as int) < self.n());
                assert(!self.spec_has_edge(p.0 as int, p.1 as int)) by {
                    if self.spec_has_edge(p.0 as int, p.1 as int) {
                        let k = choose|k: int|
                            0 <= k < self.edges@.len() && ((#[trigger] self.edges@[k]).0 == p.0)
                                && (self.edges@[k].1 == p.1);
                        assert(self.edges@[k] == pairs@.take(i as int)[k]);
                        assert(pairs@[k] == p);
                        assert(pairs@[i as int] == p);
                    }
                }
                assert(self.edges@.len() < 0x7fff_ffff);
            }
            self.add_edge(p.0, p.1);
            i = i + 1;
            proof {
                assert(self.edges@ =~= pairs@.take(i as int));
            }
        }
    }

    /// A graph with `n` nodes and `m` distinct edges drawn at random.
    pub fn new_random(n: i32, m: i32) -> (r: Graph)
        requires
            0 <= n,
            0 <= m,
            m <= n * (n - 1) / 2,
            n * (n - 1) / 2 <= 0x7fff_ffff,
        ensures
            r.wf(),
            r.n() == n,
            r.edges@.len() == m,
    {
        let mut result = Graph::new_empty(n);
        let pairs = shuffled_pairs(n);
        proof {
            assert(result.edges@ =~= pairs@.take(0));
        }
        result.add_pairs(&pairs, 0, m as usize);
        result
    }

    /// A random tree on `n` nodes: every node after the first attaches to a
    /// random earlier node of a random ordering.
    pub fn new_random_tree(n: i32) -> (r: Graph)
        requires
            0 <= n,
            n * (n - 1) / 2 <= 0x7fff_ffff,
        ensures
            r.wf(),
            r.n() == n,
            n >= 1 ==> r.edges@.len() == n - 1,
            n == 0 ==> r.edges@.len() == 0,
            spec_connected(r),
    {
        broadcast use vstd::seq_lib::group_to_multiset_ensures;

        let mut result = Graph::new_empty(n);
        let count = n as usize;
        let mut ident: Vec<usize> = Vec::new();
        let mut k: usize = 0;
        while k < count
            invariant
                k <= count,
                ident@.len() == k as int,
                forall|j: int| 0 <= j < k ==> #[trigger] ident@[j] == j,
            decreases count - k,
        {
            ident.push(k);
            k = k + 1;
        }
        proof {
            assert(ident@.no_duplicates());
        }
        let ghost id_view = ident@;
        let perm = shuffle(ident);
        proof {
            assert(perm@.len() == count as int);
            id_view.lemma_multiset_has_no_duplicates();
            perm@.lemma_multiset_has_no_duplicates_conv();
            assert forall|j: int| 0 <= j < perm@.len() implies (#[trigger] perm@[j] as int) < n by {
                assert(perm@.to_multiset().contains(perm@[j]));
                assert(id_view.to_multiset().contains(perm@[j]));
                assert(id_view.contains(perm@[j]));
                let a = choose|a: int| 0 <= a < id_view.len() && id_view[a] == perm@[j];
                assert(id_view[a] == a as usize);
            }
            if count >= 1 {
                lemma_connected_refl(result, perm@[0] as int);
            }
        }
        let mut i: usize = 1;
        while i < count
            invariant
                count == n as int,
                result.wf(),
                result.n() == n,
                1 <= i <= count || (count == 0 && i == 1),
                perm@.len() == count as int,
                perm@.no_duplicates(),
                forall|j: int| 0 <= j < perm@.len() ==> (#[trigger] perm@[j] as int) < n,
                result.edges@.len() == if i >= 1 {
                    i - 1
                } else {
                    0
                },
                forall|k2: int|
                    0 <= k2 < result.edges@.len() ==> (exists|a: int|
                        0 <= a < i && perm@[a] == (#[trigger] result.edges@[k2]).0) && (exists|
                        b: int,
                    |
                        0 <= b < i && perm@[b] == result.edges@[k2].1),
                forall|j: int|
                    0 <= j < i && j < count ==> connected_pair(
                        result,
                        perm@[0] as int,
                        (#[trigger] perm@[j]) as int,
                    ),
            decreases count - i,
        {
            let u = perm[i];
            let ri = crate::gen::rand_usize_below(i);
            let v = perm[ri];
            proof {
                assert(u != v);
                assert(!result.spec_has_edge(u as int, v as int)) by {
                    if result.spec_has_edge(u as int, v as int) {
                        let k2 = choose|k2: int|
                            0 <= k2 < result.edges@.len() && ((#[trigger] result.edges@[k2]).0
                                == if u >= v {
                                u
                            } else {
                                v
                            }) && (result.edges@[k2].1 == if u >= v {
                                v
                            } else {
                                u
                            });
                        let a = choose|a: int| 0 <= a < i && perm@[a] == result.edges@[k2].0;
                        let b = choose|b: int| 0 <= b < i && perm@[b] == result.edges@[k2].1;
                        assert(perm@[a] == u || perm@[b] == u);
                    }
                }
                assert(result.edges@.len() < 0x7fff_ffff);
            }
            let ghost pre_graph = result;
            let ghost pre = result.edges@;
            result.add_edge(u, v);
            i = i + 1;
            proof {
                assert forall|j: int|
                    0 <= j < i && j < count implies connected_pair(
                    result,
                    perm@[0] as int,
                    (#[trigger] perm@[j]) as int,
                ) by {
                    assert(forall|x: int, y: int|
                        #[trigger] pre_graph.spec_has_edge(x, y) ==> result.spec_has_edge(x, y));
                    if j < i - 1 {
                        lemma_connected_mono(
                            pre_graph,
                            result,
                            perm@[0] as int,
                            perm@[j] as int,
                        );
                    } else {
                        lemma_connected_mono(
                            pre_graph,
                            result,
                            perm@[0] as int,
                            perm@[ri as int] as int,
                        );
                        assert(result.spec_has_edge(v as int, u as int));
                        lemma_connected_step(result, perm@[0] as int, v as int, u as int);
                        assert(perm@[j] == u);
                    }
                }
                assert(result.edges@.len() == pre.len() + 1);
                assert forall|k2: int| 0 <= k2 < result.edges@.len() implies (exists|a: int|
                    0 <= a < i && perm@[a] == (#[trigger] result.edges@[k2]).0) && (exists|b: int|
                    0 <= b < i && perm@[b] == result.edges@[k2].1) by {
                    if k2 < pre.len() {
                        assert(result.edges@[k2] == pre[k2]);
                        let a = choose|a: int| 0 <= a < i - 1 && perm@[a] == pre[k2].0;
                        let b = choose|b: int| 0 <= b < i - 1 && perm@[b] == pre[k2].1;
                        assert(perm@[a] == result.edges@[k2].0);
                        assert(perm@[b] == result.edges@[k2].1);
                    } else {
                        assert(result.edges@[k2] == (
                            if u >= v {
                                u
                            } else {
                                v
                            },
                            if u >= v {
                                v
                            } else {
                                u
                            },
                        ));
                        assert(perm@[i - 1] == u);
                        assert(perm@[ri as int] == v);
                    }
                }
            }
        }
        proof {
            assert forall|a: int, b: int|
                0 <= a < result.n() && 0 <= b < result.n() implies connected_pair(
                result,
                a,
                b,
            ) by {
                // the shuffled ordering still names every node
                assert(id_view[a] == a as usize);
                assert(id_view.contains(a as usize));
                assert(perm@.to_multiset().contains(a as usize));
                assert(perm@.contains(a as usize));
                let ja = choose|j: int| 0 <= j < perm@.len() && perm@[j] == a as usize;
                assert(id_view[b] == b as usize);
                assert(id_view.contains(b as usize));
                assert(perm@.to_multiset().contains(b as usize));
                assert(perm@.contains(b as usize));
                let jb = choose|j: int| 0 <= j < perm@.len() && perm@[j] == b as usize;
                assert(connected_pair(result, perm@[0] as int, perm@[ja] as int));
                assert(connected_pair(result, perm@[0] as int, perm@[jb] as int));
                lemma_connected_sym(result, perm@[0] as int, a);
                lemma_connected_trans(result, a, perm@[0] as int, b);
            }
        }
        result
    }
}

} // verus!

verus! {

impl Graph {
    /// A random connected graph: a random tree, filled with random extra
    /// edges up to `m`. With `m` below `n - 1` the tree stands as is.
    pub fn new_random_connected(n: i32, m: i32) -> (r: Graph)
        requires
            0 <= n,
            0 <= m,
            m <= n * (n - 1) / 2,
            n * (n - 1) / 2 <= 0x7fff_ffff,
        ensures
            r.wf(),
            r.n() == n,
            n >= 1 ==> r.edges@.len() == (if m >= n - 1 {
                m as int
            } else {
                n - 1
            }),
            n == 0 ==> r.edges@.len() == 0,
            spec_connected(r),
    {
        let mut result = Graph::new_random_tree(n);
        let target = m as usize;
        let pairs = shuffled_pairs(n);
        let total = pairs.len();
        let mut i: usize = 0;
        while i < total && result.edges.len() < target
            invariant
                result.wf(),
                result.n() == n,
                total == pairs@.len(),
                total == n * (n - 1) / 2,
                target == m as int,
                m <= n * (n - 1) / 2,
                pairs@.no_duplicates(),
                forall|k: int|
                    0 <= k < pairs@.len() ==> (#[trigger] pairs@[k]).1 < pairs@[k].0 && (
                    pairs@[k].0 as int) < n,
                i <= total,
                spec_connected(result),
                result.edges@.len() >= tree_edge_count(n),
                result.edges@.len() <= (if target >= tree_edge_count(n) {
                    target as int
                } else {
                    tree_edge_count(n)
                }),
                forall|k: int|
                    0 <= k < i ==> result.spec_has_edge(
                        (#[trigger] pairs@[k]).0 as int,
                        pairs@[k].1 as int,
                    ),
            decreases total - i,
        {
            let p = pairs[i];
            if !result.has_edge(p.0, p.1) {
                proof {
                    assert(result.edges@.len() < 0x7fff_ffff);
                }
                let ghost pre_graph = result;
                result.add_edge(p.0, p.1);
                proof {
                    assert(result.spec_has_edge(p.0 as int, p.1 as int));
                    assert forall|a: int, b: int|
                        0 <= a < result.n() && 0 <= b < result.n() implies connected_pair(
                        result,
                        a,
                        b,
                    ) by {
                        assert(forall|x: int, y: int|
                            #[trigger] pre_graph.spec_has_edge(x, y) ==> result.spec_has_edge(
                                x,
                                y,
                            ));
                        lemma_connected_mono(pre_graph, result, a, b);
                    }
                }
            }
            i = i + 1;
            proof {
                assert forall|k: int|
                    0 <= k < i implies result.spec_has_edge(
                    (#[trigger] pairs@[k]).0 as int,
                    pairs@[k].1 as int,
                ) by {
                }
            }
        }
        proof {
            if n >= 1 && result.edges@.len() < target && result.edges@.len() < total {
                // every candidate pair is present, so the edge list holds all
                // of them: its length cannot be below the requested count
                assert(i == total);
                assert forall|k: int|
                    0 <= k < pairs@.len() implies result.edges@.contains(#[trigger] pairs@[k]) by {
                    assert(result.spec_has_edge(pairs@[k].0 as int, pairs@[k].1 as int));
                    let k2 = choose|k2: int|
                        0 <= k2 < result.edges@.len() && ((#[trigger] result.edges@[k2]).0
                            == pairs@[k].0) && (result.edges@[k2].1 == pairs@[k].1);
                    assert(result.edges@[k2] == pairs@[k]);
                }
                pairs@.unique_seq_to_set();
                
                result.edges@.lemma_cardinality_of_set();
                assert(pairs@.to_set().subset_of(result.edges@.to_set())) by {
                    assert forall|x: (usize, usize)| pairs@.to_set().contains(x) implies
                        result.edges@.to_set().contains(x) by {
                        assert(pairs@.contains(x));
                        let k = choose|k: int| 0 <= k < pairs@.len() && pairs@[k] == x;
                        assert(result.edges@.contains(pairs@[k]));
                    }
                }
                vstd::set_lib::lemma_len_subset(pairs@.to_set(), result.edges@.to_set());
                assert(result.edges@.len() >= total);
                assert(false);
            }
        }
        result
    }
}

/// The number of edges of a tree on `n` nodes; zero when there are no nodes.
pub open spec fn tree_edge_count(n: i32) -> int {
    if n >= 1 {
        n - 1
    } else {
        0
    }
}

} // verus!

verus! {

/// The rendering of an edge list, one `u v` line per edge, endpoints
/// one-based.
pub open spec fn edge_lines(es: Seq<(usize, usize)>) -> Seq<char>
    decreases es.len(),
{
    if es.len() == 0 {
        Seq::empty()
    } else {
        edge_lines(es.drop_last()) + crate::decimal::dec_rep((es.last().0 + 1) as nat) + seq![' ']
            + crate::decimal::dec_rep((es.last().1 + 1) as nat) + seq!['\n']
    }
}

impl Graph {
    /// A random bipartite graph: a random ordering of the nodes is split at
    /// a random feasible point, and `m` distinct edges are drawn across the
    /// split, so a two-coloring by side exists.
    pub fn new_random_bipartite(n: i32, m: i32) -> (r: Graph)
        requires
            0 <= n,
            0 <= m,
            n * (n - 1) / 2 <= 0x7fff_ffff,
            exists|s: int| 1 <= s < n && #[trigger] (s * (n - s)) >= m,
        ensures
            r.wf(),
            r.n() == n,
            r.edges@.len() == m,
            exists|c: Seq<bool>|
                c.len() == n && forall|k: int|
                    0 <= k < r.edges@.len() ==> c[(#[trigger] r.edges@[k]).0 as int] != c[r.edges@[
                        k
                    ].1 as int],
    {
        broadcast use vstd::seq_lib::group_to_multiset_ensures;

        let count = n as usize;
        // collect every feasible split size and draw one
        let mut valid: Vec<usize> = Vec::new();
        let mut s: usize = 1;
        while s < count
            invariant
                count == n as int,
                1 <= s <= count || count == 0,
                forall|k: int|
                    0 <= k < valid@.len() ==> 1 <= (#[trigger] valid@[k] as int) < n && (
                    valid@[k] as int) * (n - valid@[k]) >= m,
                forall|s2: int|
                    1 <= s2 < s ==> (#[trigger] (s2 * (n - s2)) >= m ==> exists|k: int|
                        0 <= k < valid@.len() && (#[trigger] valid@[k] as int) == s2),
            decreases count - s,
        {
            proof {
                assert((s as i64) * ((n as i64) - (s as i64)) < 0x8000_0000_0000_0000) by (nonlinear_arith)
                    requires
                        1 <= (s as i64) < (n as i64) <= 0x7fff_ffff,
                ;
            }
            let ghost prev = valid@;
            if (s as i64) * ((n as i64) - (s as i64)) >= (m as i64) {
                valid.push(s);
                proof {
                    assert(forall|k2: int| 0 <= k2 < prev.len() ==> #[trigger] valid@[k2] == prev[k2]);
                    assert(valid@[valid@.len() - 1] == s);
                }
            }
            s = s + 1;
            proof {
                assert forall|s2: int|
                    1 <= s2 < s && #[trigger] (s2 * (n - s2)) >= m implies exists|k: int|
                    0 <= k < valid@.len() && (#[trigger] valid@[k] as int) == s2 by {
                    if s2 < s - 1 {
                        let k = choose|k: int| 0 <= k < prev.len() && (#[trigger] prev[k] as int) == s2;
                        assert(valid@[k] as int == s2);
                    } else {
                        assert(valid@[valid@.len() - 1] as int == s2);
                    }
                }
            }
        }
        proof {
            let w = choose|s2: int| 1 <= s2 < n && #[trigger] (s2 * (n - s2)) >= m;
            assert(exists|k: int|
                0 <= k < valid@.len() && (#[trigger] valid@[k] as int) == w);
        }
        let size1 = valid[crate::gen::rand_usize_below(valid.len())];
        // a random ordering of the nodes, split at size1
        let mut ident: Vec<usize> = Vec::new();
        let mut k: usize = 0;
        while k < count
            invariant
                k <= count,
                ident@.len() == k as int,
                forall|j: int| 0 <= j < k ==> #[trigger] ident@[j] == j,
            decreases count - k,
        {
            ident.push(k);
            k = k + 1;
        }
        proof {
            assert(ident@.no_duplicates());
        }
        let ghost id_view = ident@;
        let perm = shuffle(ident);
        proof {
            assert(perm@.len() == count as int);
            id_view.lemma_multiset_has_no_duplicates();
            perm@.lemma_multiset_has_no_duplicates_conv();
            assert forall|j: int| 0 <= j < perm@.len() implies (#[trigger] perm@[j] as int) < n by {
                assert(perm@.to_multiset().contains(perm@[j]));
                assert(id_view.to_multiset().contains(perm@[j]));
                assert(id_view.contains(perm@[j]));
                let a = choose|a: int| 0 <= a < id_view.len() && id_view[a] == perm@[j];
                assert(id_view[a] == a as usize);
            }
        }
        // every cross pair, normalized: entry a*d + (b - size1) joins perm[a]
        // on the left with perm[b] on the right, so entries are distinct
        let ghost is_left = |x: int|
            exists|a: int| 0 <= a < size1 && (#[trigger] perm@[a] as int) == x;
        let d = count - size1;
        let mut cross: Vec<(usize, usize)> = Vec::new();
        let mut a: usize = 0;
        while a < size1
            invariant
                count == n as int,
                1 <= size1 < count,
                d == count - size1,
                (size1 as int) * (n - size1) >= m,
                perm@.len() == count as int,
                perm@.no_duplicates(),
                forall|j: int| 0 <= j < perm@.len() ==> (#[trigger] perm@[j] as int) < n,
                a <= size1,
                cross@.len() == a * d,
                cross@.no_duplicates(),
                forall|q: int|
                    0 <= q < cross@.len() ==> (#[trigger] cross@[q]).1 < cross@[q].0 && (
                    cross@[q].0 as int) < n,
                forall|q: int|
                    0 <= q < cross@.len() ==> #[trigger] cross@[q] == norm_pair(
                        (perm@[q / (d as int)], perm@[size1 + (q % (d as int))]),
                    ),
            decreases size1 - a,
        {
            let mut b: usize = size1;
            while b < count
                invariant
                    count == n as int,
                    1 <= size1 < count,
                    d == count - size1,
                    (size1 as int) * (n - size1) >= m,
                    perm@.len() == count as int,
                    perm@.no_duplicates(),
                    forall|j: int| 0 <= j < perm@.len() ==> (#[trigger] perm@[j] as int) < n,
                    a < size1,
                    size1 <= b <= count,
                    cross@.len() == a * d + (b - size1),
                    cross@.no_duplicates(),
                    forall|q: int|
                        0 <= q < cross@.len() ==> (#[trigger] cross@[q]).1 < cross@[q].0 && (
                        cross@[q].0 as int) < n,
                    forall|q: int|
                        0 <= q < cross@.len() ==> #[trigger] cross@[q] == norm_pair(
                            (perm@[q / (d as int)], perm@[size1 + (q % (d as int))]),
                        ),
                decreases count - b,
            {
                let pu = perm[a];
                let pv = perm[b];
                proof {
                    assert(pu != pv);
                }
                let p = if pu >= pv {
                    (pu, pv)
                } else {
                    (pv, pu)
                };
                proof {
                    let q0 = cross@.len() as int;
                    assert(q0 == a * d + (b - size1));
                    assert(q0 / (d as int) == a && q0 % (d as int) == b - size1) by (nonlinear_arith)
                        requires
                            q0 == a * d + (b - size1),
                            0 <= a as int,
                            1 <= d as int,
                            size1 <= b < size1 + d,
                    ;
                    assert(p == norm_pair((perm@[q0 / (d as int)], perm@[size1 + (q0 % (d as int))])));
                    assert forall|q: int| 0 <= q < cross@.len() implies cross@[q] != p by {
                        let a2 = q / (d as int);
                        let b2 = size1 + (q % (d as int));
                        assert(0 <= a2 < size1 && size1 <= b2 < count) by (nonlinear_arith)
                            requires
                                0 <= q < (a as int) * (d as int) + ((b as int) - (size1 as int)),
                                a2 == q / (d as int),
                                b2 == size1 + (q % (d as int)),
                                0 <= (a as int) < (size1 as int),
                                1 <= d as int,
                                (size1 as int) <= (b as int) < (size1 as int) + (d as int),
                                d == count - size1,
                        ;
                        assert(cross@[q] == norm_pair((perm@[a2], perm@[b2])));
                        if cross@[q] == p {
                            assert(perm@[a2] == perm@[a as int] || perm@[a2] == perm@[b as int]);
                            assert(perm@[b2] == perm@[a as int] || perm@[b2] == perm@[b as int]);
                            if perm@[a2] == perm@[b as int] {
                                assert(a2 == b as int);
                            } else {
                                assert(a2 == a as int);
                                if perm@[b2] == perm@[a as int] {
                                    assert(b2 == a as int);
                                } else {
                                    assert(b2 == b as int);
                                    assert(q == a * d + (b - size1)) by (nonlinear_arith)
                                        requires
                                            a2 == q / (d as int),
                                            b2 == size1 + (q % (d as int)),
                                            a2 == a as int,
                                            b2 == b as int,
                                            1 <= d as int,
                                            0 <= q,
                                    ;
                                }
                            }
                        }
                    }
                }
                let ghost pre = cross@;
                cross.push(p);
                b = b + 1;
                proof {
                    assert(cross@.no_duplicates()) by {
                        assert(forall|q: int| 0 <= q < pre.len() ==> cross@[q] == #[trigger] pre[q]);
                        assert(cross@[cross@.len() - 1] == p);
                    }
                }
            }
            a = a + 1;
            proof {
                assert((a as int) * (d as int) == (a - 1) * (d as int) + (d as int))
                    by (nonlinear_arith);
            }
        }
        proof {
            assert((size1 as int) * ((count as int) - (size1 as int)) >= m);
            assert(cross@.len() == (size1 as int) * (d as int));
            assert(cross@.len() >= m);
            assert(cross@.len() <= 0x7fff_ffff) by {
                assert((size1 as int) * ((count as int) - (size1 as int)) <= (count as int) * (
                (count as int) - 1) / 2) by (nonlinear_arith)
                    requires
                        1 <= (size1 as int) < (count as int),
                ;
            }
        }
        let mut result = Graph::new_empty(n);
        proof {
            assert(result.edges@ =~= cross@.take(0));
        }
        result.add_pairs(&cross, 0, m as usize);
        proof {
            let c = Seq::new(n as nat, is_left);
            assert forall|k2: int|
                0 <= k2 < result.edges@.len() implies c[(#[trigger] result.edges@[k2]).0 as int]
                != c[result.edges@[k2].1 as int] by {
                assert(result.edges@[k2] == cross@.take(m as int)[k2]);
                assert(result.edges@[k2] == cross@[k2]);
                let d2 = (count - size1) as int;
                let a2 = k2 / d2;
                let b2 = size1 + (k2 % d2);
                assert(0 <= a2 < size1 && size1 <= b2 < count) by (nonlinear_arith)
                    requires
                        0 <= k2 < (size1 as int) * d2,
                        a2 == k2 / d2,
                        b2 == size1 + (k2 % d2),
                        1 <= d2,
                        d2 == count - size1,
                        1 <= size1 as int,
                ;
                assert(cross@[k2] == norm_pair((perm@[a2], perm@[b2])));
                let x = perm@[a2] as int;
                let y = perm@[b2] as int;
                assert(is_left(x));
                assert(!is_left(y)) by {
                    if is_left(y) {
                        let a3 = choose|a3: int|
                            0 <= a3 < size1 && (#[trigger] perm@[a3] as int) == y;
                        assert(perm@[a3] == perm@[b2]);
                        assert(a3 == b2);
                    }
                }
                assert(c[x] == is_left(x) && c[y] == is_left(y));
                if perm@[a2] >= perm@[b2] {
                    assert(result.edges@[k2].0 as int == x && result.edges@[k2].1 as int == y);
                } else {
                    assert(result.edges@[k2].0 as int == y && result.edges@[k2].1 as int == x);
                }
            }
            assert(c.len() == n);
        }
        result
    }

    /// Renders the edges alone, one line per edge, one-based, in random
    /// order and random orientation: some listing whose unordered pairs are
    /// exactly this graph's edges.
    pub fn create_output_edges(&self) -> (r: String)
        requires
            self.wf(),
        ensures
            exists|es: Seq<(usize, usize)>|
                es.map_values(|p: (usize, usize)| norm_pair(p)).to_multiset()
                    == self.edges@.to_multiset() && r@ == edge_lines(es),
    {
        broadcast use vstd::seq_lib::group_to_multiset_ensures;

        let mut list: Vec<(usize, usize)> = Vec::new();
        let mut k: usize = 0;
        let total = self.edges.len();
        while k < total
            invariant
                total == self.edges@.len(),
                k <= total,
                list@ == self.edges@.take(k as int),
            decreases total - k,
        {
            list.push(self.edges[k]);
            k = k + 1;
            proof {
                assert(list@ =~= self.edges@.take(k as int));
            }
        }
        proof {
            assert(self.edges@.take(total as int) =~= self.edges@);
        }
        let shuffled = shuffle(list);
        let mut r = String::new();
        let ghost mut chosen: Seq<(usize, usize)> = Seq::empty();
        let mut i: usize = 0;
        proof {
            assert(chosen.map_values(|p: (usize, usize)| norm_pair(p)).to_multiset()
                =~= shuffled@.take(0).to_multiset());
        }
        while i < shuffled.len()
            invariant
                self.wf(),
                shuffled@.to_multiset() == self.edges@.to_multiset(),
                i <= shuffled@.len(),
                chosen.len() == i as int,
                chosen.map_values(|p: (usize, usize)| norm_pair(p)).to_multiset()
                    == shuffled@.take(i as int).to_multiset(),
                r@ == edge_lines(chosen),
            decreases shuffled@.len() - i,
        {
            broadcast use vstd::seq_lib::group_to_multiset_ensures;

            let e = shuffled[i];
            let flip = crate::gen::rand_usize_below(2) == 1;
            let line = if flip {
                (e.1, e.0)
            } else {
                e
            };
            proof {
                assert(shuffled@.to_multiset().contains(e)) by {
                    assert(shuffled@.contains(e));
                }
                assert(self.edges@.to_multiset().contains(e));
                assert(self.edges@.contains(e));
                let q = choose|q: int| 0 <= q < self.edges@.len() && self.edges@[q] == e;
                assert(e.1 < e.0 && (e.0 as int) < self.nodes@.len());
                assert((e.0 as int) < 0x8000_0000 && (e.1 as int) < 0x8000_0000);
                assert(norm_pair(line) == e);
            }
            crate::decimal::push_u64_dec(&mut r, (line.0 as u64) + 1);
            crate::text::string_push_char(&mut r, ' ');
            crate::decimal::push_u64_dec(&mut r, (line.1 as u64) + 1);
            crate::text::string_push_char(&mut r, '\n');
            proof {
                let pre = chosen;
                chosen = chosen.push(line);
                assert(chosen.drop_last() =~= pre);
                assert(r@ =~= edge_lines(chosen));
                assert(chosen.map_values(|p: (usize, usize)| norm_pair(p)) =~= pre.map_values(
                    |p: (usize, usize)| norm_pair(p),
                ).push(e));
                assert(shuffled@.take(i + 1).drop_last() =~= shuffled@.take(i as int));
                assert(shuffled@.take(i + 1) =~= shuffled@.take(i as int).push(e));
            }
            i = i + 1;
        }
        proof {
            assert(shuffled@.take(shuffled@.len() as int) =~= shuffled@);
        }
        r
    }

    /// Renders the whole graph as input text: a first line `n m`, then the
    /// edge lines in random order and orientation.
    pub fn create_output(&self) -> (r: String)
        requires
            self.wf(),
        ensures
            exists|es: Seq<(usize, usize)>|
                es.map_values(|p: (usize, usize)| norm_pair(p)).to_multiset()
                    == self.edges@.to_multiset() && r@ == crate::decimal::dec_rep(
                    self.n() as nat,
                ) + seq![' '] + crate::decimal::dec_rep(self.edges@.len() as nat) + seq!['\n']
                    + edge_lines(es),
    {
        let mut r = String::new();
        crate::decimal::push_u64_dec(&mut r, self.nodes.len() as u64);
        crate::text::string_push_char(&mut r, ' ');
        crate::decimal::push_u64_dec(&mut r, self.edges.len() as u64);
        crate::text::string_push_char(&mut r, '\n');
        let lines = self.create_output_edges();
        r.append(lines.as_str());
        proof {
            let es = choose|es: Seq<(usize, usize)>|
                es.map_values(|p: (usize, usize)| norm_pair(p)).to_multiset()
                    == self.edges@.to_multiset() && lines@ == edge_lines(es);
            assert(r@ =~= crate::decimal::dec_rep(self.n() as nat) + seq![' ']
                + crate::decimal::dec_rep(self.edges@.len() as nat) + seq!['\n'] + edge_lines(es));
        }
        r
    }

    /// Parses a graph from input text: a line `n m`, then `m` one-based
    /// edges. Yields nothing when a token is missing or malformed, a count
    /// is negative or out of range, or an endpoint is out of range.
    pub fn new_from_input(input: &str) -> (r: Option<Graph>)
        ensures
            r matches Some(g) ==> g.wf(),
    {
        let mut inp = crate::input::Input::new(input);
        let n = match inp.get_int() {
            Ok(v) => v,
            Err(_) => {
                return None;
            },
        };
        let m = match inp.get_int() {
            Ok(v) => v,
            Err(_) => {
                return None;
            },
        };
        if n < 0 {
            return None;
        }
        let mut result = Graph::new_empty(n);
        let mut k: i32 = 0;
        while k < m
            invariant
                result.wf(),
                result.n() == n as int,
            decreases m - k,
        {
            let u = match inp.get_int() {
                Ok(v) => v,
                Err(_) => {
                    return None;
                },
            };
            let v = match inp.get_int() {
                Ok(v) => v,
                Err(_) => {
                    return None;
                },
            };
            if u < 1 || u > n || v < 1 || v > n {
                return None;
            }
            result.add_edge((u - 1) as usize, (v - 1) as usize);
            k = k + 1;
        }
        Some(result)
    }
}

} // verus!

verus! {

/// True when `x` appears somewhere in a list of components.
pub open spec fn in_components(r: Seq<Vec<usize>>, x: usize) -> bool {
    exists|i: int, j: int| 0 <= i < r.len() && 0 <= j < r[i]@.len() && r[i]@[j] == x
}

/// True when `x` occurs in the vector.
pub open spec fn vec_has(v: Seq<usize>, x: usize) -> bool {
    exists|j: int| 0 <= j < v.len() && v[j] == x
}

/// How many of the first `upto` flags are still clear.
pub open spec fn num_false(v: Seq<bool>, upto: int) -> int
    decreases upto,
{
    if upto <= 0 {
        0
    } else {
        num_false(v, upto - 1) + (if v[upto - 1] {
            0int
        } else {
            1int
        })
    }
}

proof fn lemma_num_false_all(v: Seq<bool>, upto: int)
    requires
        0 <= upto <= v.len(),
        forall|x: int| 0 <= x < v.len() ==> !(#[trigger] v[x]),
    ensures
        num_false(v, upto) == upto,
    decreases upto,
{
    if upto > 0 {
        lemma_num_false_all(v, upto - 1);
    }
}

proof fn lemma_num_false_set(v: Seq<bool>, x: int, upto: int)
    requires
        0 <= x < v.len(),
        !v[x],
        upto <= v.len(),
    ensures
        x < upto ==> num_false(v.update(x, true), upto) == num_false(v, upto) - 1,
        x >= upto ==> num_false(v.update(x, true), upto) == num_false(v, upto),
        x < upto ==> num_false(v, upto) >= 1,
        num_false(v, upto) >= 0,
    decreases upto,
{
    if upto > 0 {
        lemma_num_false_set(v, x, upto - 1);
    }
}

impl Graph {
    /// The connected components found by a traversal from each unvisited
    /// node in turn: a partition of the nodes into nonempty groups — every
    /// node appears in exactly one group at exactly one place.
    pub fn get_connected_components(&self) -> (r: Vec<Vec<usize>>)
        requires
            self.wf(),
        ensures
            forall|i: int, j: int|
                0 <= i < r@.len() && 0 <= j < r@[i]@.len() ==> (#[trigger] r@[i]@[j] as int)
                    < self.n(),
            forall|i: int| 0 <= i < r@.len() ==> (#[trigger] r@[i])@.len() > 0,
            forall|x: int| 0 <= x < self.n() ==> #[trigger] in_components(r@, x as usize),
            forall|i1: int, j1: int, i2: int, j2: int|
                0 <= i1 < r@.len() && 0 <= j1 < r@[i1]@.len() && 0 <= i2 < r@.len() && 0 <= j2
                    < r@[i2]@.len() && (i1 != i2 || j1 != j2) ==> (#[trigger] r@[i1]@[j1])
                    != (#[trigger] r@[i2]@[j2]),
            forall|i1: int|
                0 <= i1 < r@.len() ==> component_connected(*self, (#[trigger] r@[i1])@),
            self.n() == 0 ==> r@.len() == 0,
            self.n() > 0 ==> r@.len() > 0,
    {
        let count = self.nodes.len();
        let mut result: Vec<Vec<usize>> = Vec::new();
        let mut visited: Vec<bool> = Vec::new();
        let mut k: usize = 0;
        while k < count
            invariant
                k <= count,
                visited@.len() == k as int,
                forall|x: int| 0 <= x < k ==> !(#[trigger] visited@[x]),
            decreases count - k,
        {
            visited.push(false);
            k = k + 1;
        }
        let mut unvisited: usize = count;
        proof {
            lemma_num_false_all(visited@, count as int);
        }
        let mut i: usize = 0;
        while i < count
            invariant
                self.wf(),
                count == self.nodes@.len(),
                i <= count,
                visited@.len() == count as int,
                unvisited <= count,
                unvisited == num_false(visited@, count as int),
                forall|x: int|
                    0 <= x < count ==> (#[trigger] visited@[x] <==> in_components(
                        result@,
                        x as usize,
                    )),
                forall|x: int| 0 <= x < i ==> #[trigger] visited@[x],
                forall|i1: int, j1: int|
                    0 <= i1 < result@.len() && 0 <= j1 < result@[i1]@.len() ==> (
                    #[trigger] result@[i1]@[j1] as int) < count,
                forall|i1: int| 0 <= i1 < result@.len() ==> (#[trigger] result@[i1])@.len() > 0,
                forall|i1: int, j1: int, i2: int, j2: int|
                    0 <= i1 < result@.len() && 0 <= j1 < result@[i1]@.len() && 0 <= i2
                        < result@.len() && 0 <= j2 < result@[i2]@.len() && (i1 != i2 || j1 != j2)
                        ==> (#[trigger] result@[i1]@[j1]) != (#[trigger] result@[i2]@[j2]),
                forall|i1: int|
                    0 <= i1 < result@.len() ==> component_connected(
                        *self,
                        (#[trigger] result@[i1])@,
                    ),
                i == 0 ==> result@.len() == 0,
                result@.len() <= i,
            decreases count - i,
        {
            if !visited[i] {
                proof {
                    lemma_num_false_set(visited@, i as int, count as int);
                }
                visited.set(i, true);
                unvisited = unvisited - 1;
                let mut component: Vec<usize> = Vec::new();
                let mut queue: Vec<usize> = Vec::new();
                queue.push(i);
                proof {
                    assert(queue@[0] == i);
                    lemma_connected_refl(*self, i as int);
                    assert forall|x: int|
                        0 <= x < count implies (#[trigger] visited@[x] <==> (in_components(
                        result@,
                        x as usize,
                    ) || vec_has(component@, x as usize) || vec_has(queue@, x as usize))) by {
                        if x == i as int {
                            assert(vec_has(queue@, x as usize));
                        } else {
                            if vec_has(queue@, x as usize) {
                                let j = choose|j: int|
                                    0 <= j < queue@.len() && queue@[j] == x as usize;
                                assert(queue@[j] == i);
                            }
                            assert(!vec_has(component@, x as usize));
                        }
                    }
                }
                while queue.len() > 0
                    invariant
                        self.wf(),
                        count == self.nodes@.len(),
                        i < count,
                        visited@[i as int],
                        unvisited == num_false(visited@, count as int),
                        visited@.len() == count as int,
                        forall|x: int|
                            0 <= x < count ==> (#[trigger] visited@[x] <==> (in_components(
                                result@,
                                x as usize,
                            ) || vec_has(component@, x as usize) || vec_has(queue@, x as usize))),
                        forall|j1: int|
                            0 <= j1 < component@.len() ==> (#[trigger] component@[j1] as int)
                                < count,
                        forall|j1: int|
                            0 <= j1 < queue@.len() ==> (#[trigger] queue@[j1] as int) < count,
                        forall|i1: int, j1: int|
                            0 <= i1 < result@.len() && 0 <= j1 < result@[i1]@.len() ==> (
                            #[trigger] result@[i1]@[j1] as int) < count,
                        forall|i1: int| 0 <= i1 < result@.len() ==> (#[trigger] result@[i1])@.len()
                            > 0,
                        forall|i1: int, j1: int, i2: int, j2: int|
                            0 <= i1 < result@.len() && 0 <= j1 < result@[i1]@.len() && 0 <= i2
                                < result@.len() && 0 <= j2 < result@[i2]@.len() && (i1 != i2 || j1
                                != j2) ==> (#[trigger] result@[i1]@[j1]) != (
                            #[trigger] result@[i2]@[j2]),
                        forall|j1: int, j2: int|
                            0 <= j1 < j2 < component@.len() ==> (#[trigger] component@[j1]) != (
                            #[trigger] component@[j2]),
                        forall|j1: int, j2: int|
                            0 <= j1 < j2 < queue@.len() ==> (#[trigger] queue@[j1]) != (
                            #[trigger] queue@[j2]),
                        forall|j1: int, j2: int|
                            0 <= j1 < component@.len() && 0 <= j2 < queue@.len() ==> (
                            #[trigger] component@[j1]) != (#[trigger] queue@[j2]),
                        forall|i1: int, j1: int, j2: int|
                            0 <= i1 < result@.len() && 0 <= j1 < result@[i1]@.len() && 0 <= j2
                                < component@.len() ==> (#[trigger] result@[i1]@[j1]) != (
                            #[trigger] component@[j2]),
                        forall|i1: int, j1: int, j2: int|
                            0 <= i1 < result@.len() && 0 <= j1 < result@[i1]@.len() && 0 <= j2
                                < queue@.len() ==> (#[trigger] result@[i1]@[j1]) != (
                            #[trigger] queue@[j2]),
                        forall|i1: int|
                            0 <= i1 < result@.len() ==> component_connected(
                                *self,
                                (#[trigger] result@[i1])@,
                            ),
                        forall|j1: int|
                            0 <= j1 < component@.len() ==> connected_pair(
                                *self,
                                i as int,
                                (#[trigger] component@[j1]) as int,
                            ),
                        forall|j1: int|
                            0 <= j1 < queue@.len() ==> connected_pair(
                                *self,
                                i as int,
                                (#[trigger] queue@[j1]) as int,
                            ),
                        component@.len() + queue@.len() >= 1,
                        unvisited <= count,
                        forall|x: int| 0 <= x < i ==> #[trigger] visited@[x],
                    decreases unvisited, queue@.len(),
                {
                    let ghost pre_queue = queue@;
                    let ghost pre_component = component@;
                    let ghost pre_visited = visited@;
                    let ghost pre_unvisited = unvisited;
                    let u = match queue.pop() {
                        Some(u) => u,
                        None => {
                            proof {
                                assert(false);
                            }
                            0
                        },
                    };
                    component.push(u);
                    proof {
                        assert(queue@ =~= pre_queue.drop_last());
                        assert(component@ =~= pre_component.push(u));
                        assert forall|x: int|
                            0 <= x < count implies (#[trigger] visited@[x] <==> (in_components(
                            result@,
                            x as usize,
                        ) || vec_has(component@, x as usize) || vec_has(queue@, x as usize))) by {
                            if vec_has(pre_queue, x as usize) {
                                let j = choose|j: int|
                                    0 <= j < pre_queue.len() && pre_queue[j] == x as usize;
                                if j < pre_queue.len() - 1 {
                                    assert(queue@[j] == x as usize);
                                } else {
                                    assert(component@[component@.len() - 1] == x as usize);
                                }
                            }
                            if vec_has(pre_component, x as usize) {
                                let j = choose|j: int|
                                    0 <= j < pre_component.len() && pre_component[j] == x as usize;
                                assert(component@[j] == x as usize);
                            }
                            if vec_has(queue@, x as usize) {
                                let j = choose|j: int|
                                    0 <= j < queue@.len() && queue@[j] == x as usize;
                                assert(pre_queue[j] == x as usize);
                            }
                            if vec_has(component@, x as usize) {
                                let j = choose|j: int|
                                    0 <= j < component@.len() && component@[j] == x as usize;
                                if j < pre_component.len() {
                                    assert(pre_component[j] == x as usize);
                                } else {
                                    assert(pre_queue[pre_queue.len() - 1] == x as usize);
                                }
                            }
                        }
                    }
                    let deg = self.nodes[u].len();
                    let mut jn: usize = 0;
                    while jn < deg
                        invariant
                            self.wf(),
                            count == self.nodes@.len(),
                            i < count,
                            visited@[i as int],
                            unvisited == num_false(visited@, count as int),
                            (u as int) < count,
                            deg == self.nodes@[u as int]@.len(),
                            jn <= deg,
                            visited@.len() == count as int,
                            forall|x: int|
                                0 <= x < count ==> (#[trigger] visited@[x] <==> (in_components(
                                    result@,
                                    x as usize,
                                ) || vec_has(component@, x as usize) || vec_has(
                                    queue@,
                                    x as usize,
                                ))),
                            forall|j1: int|
                                0 <= j1 < component@.len() ==> (#[trigger] component@[j1] as int)
                                    < count,
                            forall|j1: int|
                                0 <= j1 < queue@.len() ==> (#[trigger] queue@[j1] as int) < count,
                            forall|i1: int, j1: int|
                                0 <= i1 < result@.len() && 0 <= j1 < result@[i1]@.len() ==> (
                                #[trigger] result@[i1]@[j1] as int) < count,
                            forall|i1: int| 0 <= i1 < result@.len() ==> (
                            #[trigger] result@[i1])@.len() > 0,
                            forall|i1: int, j1: int, i2: int, j2: int|
                                0 <= i1 < result@.len() && 0 <= j1 < result@[i1]@.len() && 0 <= i2
                                    < result@.len() && 0 <= j2 < result@[i2]@.len() && (i1 != i2
                                    || j1 != j2) ==> (#[trigger] result@[i1]@[j1]) != (
                                #[trigger] result@[i2]@[j2]),
                            forall|j1: int, j2: int|
                                0 <= j1 < j2 < component@.len() ==> (#[trigger] component@[j1])
                                    != (#[trigger] component@[j2]),
                            forall|j1: int, j2: int|
                                0 <= j1 < j2 < queue@.len() ==> (#[trigger] queue@[j1]) != (
                                #[trigger] queue@[j2]),
                            forall|j1: int, j2: int|
                                0 <= j1 < component@.len() && 0 <= j2 < queue@.len() ==> (
                                #[trigger] component@[j1]) != (#[trigger] queue@[j2]),
                            forall|i1: int, j1: int, j2: int|
                                0 <= i1 < result@.len() && 0 <= j1 < result@[i1]@.len() && 0 <= j2
                                    < component@.len() ==> (#[trigger] result@[i1]@[j1]) != (
                                #[trigger] component@[j2]),
                            forall|i1: int, j1: int, j2: int|
                                0 <= i1 < result@.len() && 0 <= j1 < result@[i1]@.len() && 0 <= j2
                                    < queue@.len() ==> (#[trigger] result@[i1]@[j1]) != (
                                #[trigger] queue@[j2]),
                            forall|i1: int|
                                0 <= i1 < result@.len() ==> component_connected(
                                    *self,
                                    (#[trigger] result@[i1])@,
                                ),
                            forall|j1: int|
                                0 <= j1 < component@.len() ==> connected_pair(
                                    *self,
                                    i as int,
                                    (#[trigger] component@[j1]) as int,
                                ),
                            forall|j1: int|
                                0 <= j1 < queue@.len() ==> connected_pair(
                                    *self,
                                    i as int,
                                    (#[trigger] queue@[j1]) as int,
                                ),
                            connected_pair(*self, i as int, u as int),
                            component@.len() + queue@.len() >= 1,
                            unvisited <= pre_unvisited,
                            unvisited < pre_unvisited || queue@.len() <= pre_queue.len() - 1,
                            forall|x: int| 0 <= x < i ==> #[trigger] visited@[x],
                        decreases deg - jn,
                    {
                        let v = self.nodes[u][jn];
                        proof {
                            assert(self.spec_has_edge(u as int, self.nodes@[u as int]@[jn as int] as int));
                            lemma_connected_step(*self, i as int, u as int, v as int);
                        }
                        if !visited[v] {
                            proof {
                                lemma_num_false_set(visited@, v as int, count as int);
                            }
                            visited.set(v, true);
                            unvisited = unvisited - 1;
                            let ghost pq = queue@;
                            queue.push(v);
                            proof {
                                assert(queue@ =~= pq.push(v));
                                assert forall|x: int|
                                    0 <= x < count implies (#[trigger] visited@[x] <==> (
                                in_components(result@, x as usize) || vec_has(
                                    component@,
                                    x as usize,
                                ) || vec_has(queue@, x as usize))) by {
                                    if x == v as int {
                                        assert(queue@[queue@.len() - 1] == v);
                                    } else {
                                        if vec_has(queue@, x as usize) {
                                            let j = choose|j: int|
                                                0 <= j < queue@.len() && queue@[j] == x as usize;
                                            assert(j < pq.len());
                                            assert(pq[j] == x as usize);
                                        }
                                        if vec_has(pq, x as usize) {
                                            let j = choose|j: int|
                                                0 <= j < pq.len() && pq[j] == x as usize;
                                            assert(queue@[j] == x as usize);
                                        }
                                    }
                                }
                            }
                        }
                        jn = jn + 1;
                    }
                }
                proof {
                    assert(component@.len() > 0);
                }
                let ghost pre_result = result@;
                proof {
                    assert forall|j1: int, j2: int|
                        0 <= j1 < component@.len() && 0 <= j2 < component@.len() implies connected_pair(
                        *self,
                        #[trigger] component@[j1] as int,
                        #[trigger] component@[j2] as int,
                    ) by {
                        lemma_connected_sym(*self, i as int, component@[j1] as int);
                        lemma_connected_trans(
                            *self,
                            component@[j1] as int,
                            i as int,
                            component@[j2] as int,
                        );
                    }
                }
                result.push(component);
                proof {
                    assert(component_connected(*self, result@[result@.len() - 1]@));
                    assert forall|x: int|
                        0 <= x < count implies (#[trigger] visited@[x] <==> in_components(
                        result@,
                        x as usize,
                    )) by {
                        if in_components(pre_result, x as usize) {
                            let (i1, j1) = choose|i1: int, j1: int|
                                0 <= i1 < pre_result.len() && 0 <= j1 < pre_result[i1]@.len()
                                    && pre_result[i1]@[j1] == x as usize;
                            assert(result@[i1]@[j1] == x as usize);
                        }
                        if vec_has(result@[result@.len() - 1]@, x as usize) {
                            let j = choose|j: int|
                                0 <= j < result@[result@.len() - 1]@.len() && (#[trigger] result@[
                                    result@.len() - 1
                                ]@[j]) == x as usize;
                            assert(result@[result@.len() - 1]@[j] == x as usize);
                        }
                        if in_components(result@, x as usize) {
                            let (i1, j1) = choose|i1: int, j1: int|
                                0 <= i1 < result@.len() && 0 <= j1 < result@[i1]@.len()
                                    && result@[i1]@[j1] == x as usize;
                            if i1 < pre_result.len() {
                                assert(pre_result[i1]@[j1] == x as usize);
                            } else {
                                assert(vec_has(result@[result@.len() - 1]@, x as usize));
                            }
                        }
                    }
                }
            }
            i = i + 1;
        }
        proof {
            assert forall|x: int| 0 <= x < self.n() implies #[trigger] in_components(result@, x as usize) by {
                assert(visited@[x]);
            }
            if count > 0 {
                assert(visited@[0]);
                assert(in_components(result@, 0 as usize));
                let (i1, j1) = choose|i1: int, j1: int|
                    0 <= i1 < result@.len() && 0 <= j1 < result@[i1]@.len() && result@[i1]@[j1] == (
                    0 as usize);
                assert(result@.len() > 0);
            }
        }
        result
    }

    /// Whether one traversal reaches every node: there is exactly one
    /// connected component, so every two nodes are joined by a walk.
    pub fn is_connected(&self) -> (r: bool)
        requires
            self.wf(),
        ensures
            self.n() == 0 ==> !r,
            r ==> self.n() >= 1,
            r ==> spec_connected(*self),
    {
        let comps = self.get_connected_components();
        let r = comps.len() == 1;
        proof {
            if r {
                assert forall|a: int, b: int|
                    0 <= a < self.n() && 0 <= b < self.n() implies connected_pair(*self, a, b) by {
                    assert(in_components(comps@, a as usize));
                    assert(in_components(comps@, b as usize));
                    let (i1, j1) = choose|i1: int, j1: int|
                        0 <= i1 < comps@.len() && 0 <= j1 < comps@[i1]@.len() && comps@[i1]@[j1]
                            == a as usize;
                    let (i2, j2) = choose|i2: int, j2: int|
                        0 <= i2 < comps@.len() && 0 <= j2 < comps@[i2]@.len() && comps@[i2]@[j2]
                            == b as usize;
                    assert(i1 == 0 && i2 == 0);
                    assert(component_connected(*self, comps@[0]@));
                    assert(connected_pair(*self, comps@[0]@[j1] as int, comps@[0]@[j2] as int));
                }
            }
        }
        r
    }

    /// Whether the graph is a tree: exactly `n - 1` edges and connected.
    pub fn is_tree(&self) -> (r: bool)
        requires
            self.wf(),
        ensures
            r ==> self.edges@.len() == self.n() - 1,
            r ==> self.n() >= 1,
            r ==> spec_connected(*self),
    {
        self.get_num_edges() == self.get_num_nodes() - 1 && self.is_connected()
    }

    /// Whether the nodes can be split in two so that every edge crosses the
    /// split: a traversal two-colors the nodes, and every edge is then
    /// checked against the coloring.
    pub fn is_bipartite(&self) -> (r: bool)
        requires
            self.wf(),
        ensures
            r ==> exists|c: Seq<bool>|
                c.len() == self.n() && forall|k: int|
                    0 <= k < self.edges@.len() ==> c[(#[trigger] self.edges@[k]).0 as int] != c[
                        self.edges@[k].1 as int
                    ],
    {
        let count = self.nodes.len();
        let mut visited: Vec<bool> = Vec::new();
        let mut colors: Vec<bool> = Vec::new();
        let mut k: usize = 0;
        while k < count
            invariant
                k <= count,
                visited@.len() == k as int,
                colors@.len() == k as int,
                forall|x: int| 0 <= x < k ==> !(#[trigger] visited@[x]),
            decreases count - k,
        {
            visited.push(false);
            colors.push(false);
            k = k + 1;
        }
        let mut unvisited: usize = count;
        proof {
            lemma_num_false_all(visited@, count as int);
        }
        let mut i: usize = 0;
        while i < count
            invariant
                self.wf(),
                count == self.nodes@.len(),
                i <= count,
                visited@.len() == count as int,
                colors@.len() == count as int,
                unvisited <= count,
                unvisited == num_false(visited@, count as int),
            decreases count - i,
        {
            if !visited[i] {
                proof {
                    lemma_num_false_set(visited@, i as int, count as int);
                }
                visited.set(i, true);
                colors.set(i, true);
                unvisited = unvisited - 1;
                let mut queue: Vec<usize> = Vec::new();
                queue.push(i);
                while queue.len() > 0
                    invariant
                        self.wf(),
                        count == self.nodes@.len(),
                        visited@.len() == count as int,
                        colors@.len() == count as int,
                        forall|j1: int|
                            0 <= j1 < queue@.len() ==> (#[trigger] queue@[j1] as int) < count,
                        unvisited <= count,
                        unvisited == num_false(visited@, count as int),
                    decreases unvisited, queue@.len(),
                {
                    let ghost pre_unvisited = unvisited;
                    let ghost pre_queue = queue@;
                    let u = match queue.pop() {
                        Some(u) => u,
                        None => {
                            proof {
                                assert(false);
                            }
                            0
                        },
                    };
                    let cu = colors[u];
                    let deg = self.nodes[u].len();
                    let mut jn: usize = 0;
                    while jn < deg
                        invariant
                            self.wf(),
                            count == self.nodes@.len(),
                            (u as int) < count,
                            deg == self.nodes@[u as int]@.len(),
                            jn <= deg,
                            visited@.len() == count as int,
                            colors@.len() == count as int,
                            forall|j1: int|
                                0 <= j1 < queue@.len() ==> (#[trigger] queue@[j1] as int) < count,
                            unvisited <= count,
                            unvisited == num_false(visited@, count as int),
                            unvisited <= pre_unvisited,
                            unvisited < pre_unvisited || queue@.len() <= pre_queue.len() - 1,
                        decreases deg - jn,
                    {
                        let v = self.nodes[u][jn];
                        if !visited[v] {
                            proof {
                                lemma_num_false_set(visited@, v as int, count as int);
                            }
                            visited.set(v, true);
                            colors.set(v, !cu);
                            unvisited = unvisited - 1;
                            queue.push(v);
                        }
                        jn = jn + 1;
                    }
                }
            }
            i = i + 1;
        }
        // check every edge against the coloring
        let total = self.edges.len();
        let mut k2: usize = 0;
        while k2 < total
            invariant
                self.wf(),
                count == self.nodes@.len(),
                total == self.edges@.len(),
                colors@.len() == count as int,
                k2 <= total,
                forall|q: int|
                    0 <= q < k2 ==> colors@[(#[trigger] self.edges@[q]).0 as int] != colors@[
                        self.edges@[q].1 as int
                    ],
            decreases total - k2,
        {
            let e = self.edges[k2];
            if colors[e.0] == colors[e.1] {
                return false;
            }
            k2 = k2 + 1;
        }
        proof {
            let c = colors@;
            assert(c.len() == self.n());
        }
        true
    }
}

} // verus!

verus! {

/// A walk through the graph: consecutive entries are joined by edges and
/// every entry is a node.
pub open spec fn is_path(g: Graph, p: Seq<int>) -> bool {
    &&& p.len() > 0
    &&& forall|i: int| 0 <= i < p.len() ==> 0 <= #[trigger] p[i] < g.n()
    &&& forall|i: int| 0 <= i < p.len() - 1 ==> g.spec_has_edge(#[trigger] p[i], p[i + 1])
}

/// Two nodes are connected when some walk joins them.
pub open spec fn connected_pair(g: Graph, a: int, b: int) -> bool {
    exists|p: Seq<int>| is_path(g, p) && p.first() == a && p.last() == b
}

/// A graph is connected when every two nodes are joined by a walk.
pub open spec fn spec_connected(g: Graph) -> bool {
    forall|a: int, b: int| 0 <= a < g.n() && 0 <= b < g.n() ==> connected_pair(g, a, b)
}

proof fn lemma_connected_refl(g: Graph, a: int)
    requires
        0 <= a < g.n(),
    ensures
        connected_pair(g, a, a),
{
    let p = seq![a];
    assert(is_path(g, p) && p.first() == a && p.last() == a);
}

proof fn lemma_connected_step(g: Graph, a: int, b: int, c: int)
    requires
        connected_pair(g, a, b),
        g.spec_has_edge(b, c),
        0 <= c < g.n(),
    ensures
        connected_pair(g, a, c),
{
    let p = choose|p: Seq<int>| is_path(g, p) && p.first() == a && p.last() == b;
    let q = p.push(c);
    assert(is_path(g, q)) by {
        assert(forall|i: int| 0 <= i < p.len() ==> q[i] == #[trigger] p[i]);
        assert(q[q.len() - 1] == c);
        assert forall|i: int| 0 <= i < q.len() - 1 implies g.spec_has_edge(#[trigger] q[i], q[i + 1]) by {
            if i < p.len() - 1 {
                assert(g.spec_has_edge(p[i], p[i + 1]));
            } else {
                assert(q[i] == b && q[i + 1] == c);
            }
        }
    }
    assert(q.first() == a && q.last() == c);
}

proof fn lemma_has_edge_sym(g: Graph, a: int, b: int)
    ensures
        g.spec_has_edge(a, b) == g.spec_has_edge(b, a),
{
}

proof fn lemma_connected_sym(g: Graph, a: int, b: int)
    requires
        connected_pair(g, a, b),
    ensures
        connected_pair(g, b, a),
{
    let p = choose|p: Seq<int>| is_path(g, p) && p.first() == a && p.last() == b;
    let n = p.len() as int;
    let q = Seq::new(p.len(), |i: int| p[n - 1 - i]);
    assert(is_path(g, q)) by {
        assert forall|i: int| 0 <= i < q.len() - 1 implies g.spec_has_edge(#[trigger] q[i], q[i + 1]) by {
            assert(q[i] == p[n - 1 - i] && q[i + 1] == p[n - 2 - i]);
            assert(g.spec_has_edge(p[n - 2 - i], p[n - 1 - i]));
            lemma_has_edge_sym(g, p[n - 2 - i], p[n - 1 - i]);
        }
    }
    assert(q.first() == b && q.last() == a);
}

proof fn lemma_connected_trans(g: Graph, a: int, b: int, c: int)
    requires
        connected_pair(g, a, b),
        connected_pair(g, b, c),
    ensures
        connected_pair(g, a, c),
{
    let p1 = choose|p: Seq<int>| is_path(g, p) && p.first() == a && p.last() == b;
    let p2 = choose|p: Seq<int>| is_path(g, p) && p.first() == b && p.last() == c;
    let q = p1 + p2.drop_first();
    if p2.len() == 1 {
        assert(q =~= p1);
        assert(q.first() == a && q.last() == c);
    } else {
        assert(is_path(g, q)) by {
            assert(forall|i: int| 0 <= i < p1.len() ==> q[i] == #[trigger] p1[i]);
            assert(forall|i: int|
                0 <= i < p2.len() - 1 ==> q[p1.len() + i] == #[trigger] p2.drop_first()[i]);
            assert forall|i: int| 0 <= i < q.len() implies 0 <= #[trigger] q[i] < g.n() by {
                if i >= p1.len() {
                    assert(q[i] == p2[i - p1.len() + 1]);
                }
            }
            assert forall|i: int|
                0 <= i < q.len() - 1 implies g.spec_has_edge(#[trigger] q[i], q[i + 1]) by {
                if i < p1.len() - 1 {
                    assert(g.spec_has_edge(p1[i], p1[i + 1]));
                } else if i == p1.len() - 1 {
                    assert(q[i] == b);
                    assert(q[i + 1] == p2[1]);
                    assert(g.spec_has_edge(p2[0], p2[1]));
                } else {
                    assert(q[i] == p2[i - p1.len() + 1]);
                    assert(q[i + 1] == p2[i - p1.len() + 2]);
                    assert(g.spec_has_edge(p2[i - p1.len() + 1], p2[i - p1.len() + 2]));
                }
            }
        }
        assert(q.first() == a && q.last() == c);
    }
}

/// A walk survives the addition of edges: connectivity is monotone in the
/// edge set.
proof fn lemma_connected_mono(g1: Graph, g2: Graph, a: int, b: int)
    requires
        g1.n() == g2.n(),
        forall|x: int, y: int| #[trigger] g1.spec_has_edge(x, y) ==> g2.spec_has_edge(x, y),
        connected_pair(g1, a, b),
    ensures
        connected_pair(g2, a, b),
{
    let p = choose|p: Seq<int>| is_path(g1, p) && p.first() == a && p.last() == b;
    assert(is_path(g2, p)) by {
        assert(forall|i: int|
            0 <= i < p.len() - 1 ==> g1.spec_has_edge(#[trigger] p[i], p[i + 1]));
    }
}

/// All members of one component are pairwise connected.
pub open spec fn component_connected(g: Graph, c: Seq<usize>) -> bool {
    forall|j1: int, j2: int|
        0 <= j1 < c.len() && 0 <= j2 < c.len() ==> connected_pair(
            g,
            #[trigger] c[j1] as int,
            #[trigger] c[j2] as int,
        )
}

} // verus!
