use vstd::prelude::*;

use crate::path::FileSystemPath;

verus! {

/// One build artifact: where it belongs, its bytes, and the assets it refers
/// to, by their index in the graph that holds it.
#[derive(Clone, Debug)]
pub struct OutputAsset {
    pub path: FileSystemPath,
    pub content: Vec<u8>,
    pub references: Vec<usize>,
}

/// The output assets of one build snapshot. An asset's identity is its index.
#[derive(Clone, Debug)]
pub struct AssetGraph {
    pub assets: Vec<OutputAsset>,
}

impl AssetGraph {
    pub open spec fn len(&self) -> nat {
        self.assets@.len()
    }

    /// The references of asset `i`.
    pub open spec fn refs(&self, i: int) -> Seq<usize> {
        self.assets@[i].references@
    }

    /// Every reference names an asset of the graph.
    pub open spec fn wf(&self) -> bool {
        forall|i: int, k: int|
            0 <= i < self.len() && 0 <= k < self.refs(i).len() ==> #[trigger] self.refs(i)[k]
                < self.len()
    }

    /// A set of assets that holds every asset referenced by one of its members.
    pub open spec fn closed(&self, s: Set<usize>) -> bool {
        forall|x: usize, k: int|
            s.contains(x) && 0 <= k < self.refs(x as int).len() ==> s.contains(
                #[trigger] self.refs(x as int)[k],
            )
    }

    /// `x` belongs to every closed set that holds all of `entries`: it is
    /// reachable from them.
    pub open spec fn reachable(&self, entries: Seq<usize>, x: usize) -> bool {
        forall|s: Set<usize>|
            (forall|j: int| 0 <= j < entries.len() ==> s.contains(#[trigger] entries[j]))
                && self.closed(s) ==> #[trigger] s.contains(x)
    }

    /// `rank` strictly decreases along every reference.
    pub open spec fn is_rank(&self, rank: Seq<int>) -> bool {
        &&& rank.len() == self.len()
        &&& forall|i: int, k: int|
            0 <= i < self.len() && 0 <= k < self.refs(i).len() ==> rank[#[trigger] self.refs(
                i,
            )[k] as int] < rank[i]
    }

    /// The references hold no cycle.
    pub open spec fn acyclic(&self) -> bool {
        exists|rank: Seq<int>| self.is_rank(rank)
    }

    /// `order` is what resolving `entries` may give: the reachable assets, each
    /// once, with an asset's references before it wherever there is no cycle.
    pub open spec fn resolves(&self, entries: Seq<usize>, order: Seq<usize>) -> bool {
        &&& order.no_duplicates()
        &&& forall|i: int| 0 <= i < order.len() ==> #[trigger] order[i] < self.len()
        &&& forall|j: int| 0 <= j < entries.len() ==> order.contains(#[trigger] entries[j])
        &&& self.closed(order.to_set())
        &&& forall|i: int| 0 <= i < order.len() ==> self.reachable(entries, #[trigger] order[i])
        &&& self.acyclic() ==> self.dependencies_first(order)
    }

    /// In `order`, whatever an asset references comes before it.
    pub open spec fn dependencies_first(&self, order: Seq<usize>) -> bool {
        forall|i: int, k: int|
            0 <= i < order.len() && 0 <= k < self.refs(order[i] as int).len() ==> order.subrange(
                0,
                i,
            ).contains(#[trigger] self.refs(order[i] as int)[k])
    }
}

/// The number of `false` in `s`.
pub open spec fn count_unvisited(s: Seq<bool>) -> nat
    decreases s.len(),
{
    if s.len() == 0 {
        0
    } else {
        count_unvisited(s.drop_last()) + if s.last() {
            0nat
        } else {
            1nat
        }
    }
}

proof fn lemma_count_unvisited(a: Seq<bool>, b: Seq<bool>, u: int)
    requires
        a.len() == b.len(),
        forall|i: int| 0 <= i < a.len() && #[trigger] a[i] ==> b[i],
    ensures
        count_unvisited(b) <= count_unvisited(a),
        0 <= u < a.len() && !a[u] && b[u] ==> count_unvisited(b) < count_unvisited(a),
    decreases a.len(),
{
    if a.len() > 0 {
        let a1 = a.drop_last();
        let b1 = b.drop_last();
        assert forall|i: int| 0 <= i < a1.len() && #[trigger] a1[i] implies b1[i] by {
            assert(a[i]);
        }
        lemma_count_unvisited(a1, b1, u);
    }
}

/// What holds of the traversal state between steps. `open` are the assets whose
/// visit has begun and not ended.
spec fn traversal_inv(
    g: &AssetGraph,
    entries: Seq<usize>,
    visited: Seq<bool>,
    out: Seq<usize>,
    open: Set<usize>,
    rank: Option<Seq<int>>,
) -> bool {
    &&& visited.len() == g.len()
    &&& out.no_duplicates()
    &&& forall|i: int| 0 <= i < out.len() ==> #[trigger] out[i] < g.len() && visited[out[i] as int]
    &&& forall|i: int| 0 <= i < out.len() ==> g.reachable(entries, #[trigger] out[i])
    &&& forall|x: usize| x < g.len() && #[trigger] visited[x as int] ==> out.contains(x) || open.contains(x)
    &&& forall|i: int, k: int|
        0 <= i < out.len() && 0 <= k < g.refs(out[i] as int).len() ==> visited[#[trigger] g.refs(
            out[i] as int,
        )[k] as int]
    &&& rank matches Some(r) ==> g.dependencies_first(out)
}

fn visit(
    g: &AssetGraph,
    u: usize,
    visited: &mut Vec<bool>,
    out: &mut Vec<usize>,
    Ghost(entries): Ghost<Seq<usize>>,
    Ghost(open): Ghost<Set<usize>>,
    Ghost(rank): Ghost<Option<Seq<int>>>,
)
    requires
        g.wf(),
        u < g.len(),
        !old(visited)@[u as int],
        g.reachable(entries, u),
        traversal_inv(g, entries, old(visited)@, old(out)@, open, rank),
        forall|x: usize| #[trigger]
            open.contains(x) ==> x < g.len() && old(visited)@[x as int] && !old(out)@.contains(x),
        rank matches Some(r) ==> g.is_rank(r) && forall|x: usize| #[trigger]
            open.contains(x) ==> r[x as int] > r[u as int],
    ensures
        traversal_inv(g, entries, final(visited)@, final(out)@, open, rank),
        final(visited)@[u as int],
        final(out)@.contains(u),
        forall|i: int| 0 <= i < old(visited)@.len() && #[trigger] old(visited)@[i] ==> final(visited)@[i],
        final(out)@.len() >= old(out)@.len(),
        forall|j: int| 0 <= j < old(out)@.len() ==> #[trigger] final(out)@[j] == old(out)@[j],
        forall|x: usize| #[trigger]
            final(out)@.contains(x) ==> old(out)@.contains(x) || !old(visited)@[x as int],
    decreases count_unvisited(old(visited)@),
{
    let ghost visited0 = visited@;
    let ghost out0 = out@;
    visited.set(u, true);
    let ghost inner = open.insert(u);
    proof {
        lemma_count_unvisited(visited0, visited@, u as int);
        assert forall|x: usize| x < g.len() && #[trigger] visited@[x as int] implies out@.contains(x)
            || inner.contains(x) by {
            if x != u {
                assert(visited0[x as int]);
            }
        }
    }
    let refs = &g.assets[u].references;
    let mut k: usize = 0;
    while k < refs.len()
        invariant
            g.wf(),
            u < g.len(),
            refs@ == g.refs(u as int),
            visited0.len() == g.len(),
            visited0 == old(visited)@,
            inner == open.insert(u),
            0 <= k <= refs.len(),
            g.reachable(entries, u),
            traversal_inv(g, entries, visited@, out@, inner, rank),
            visited@[u as int],
            !out@.contains(u),
            forall|x: usize| #[trigger]
                open.contains(x) ==> x < g.len() && visited@[x as int] && !out@.contains(x),
            rank matches Some(r) ==> g.is_rank(r) && forall|x: usize| #[trigger]
                open.contains(x) ==> r[x as int] > r[u as int],
            forall|i: int| 0 <= i < visited0.len() && #[trigger] visited0[i] ==> visited@[i],
            count_unvisited(visited@) < count_unvisited(visited0),
            out@.len() >= out0.len(),
            forall|j: int| 0 <= j < out0.len() ==> #[trigger] out@[j] == out0[j],
            forall|x: usize| #[trigger] out@.contains(x) ==> out0.contains(x) || !visited0[x as int],
            forall|j: int| 0 <= j < k ==> visited@[#[trigger] refs@[j] as int],
            rank is Some ==> forall|j: int| 0 <= j < k ==> out@.contains(#[trigger] refs@[j]),
        decreases refs.len() - k,
    {
        let v = refs[k];
        assert(v == g.refs(u as int)[k as int]);
        proof {
            assert forall|s: Set<usize>|
                (forall|j: int| 0 <= j < entries.len() ==> s.contains(#[trigger] entries[j]))
                    && g.closed(s) implies #[trigger] s.contains(v) by {
                assert(s.contains(u));
                assert(s.contains(g.refs(u as int)[k as int]));
            }
        }
        if !visited[v] {
            let ghost visited1 = visited@;
            let ghost out1 = out@;
            proof {
                lemma_count_unvisited(visited0, visited@, u as int);
                assert forall|x: usize| #[trigger] inner.contains(x) implies x < g.len()
                    && visited@[x as int] && !out@.contains(x) by {
                    if x != u {
                        assert(open.contains(x));
                    }
                }
                if let Some(r) = rank {
                    assert(r[v as int] < r[u as int]);
                    assert forall|x: usize| #[trigger] inner.contains(x) implies r[x as int] > r[v as int] by {
                        if x != u {
                            assert(open.contains(x));
                        }
                    }
                }
            }
            visit(g, v, visited, out, Ghost(entries), Ghost(inner), Ghost(rank));
            proof {
                lemma_count_unvisited(visited1, visited@, v as int);
                assert forall|i: int| 0 <= i < visited0.len() && #[trigger] visited0[i] implies visited@[i] by {
                    assert(visited1[i]);
                }
                assert forall|x: usize| #[trigger] out@.contains(x) implies out0.contains(x)
                    || !visited0[x as int] by {
                    if !out1.contains(x) {
                        assert(!visited1[x as int]);
                    }
                }
                assert forall|j: int| 0 <= j < out0.len() implies #[trigger] out@[j] == out0[j] by {
                    assert(out@[j] == out1[j]);
                }
                assert forall|j: int| 0 <= j < k implies visited@[#[trigger] refs@[j] as int] by {
                    assert(visited1[refs@[j] as int]);
                }
                if rank is Some {
                    assert forall|j: int| 0 <= j < k implies out@.contains(#[trigger] refs@[j]) by {
                        assert(out1.contains(refs@[j]));
                        let w = choose|w: int| 0 <= w < out1.len() && out1[w] == refs@[j];
                        assert(out@[w] == refs@[j]);
                    }
                }
                assert(!out@.contains(u)) by {
                    if out@.contains(u) {
                        assert(visited1[u as int]);
                    }
                }
                assert forall|x: usize| #[trigger] open.contains(x) implies x < g.len()
                    && visited@[x as int] && !out@.contains(x) by {
                    assert(inner.contains(x));
                }
            }
        } else {
            proof {
                if let Some(r) = rank {
                    assert(r[v as int] < r[u as int]);
                    assert(!inner.contains(v));
                    assert(out@.contains(v));
                }
            }
        }
        k = k + 1;
    }
    let ghost before = out@;
    out.push(u);
    proof {
        assert(out@.drop_last() == before);
        assert(out@.no_duplicates()) by {
            assert forall|i: int, j: int| 0 <= i < out@.len() && 0 <= j < out@.len() && i != j
                implies out@[i] != out@[j] by {
                if i < before.len() && j < before.len() {
                    assert(out@[i] == before[i] && out@[j] == before[j]);
                } else if i < before.len() {
                    assert(out@[i] == before[i]);
                    assert(before.contains(out@[i]));
                } else if j < before.len() {
                    assert(out@[j] == before[j]);
                    assert(before.contains(out@[j]));
                }
            }
        }
        assert forall|i: int| 0 <= i < out@.len() implies #[trigger] out@[i] < g.len()
            && visited@[out@[i] as int] && g.reachable(entries, out@[i]) by {
            if i < before.len() {
                assert(out@[i] == before[i]);
            }
        }
        assert forall|x: usize| x < g.len() && #[trigger] visited@[x as int] implies out@.contains(x)
            || open.contains(x) by {
            if before.contains(x) {
                let w = choose|w: int| 0 <= w < before.len() && before[w] == x;
                assert(out@[w] == x);
            } else if x == u {
                assert(out@[before.len() as int] == u);
            } else {
                assert(inner.contains(x));
            }
        }
        assert forall|i: int, k2: int|
            0 <= i < out@.len() && 0 <= k2 < g.refs(out@[i] as int).len() implies visited@[
            #[trigger] g.refs(out@[i] as int)[k2] as int] by {
            if i < before.len() {
                assert(out@[i] == before[i]);
                assert(visited@[g.refs(before[i] as int)[k2] as int]);
            } else {
                assert(visited@[refs@[k2] as int]);
            }
        }
        if rank is Some {
            assert forall|i: int, k2: int|
                0 <= i < out@.len() && 0 <= k2 < g.refs(out@[i] as int).len() implies out@.subrange(
                0,
                i,
            ).contains(#[trigger] g.refs(out@[i] as int)[k2]) by {
                let t = g.refs(out@[i] as int)[k2];
                if i < before.len() {
                    assert(out@[i] == before[i]);
                    assert(before.subrange(0, i).contains(t));
                    let j = choose|j: int| 0 <= j < i && before.subrange(0, i)[j] == t;
                    assert(out@.subrange(0, i)[j] == t);
                } else {
                    assert(out@[i] == u);
                    assert(before.contains(refs@[k2]));
                    let j = choose|j: int| 0 <= j < before.len() && before[j] == refs@[k2];
                    assert(out@.subrange(0, i)[j] == t);
                }
            }
        }
        assert forall|j: int| 0 <= j < out0.len() implies #[trigger] out@[j] == out0[j] by {
            assert(out@[j] == before[j]);
        }
        assert forall|x: usize| #[trigger] out@.contains(x) implies out0.contains(x)
            || !visited0[x as int] by {
            if x != u {
                let w = choose|w: int| 0 <= w < out@.len() && out@[w] == x;
                assert(before[w] == x);
                assert(before.contains(x));
            }
        }
        assert(out@.contains(u)) by {
            assert(out@[before.len() as int] == u);
        }
    }
}

/// Every asset reachable from `entries` through references, each once, with an
/// asset's references before it wherever the graph holds no cycle.
pub fn all_assets_from_entries(g: &AssetGraph, entries: &Vec<usize>) -> (out: Vec<usize>)
    requires
        g.wf(),
        forall|j: int| 0 <= j < entries.len() ==> #[trigger] entries@[j] < g.len(),
    ensures
        g.resolves(entries@, out@),
{
    let n = g.assets.len();
    let ghost rank: Option<Seq<int>> = if g.acyclic() {
        Some(choose|r: Seq<int>| g.is_rank(r))
    } else {
        None
    };
    let mut visited: Vec<bool> = Vec::new();
    let mut i: usize = 0;
    while i < n
        invariant
            n == g.len(),
            i <= n,
            visited@.len() == i,
            forall|j: int| 0 <= j < i ==> !#[trigger] visited@[j],
        decreases n - i,
    {
        visited.push(false);
        i = i + 1;
    }
    let mut out: Vec<usize> = Vec::new();
    let mut e: usize = 0;
    while e < entries.len()
        invariant
            g.wf(),
            n == g.len(),
            forall|j: int| 0 <= j < entries.len() ==> #[trigger] entries@[j] < g.len(),
            e <= entries.len(),
            rank matches Some(r) ==> g.is_rank(r),
            traversal_inv(g, entries@, visited@, out@, Set::empty(), rank),
            forall|j: int| 0 <= j < e ==> out@.contains(#[trigger] entries@[j]),
        decreases entries.len() - e,
    {
        let x = entries[e];
        if !visited[x] {
            let ghost out1 = out@;
            proof {
                assert forall|s: Set<usize>|
                    (forall|j: int| 0 <= j < entries.len() ==> s.contains(#[trigger] entries@[j]))
                        && g.closed(s) implies #[trigger] s.contains(x) by {
                    assert(s.contains(entries@[e as int]));
                }
            }
            visit(g, x, &mut visited, &mut out, Ghost(entries@), Ghost(Set::empty()), Ghost(rank));
            proof {
                assert forall|j: int| 0 <= j < e implies out@.contains(#[trigger] entries@[j]) by {
                    let w = choose|w: int| 0 <= w < out1.len() && out1[w] == entries@[j];
                    assert(out@[w] == entries@[j]);
                }
            }
        } else {
            assert(out@.contains(x));
        }
        e = e + 1;
    }
    proof {
        assert forall|x: usize, k: int|
            out@.to_set().contains(x) && 0 <= k < g.refs(x as int).len() implies out@.to_set().contains(
            #[trigger] g.refs(x as int)[k],
        ) by {
            let w = choose|w: int| 0 <= w < out@.len() && out@[w] == x;
            assert(visited@[g.refs(out@[w] as int)[k] as int]);
            assert(out@.contains(g.refs(x as int)[k]));
        }
    }
    out
}

} // verus!
