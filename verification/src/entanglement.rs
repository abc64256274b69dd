//! Grouping qubits into entanglement clusters: the qubits joined, directly
//! or through others, by pairs found to be correlated.
use vstd::prelude::*;

verus! {

/// `(a, b)` or `(b, a)` is one of the links.
pub open spec fn is_link(links: Seq<(usize, usize)>, a: usize, b: usize) -> bool {
    exists|t: int| 0 <= t < links.len() && (links[t] == (a, b) || links[t] == (b, a))
}

/// Step `k` of `path` goes along a link.
pub open spec fn step_linked(links: Seq<(usize, usize)>, path: Seq<usize>, k: int) -> bool {
    is_link(links, path[k], path[k + 1])
}

/// `path` is a non-empty walk along links.
pub open spec fn is_walk(links: Seq<(usize, usize)>, path: Seq<usize>) -> bool {
    &&& path.len() > 0
    &&& forall|k: int| 0 <= k < path.len() - 1 ==> #[trigger] step_linked(links, path, k)
}

/// Some walk along links leads from `a` to `b`.
pub open spec fn connected(links: Seq<(usize, usize)>, a: usize, b: usize) -> bool {
    exists|path: Seq<usize>| #[trigger] is_walk(links, path) && path[0] == a && path.last() == b
}

/// No smaller qubit is connected to `q`: `q` is the first of its cluster.
pub open spec fn is_leader(links: Seq<(usize, usize)>, q: usize) -> bool {
    forall|r: usize| r < q ==> !#[trigger] connected(links, r, q)
}

/// The first qubit of each cluster among the qubits below `n`, ascending.
pub open spec fn leaders(links: Seq<(usize, usize)>, n: nat) -> Seq<usize>
    decreases n,
{
    if n == 0 {
        Seq::empty()
    } else if is_leader(links, (n - 1) as usize) {
        leaders(links, (n - 1) as nat).push((n - 1) as usize)
    } else {
        leaders(links, (n - 1) as nat)
    }
}

/// The qubits below `n` connected to `r`, ascending.
pub open spec fn members(links: Seq<(usize, usize)>, n: nat, r: usize) -> Seq<usize>
    decreases n,
{
    if n == 0 {
        Seq::empty()
    } else if connected(links, (n - 1) as usize, r) {
        members(links, (n - 1) as nat, r).push((n - 1) as usize)
    } else {
        members(links, (n - 1) as nat, r)
    }
}

proof fn lemma_connected_refl(links: Seq<(usize, usize)>, a: usize)
    ensures
        connected(links, a, a),
{
    let p = seq![a];
    assert(is_walk(links, p));
}

proof fn lemma_connected_link(links: Seq<(usize, usize)>, t: int)
    requires
        0 <= t < links.len(),
    ensures
        connected(links, links[t].0, links[t].1),
        connected(links, links[t].1, links[t].0),
{
    let (a, b) = links[t];
    let p = seq![a, b];
    assert(step_linked(links, p, 0));
    assert(is_walk(links, p));
    let q = seq![b, a];
    assert(step_linked(links, q, 0));
    assert(is_walk(links, q));
}

proof fn lemma_connected_sym(links: Seq<(usize, usize)>, a: usize, b: usize)
    requires
        connected(links, a, b),
    ensures
        connected(links, b, a),
{
    let p = choose|p: Seq<usize>| #[trigger] is_walk(links, p) && p[0] == a && p.last() == b;
    let r = p.reverse();
    assert forall|k: int| 0 <= k < r.len() - 1 implies #[trigger] step_linked(links, r, k) by {
        let j = r.len() - 2 - k;
        assert(step_linked(links, p, j));
        let t = choose|t: int| 0 <= t < links.len() && (links[t] == (p[j], p[j + 1]) || links[t] == (p[j + 1], p[j]));
        assert(r[k] == p[j + 1] && r[k + 1] == p[j]);
        assert(links[t] == (r[k], r[k + 1]) || links[t] == (r[k + 1], r[k]));
    }
    assert(is_walk(links, r));
}

proof fn lemma_connected_trans(links: Seq<(usize, usize)>, a: usize, b: usize, c: usize)
    requires
        connected(links, a, b),
        connected(links, b, c),
    ensures
        connected(links, a, c),
{
    let p = choose|p: Seq<usize>| #[trigger] is_walk(links, p) && p[0] == a && p.last() == b;
    let q = choose|q: Seq<usize>| #[trigger] is_walk(links, q) && q[0] == b && q.last() == c;
    let w = p + q.drop_first();
    assert forall|k: int| 0 <= k < w.len() - 1 implies #[trigger] step_linked(links, w, k) by {
        if k < p.len() - 1 {
            assert(step_linked(links, p, k));
            assert(w[k] == p[k] && w[k + 1] == p[k + 1]);
        } else if k == p.len() - 1 {
            assert(step_linked(links, q, 0));
            assert(w[k] == q[0] && w[k + 1] == q[1]);
        } else {
            let j = k - p.len() + 1;
            assert(step_linked(links, q, j));
            assert(w[k] == q[j] && w[k + 1] == q[j + 1]);
        }
    }
    assert(is_walk(links, w));
    if q.len() == 1 {
        assert(w =~= p);
    } else {
        assert(w.last() == q.last());
    }
}

proof fn lemma_connected_more(links: Seq<(usize, usize)>, e: (usize, usize), a: usize, b: usize)
    requires
        connected(links, a, b),
    ensures
        connected(links.push(e), a, b),
{
    let p = choose|p: Seq<usize>| #[trigger] is_walk(links, p) && p[0] == a && p.last() == b;
    assert forall|k: int| 0 <= k < p.len() - 1 implies #[trigger] step_linked(links.push(e), p, k) by {
        assert(step_linked(links, p, k));
        let t = choose|t: int| 0 <= t < links.len() && (links[t] == (p[k], p[k + 1]) || links[t] == (p[k + 1], p[k]));
        assert(links.push(e)[t] == links[t]);
    }
    assert(is_walk(links.push(e), p));
}

/// Labels that agree on the two ends of every link agree along a walk.
proof fn lemma_walk_labels(links: Seq<(usize, usize)>, label: Seq<usize>, path: Seq<usize>)
    requires
        is_walk(links, path),
        path[0] < label.len(),
        forall|t: int| 0 <= t < links.len() ==> (#[trigger] links[t]).0 < label.len() && links[t].1 < label.len()
            && label[links[t].0 as int] == label[links[t].1 as int],
    ensures
        path.last() < label.len(),
        label[path.last() as int] == label[path[0] as int],
    decreases path.len(),
{
    if path.len() > 1 {
        let front = path.drop_last();
        assert forall|k: int| 0 <= k < front.len() - 1 implies #[trigger] step_linked(links, front, k) by {
            assert(step_linked(links, path, k));
        }
        lemma_walk_labels(links, label, front);
        let k = path.len() - 2;
        assert(step_linked(links, path, k));
        let t = choose|t: int| 0 <= t < links.len() && (links[t] == (path[k], path[k + 1]) || links[t] == (path[k + 1], path[k]));
        assert(links[t].0 < label.len());
    }
}

proof fn lemma_members_none(links: Seq<(usize, usize)>, n: nat, r: usize)
    requires
        forall|y: usize| y < n ==> !#[trigger] connected(links, y, r),
    ensures
        members(links, n, r) == Seq::<usize>::empty(),
    decreases n,
{
    if n > 0 {
        assert(!connected(links, (n - 1) as usize, r));
        lemma_members_none(links, (n - 1) as nat, r);
    }
}

proof fn lemma_leaders_shape(links: Seq<(usize, usize)>, n: nat)
    ensures
        forall|t: int| 0 <= t < leaders(links, n).len() ==> (#[trigger] leaders(links, n)[t]) < n
            && is_leader(links, leaders(links, n)[t]),
        forall|y: usize| y < n && is_leader(links, y) ==> exists|t: int| 0 <= t < leaders(links, n).len()
            && #[trigger] leaders(links, n)[t] == y,
    decreases n,
{
    if n > 0 {
        lemma_leaders_shape(links, (n - 1) as nat);
        let prev = leaders(links, (n - 1) as nat);
        assert forall|y: usize| y < n && is_leader(links, y) implies exists|t: int| 0 <= t < leaders(links, n).len()
            && #[trigger] leaders(links, n)[t] == y by {
            if y < n - 1 {
                let t = choose|t: int| 0 <= t < prev.len() && #[trigger] prev[t] == y;
                assert(leaders(links, n)[t] == y);
            } else {
                assert(leaders(links, n)[prev.len() as int] == y);
            }
        }
    }
}

/// The entanglement clusters: each cluster's qubits ascending, clusters
/// ordered by their first qubit; and each qubit's cluster.
pub struct QubitClusters {
    /// The clusters.
    pub clusters: Vec<Vec<usize>>,
    /// `qubit_cluster[q]` is the index of the cluster of qubit `q`.
    pub qubit_cluster: Vec<usize>,
}

/// Groups qubits `0..n` into clusters: two qubits share a cluster when a
/// chain of links joins them. Clusters come ordered by their first qubit
/// and list their qubits ascending.
pub fn cluster_qubits(n: usize, links: &Vec<(usize, usize)>) -> (r: QubitClusters)
    requires
        forall|t: int| 0 <= t < links@.len() ==> (#[trigger] links@[t]).0 < n && links@[t].1 < n,
    ensures
        r.clusters@.len() == leaders(links@, n as nat).len(),
        forall|t: int| 0 <= t < r.clusters@.len() ==> (#[trigger] r.clusters@[t])@ == members(links@, n as nat, leaders(links@, n as nat)[t]),
        r.qubit_cluster@.len() == n,
        forall|q: int| 0 <= q < n ==> (#[trigger] r.qubit_cluster@[q]) < r.clusters@.len()
            && connected(links@, q as usize, leaders(links@, n as nat)[r.qubit_cluster@[q] as int]),
{
    let ghost all = links@;
    let mut label: Vec<usize> = Vec::new();
    let mut x: usize = 0;
    while x < n
        invariant
            x <= n,
            label@.len() == x,
            forall|y: int| 0 <= y < x ==> label@[y] == y,
        decreases n - x,
    {
        label.push(x);
        x = x + 1;
    }
    proof {
        assert forall|y: int| 0 <= y < n implies connected(all.take(0), y as usize, #[trigger] label@[y]) by {
            lemma_connected_refl(all.take(0), y as usize);
        }
    }
    let mut k: usize = 0;
    while k < links.len()
        invariant
            k <= all.len(),
            all == links@,
            forall|t: int| 0 <= t < all.len() ==> (#[trigger] all[t]).0 < n && all[t].1 < n,
            label@.len() == n,
            forall|y: int| 0 <= y < n ==> (#[trigger] label@[y]) <= y && connected(all.take(k as int), y as usize, label@[y]),
            forall|t: int| 0 <= t < k ==> label@[(#[trigger] all[t]).0 as int] == label@[all[t].1 as int],
        decreases all.len() - k,
    {
        let ghost before = label@;
        let ghost done = all.take(k as int);
        let ghost next = all.take(k as int + 1);
        assert(next =~= done.push(all[k as int]));
        let (a, b) = links[k];
        let la = label[a];
        let lb = label[b];
        proof {
            assert forall|y: int| 0 <= y < n implies connected(next, y as usize, #[trigger] before[y]) by {
                assert(connected(done, y as usize, before[y]));
                lemma_connected_more(done, all[k as int], y as usize, before[y]);
            }
        }
        if la != lb {
            let m = if la < lb { la } else { lb };
            proof {
                assert(next[k as int] == (a, b));
                lemma_connected_link(next, k as int);
                assert(connected(next, a, la));
                assert(connected(next, b, lb));
                lemma_connected_sym(next, a, la);
                lemma_connected_sym(next, b, lb);
                lemma_connected_trans(next, lb, b, a);
                lemma_connected_trans(next, lb, a, la);
                lemma_connected_trans(next, la, a, b);
                lemma_connected_trans(next, la, b, lb);
                assert(connected(next, la, m) && connected(next, lb, m)) by {
                    lemma_connected_refl(next, la);
                    lemma_connected_refl(next, lb);
                }
            }
            let mut y: usize = 0;
            while y < n
                invariant
                    y <= n,
                    label@.len() == n,
                    before.len() == n,
                    m == la || m == lb,
                    forall|z: int| 0 <= z < y ==> (#[trigger] label@[z]) == if before[z] == la || before[z] == lb { m } else { before[z] },
                    forall|z: int| y <= z < n ==> (#[trigger] label@[z]) == before[z],
                decreases n - y,
            {
                if label[y] == la || label[y] == lb {
                    label.set(y, m);
                }
                y = y + 1;
            }
            proof {
                assert forall|z: int| 0 <= z < n implies (#[trigger] label@[z]) <= z && connected(next, z as usize, label@[z]) by {
                    assert(before[z] <= z && connected(next, z as usize, before[z]));
                    if before[z] == la {
                        lemma_connected_trans(next, z as usize, la, m);
                    } else if before[z] == lb {
                        lemma_connected_trans(next, z as usize, lb, m);
                    }
                }
                assert forall|t: int| 0 <= t < k + 1 implies label@[(#[trigger] all[t]).0 as int] == label@[all[t].1 as int] by {
                    if t < k {
                        assert(before[all[t].0 as int] == before[all[t].1 as int]);
                    }
                }
            }
        }
        k = k + 1;
    }
    assert(all.take(all.len() as int) =~= all);
    proof {
        assert forall|y: int, z: int| 0 <= y < n && 0 <= z < n && connected(all, y as usize, z as usize)
            implies label@[y] == label@[z] by {
            let p = choose|p: Seq<usize>| #[trigger] is_walk(all, p) && p[0] == y as usize && p.last() == z as usize;
            lemma_walk_labels(all, label@, p);
        }
    }
    let ghost lab = label@;
    assert(forall|y: int, z: int| 0 <= y < n && 0 <= z < n && connected(all, y as usize, z as usize) ==> lab[y] == lab[z]);
    let mut clusters: Vec<Vec<usize>> = Vec::new();
    let mut qubit_cluster: Vec<usize> = Vec::new();
    let mut slot: Vec<usize> = Vec::new();
    let mut x: usize = 0;
    while x < n
        invariant
            x <= n,
            slot@.len() == x,
        decreases n - x,
    {
        slot.push(0);
        x = x + 1;
    }
    let mut x: usize = 0;
    while x < n
        invariant
            x <= n,
            all == links@,
            lab == label@,
            lab.len() == n,
            slot@.len() == n,
            forall|y: int| 0 <= y < n ==> (#[trigger] lab[y]) <= y && connected(all, y as usize, lab[y]),
            forall|y: int, z: int| 0 <= y < n && 0 <= z < n && connected(all, y as usize, z as usize) ==> lab[y] == lab[z],
            clusters@.len() == leaders(all, x as nat).len(),
            forall|t: int| 0 <= t < clusters@.len() ==> (#[trigger] clusters@[t])@ == members(all, x as nat, leaders(all, x as nat)[t]),
            forall|t: int| 0 <= t < clusters@.len() ==> lab[(#[trigger] leaders(all, x as nat)[t]) as int] == leaders(all, x as nat)[t]
                && leaders(all, x as nat)[t] < x && slot@[leaders(all, x as nat)[t] as int] == t,
            qubit_cluster@.len() == x,
            forall|y: int| 0 <= y < x ==> (#[trigger] qubit_cluster@[y]) < clusters@.len()
                && leaders(all, x as nat)[qubit_cluster@[y] as int] == lab[y],
        decreases n - x,
    {
        let ghost ls = leaders(all, x as nat);
        let ghost lsn = leaders(all, x as nat + 1);
        let l = label[x];
        if l == x {
            proof {
                assert forall|r: usize| r < x implies !#[trigger] connected(all, r, x) by {
                    if connected(all, r, x) {
                        assert(lab[r as int] == lab[x as int]);
                    }
                }
                assert(is_leader(all, x));
                assert(lsn == ls.push(x));
                lemma_connected_refl(all, x);
                lemma_members_none(all, x as nat, x);
                assert forall|t: int| 0 <= t < clusters@.len() implies
                    members(all, x as nat + 1, #[trigger] ls[t]) == members(all, x as nat, ls[t]) by {
                    if connected(all, x, ls[t]) {
                        assert(lab[x as int] == lab[ls[t] as int]);
                    }
                }
            }
            let t = clusters.len();
            let mut c: Vec<usize> = Vec::new();
            c.push(x);
            clusters.push(c);
            slot.set(x, t);
            qubit_cluster.push(t);
            proof {
                assert(clusters@[t as int]@ =~= members(all, x as nat + 1, x));
                assert forall|y: int| 0 <= y < x + 1 implies (#[trigger] qubit_cluster@[y]) < clusters@.len()
                    && lsn[qubit_cluster@[y] as int] == lab[y] by {
                    if y < x {
                        assert(ls[qubit_cluster@[y] as int] == lab[y]);
                    }
                }
            }
        } else {
            proof {
                assert(lab[x as int] < x);
                assert(connected(all, x, l));
                lemma_connected_sym(all, x, l);
                assert(!is_leader(all, x));
                assert(lsn == ls);
                assert(lab[l as int] == l);
                assert(is_leader(all, l)) by {
                    assert forall|r: usize| r < l implies !#[trigger] connected(all, r, l) by {
                        if connected(all, r, l) {
                            assert(lab[r as int] == lab[l as int]);
                        }
                    }
                }
                lemma_leaders_shape(all, x as nat);
                let w = choose|w: int| 0 <= w < ls.len() && #[trigger] ls[w] == l;
                assert(slot@[l as int] == w);
            }
            let t = slot[l];
            let mut c = clusters.remove(t);
            c.push(x);
            clusters.insert(t, c);
            qubit_cluster.push(t);
            proof {
                assert forall|s: int| 0 <= s < clusters@.len() implies (#[trigger] clusters@[s])@
                    == members(all, x as nat + 1, lsn[s]) by {
                    if s == t {
                        assert(members(all, x as nat + 1, l) == members(all, x as nat, l).push(x));
                    } else {
                        if connected(all, x, ls[s]) {
                            assert(lab[x as int] == lab[ls[s] as int]);
                        }
                    }
                }
                assert forall|y: int| 0 <= y < x + 1 implies (#[trigger] qubit_cluster@[y]) < clusters@.len()
                    && lsn[qubit_cluster@[y] as int] == lab[y] by {
                    if y < x {
                        assert(ls[qubit_cluster@[y] as int] == lab[y]);
                    }
                }
            }
        }
        x = x + 1;
    }
    proof {
        assert forall|q: int| 0 <= q < n implies (#[trigger] qubit_cluster@[q]) < clusters@.len()
            && connected(all, q as usize, leaders(all, n as nat)[qubit_cluster@[q] as int]) by {
            assert(leaders(all, n as nat)[qubit_cluster@[q] as int] == lab[q]);
        }
    }
    QubitClusters { clusters, qubit_cluster }
}

} // verus!
