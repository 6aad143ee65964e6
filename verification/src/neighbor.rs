//! Radius queries over a frozen snapshot of node positions: the question
//! "which other nodes lie within distance `radius` of node `i`" answered two
//! ways — by brute force over all pairs, and through a spatial index sorted
//! by x coordinate. Both return the same canonical answer: the strictly
//! ascending list of exactly the indices within the radius. The index is
//! rebuilt every tick, since positions move and nodes are added.

use vstd::prelude::*;
use crate::config::PARAM_LIMIT;
use crate::node::{model_of, node_wf, nodes_wf, Node, NodeV};
use crate::vec2::lemma_mag_sq_basics;

verus! {

/// Node `j` is a neighbor of node `i` at `radius`: another node whose true
/// Euclidean distance to `i` is strictly below `radius`. Exact on squares:
/// `dist < radius` iff `dist^2 < radius^2`.
pub open spec fn within_radius(m: Seq<NodeV>, i: int, radius: int, j: int) -> bool {
    &&& 0 <= j < m.len()
    &&& j != i
    &&& m[j].position.minus(m[i].position).mag_sq() < radius * radius
}

/// The sequence is strictly increasing.
pub open spec fn strictly_ascending(s: Seq<usize>) -> bool {
    forall|k1: int, k2: int|
        #![trigger s[k1], s[k2]]
        0 <= k1 < k2 < s.len() ==> s[k1] < s[k2]
}

/// All elements are distinct.
pub open spec fn distinct(s: Seq<usize>) -> bool {
    forall|k1: int, k2: int|
        #![trigger s[k1], s[k2]]
        0 <= k1 < k2 < s.len() ==> s[k1] != s[k2]
}

/// Two strictly ascending sequences with the same members are equal.
pub proof fn lemma_ascending_unique(a: Seq<usize>, b: Seq<usize>)
    requires
        strictly_ascending(a),
        strictly_ascending(b),
        forall|j: usize| a.contains(j) <==> #[trigger] b.contains(j),
    ensures
        a =~= b,
    decreases a.len() + b.len(),
{
    if a.len() == 0 {
        if b.len() > 0 {
            assert(b.contains(b[0]));
            assert(a.contains(b[0]));
            assert(false);
        }
    } else if b.len() == 0 {
        assert(a.contains(a[0]));
        assert(b.contains(a[0]));
        assert(false);
    } else {
        // both heads are the minimum of the same set, so they are equal
        assert(a.contains(a[0]) && b.contains(b[0]));
        assert(b.contains(a[0]) && a.contains(b[0]));
        let ka = choose|k: int| 0 <= k < b.len() && b[k] == a[0];
        let kb = choose|k: int| 0 <= k < a.len() && a[k] == b[0];
        assert(b[0] <= b[ka] && a[0] <= a[kb]);
        assert(a[0] == b[0]);
        let at = a.subrange(1, a.len() as int);
        let bt = b.subrange(1, b.len() as int);
        assert forall|j: usize| at.contains(j) <==> #[trigger] bt.contains(j) by {
            if at.contains(j) {
                let k = choose|k: int| 0 <= k < at.len() && at[k] == j;
                assert(a[k + 1] == j && a.contains(j) && a[0] < j);
                assert(b.contains(j));
                let k2 = choose|k2: int| 0 <= k2 < b.len() && b[k2] == j;
                assert(k2 > 0);
                assert(bt[k2 - 1] == j);
            }
            if bt.contains(j) {
                let k = choose|k: int| 0 <= k < bt.len() && bt[k] == j;
                assert(b[k + 1] == j && b.contains(j) && b[0] < j);
                assert(a.contains(j));
                let k2 = choose|k2: int| 0 <= k2 < a.len() && a[k2] == j;
                assert(k2 > 0);
                assert(at[k2 - 1] == j);
            }
        }
        lemma_ascending_unique(at, bt);
        assert(a =~= seq![a[0]] + at);
        assert(b =~= seq![b[0]] + bt);
        assert(at == bt);
        assert(a == seq![a[0]] + at && b == seq![b[0]] + bt);
        assert(a == b);
    }
}

/// Squared distance between the positions of two nodes, executable.
pub(crate) fn dist_sq(a: &Node, b: &Node) -> (q: i128)
    requires
        node_wf(a@),
        node_wf(b@),
    ensures
        q == b@.position.minus(a@.position).mag_sq(),
        q >= 0,
{
    let dx = b.position.x as i128 - a.position.x as i128;
    let dy = b.position.y as i128 - a.position.y as i128;
    proof {
        assert(dx * dx <= 0x1000_0000_0000_0000_0000_0000_0000i128 && dy * dy
            <= 0x1000_0000_0000_0000_0000_0000_0000i128 && dx * dx >= 0 && dy * dy >= 0)
            by (nonlinear_arith)
            requires
                -0x2_0000_0000_0000i128 <= dx <= 0x2_0000_0000_0000i128,
                -0x2_0000_0000_0000i128 <= dy <= 0x2_0000_0000_0000i128,
        ;
    }
    dx * dx + dy * dy
}

/// Brute-force strategy: every other node is examined directly. Returns the
/// ascending list of exactly the nodes within `radius` of node `i`.
pub fn brute_force_neighbors(nodes: &Vec<Node>, i: usize, radius: i64) -> (r: Vec<usize>)
    requires
        nodes_wf(model_of(nodes@)),
        i < nodes@.len(),
        0 <= radius <= PARAM_LIMIT,
    ensures
        strictly_ascending(r@),
        forall|j: usize|
            #[trigger] r@.contains(j) <==> within_radius(
                model_of(nodes@),
                i as int,
                radius as int,
                j as int,
            ),
{
    let m = Ghost(model_of(nodes@));
    proof {
        assert((radius as int) * (radius as int) <= 1_000_000_000_000_000_000)
            by (nonlinear_arith)
            requires
                0 <= (radius as int) <= 1_000_000_000,
        ;
    }
    let rsq = (radius as i128) * (radius as i128);
    let mut out: Vec<usize> = Vec::new();
    let mut j: usize = 0;
    while j < nodes.len()
        invariant
            m@ == model_of(nodes@),
            nodes_wf(m@),
            m@.len() == nodes@.len(),
            i < nodes@.len(),
            j <= nodes@.len(),
            rsq == (radius as int) * (radius as int),
            strictly_ascending(out@),
            forall|k: int| 0 <= k < out@.len() ==> #[trigger] out@[k] < j,
            forall|jj: usize|
                #[trigger] out@.contains(jj) <==> ((jj as int) < j && within_radius(
                    m@,
                    i as int,
                    radius as int,
                    jj as int,
                )),
        decreases nodes@.len() - j,
    {
        if j != i {
            proof {
                assert(node_wf(m@[i as int]) && node_wf(m@[j as int]));
            }
            let q = dist_sq(&nodes[i], &nodes[j]);
            if q < rsq {
                let ghost before = out@;
                out.push(j);
                proof {
                    assert forall|jj: usize| #[trigger] out@.contains(jj) <==> ((jj as int) < j
                        + 1 && within_radius(m@, i as int, radius as int, jj as int)) by {
                        if out@.contains(jj) {
                            let k = choose|k: int| 0 <= k < out@.len() && out@[k] == jj;
                            if k < before.len() {
                                assert(before.contains(jj));
                            }
                        }
                        if (jj as int) < j + 1 && within_radius(
                            m@,
                            i as int,
                            radius as int,
                            jj as int,
                        ) {
                            if (jj as int) < j {
                                assert(before.contains(jj));
                                let k = choose|k: int| 0 <= k < before.len() && before[k] == jj;
                                assert(out@[k] == jj);
                            } else {
                                assert(out@[out@.len() - 1] == jj);
                            }
                        }
                    }
                }
            }
        }
        proof {
            assert forall|jj: usize| #[trigger] out@.contains(jj) <==> ((jj as int) < j + 1
                && within_radius(m@, i as int, radius as int, jj as int)) by {
                if (jj as int) == j && within_radius(m@, i as int, radius as int, jj as int) {
                    assert(out@.contains(jj));
                }
            }
        }
        j += 1;
    }
    out
}

/// Sorts a list of distinct indices ascending; the members are unchanged.
pub fn sort_ascending(v: Vec<usize>) -> (r: Vec<usize>)
    requires
        distinct(v@),
    ensures
        strictly_ascending(r@),
        r@.len() == v@.len(),
        forall|j: usize| #[trigger] r@.contains(j) <==> v@.contains(j),
{
    let mut out: Vec<usize> = Vec::new();
    let mut t: usize = 0;
    while t < v.len()
        invariant
            distinct(v@),
            t <= v@.len(),
            out@.len() == t,
            strictly_ascending(out@),
            forall|j: usize|
                #[trigger] out@.contains(j) <==> exists|k: int| 0 <= k < t && v@[k] == j,
        decreases v@.len() - t,
    {
        let x = v[t];
        proof {
            if out@.contains(x) {
                let k = choose|k: int| 0 <= k < t && v@[k] == x;
                assert(v@[k] == v@[t as int] && k < t);
                assert(false);
            }
        }
        let mut p: usize = 0;
        while p < out.len() && out[p] < x
            invariant
                p <= out@.len(),
                strictly_ascending(out@),
                !out@.contains(x),
                forall|k: int| 0 <= k < p ==> #[trigger] out@[k] < x,
            decreases out@.len() - p,
        {
            p += 1;
        }
        proof {
            if p < out@.len() {
                assert(out@[p as int] != x) by {
                    if out@[p as int] == x {
                        assert(out@.contains(x));
                    }
                }
            }
        }
        let ghost before = out@;
        out.insert(p, x);
        proof {
            before.insert_ensures(p as int, x);
            assert forall|k1: int, k2: int|
                #![trigger out@[k1], out@[k2]]
                0 <= k1 < k2 < out@.len() implies out@[k1] < out@[k2] by {
                if k2 < p {
                    assert(out@[k1] == before[k1] && out@[k2] == before[k2]);
                } else if k2 == p {
                    assert(out@[k1] == before[k1] && before[k1] < x);
                } else {
                    // k2 > p, so out@[k2] == before[k2 - 1] with k2 - 1 >= p
                    assert(out@[k2] == before[k2 - 1]);
                    assert(before[p as int] > x);
                    if k2 - 1 > p {
                        assert(before[p as int] < before[k2 - 1]);
                    }
                    if k1 < p {
                        assert(out@[k1] == before[k1] && before[k1] < x);
                    } else if k1 == p {
                        assert(out@[k1] == x);
                    } else {
                        assert(out@[k1] == before[k1 - 1]);
                        assert(before[k1 - 1] < before[k2 - 1]);
                    }
                }
            }
            assert forall|j: usize| #[trigger] out@.contains(j) <==> (exists|k: int|
                0 <= k < t + 1 && v@[k] == j) by {
                if out@.contains(j) {
                    let k = choose|k: int| 0 <= k < out@.len() && out@[k] == j;
                    if k < p {
                        assert(before[k] == j && before.contains(j));
                    } else if k == p {
                        assert(v@[t as int] == j);
                    } else {
                        assert(before[k - 1] == j && before.contains(j));
                    }
                }
                if exists|k: int| 0 <= k < t + 1 && v@[k] == j {
                    let k = choose|k: int| 0 <= k < t + 1 && v@[k] == j;
                    if k < t {
                        assert(before.contains(j));
                        let k2 = choose|k2: int| 0 <= k2 < before.len() && before[k2] == j;
                        if k2 < p {
                            assert(out@[k2] == j);
                        } else {
                            assert(out@[k2 + 1] == j);
                        }
                    } else {
                        assert(out@[p as int] == j);
                    }
                }
            }
        }
        t += 1;
    }
    proof {
        assert forall|j: usize| #[trigger] out@.contains(j) <==> v@.contains(j) by {
            if v@.contains(j) {
                let k = choose|k: int| 0 <= k < v@.len() && v@[k] == j;
                assert(exists|kk: int| 0 <= kk < t && v@[kk] == j);
            }
        }
    }
    out
}

/// A per-tick spatial index: the node indices sorted by x coordinate. A
/// radius query narrows the candidates to the x window
/// `(x_i - radius, x_i + radius)` by binary search before measuring true
/// distances: any node within the radius has `|dx| < radius`, so none
/// escapes the window.
pub struct NeighborIndex {
    pub entries: Vec<(i64, usize)>,
}

/// Entry `k` points at a node of snapshot `m` and carries its x coordinate.
pub open spec fn entry_ok(entries: Seq<(i64, usize)>, m: Seq<NodeV>, k: int) -> bool {
    &&& (entries[k].1 as int) < m.len()
    &&& (entries[k].0 as int) == m[entries[k].1 as int].position.x
}

/// Node index `j` appears among the entries.
pub open spec fn appears(entries: Seq<(i64, usize)>, j: int) -> bool {
    exists|k: int| 0 <= k < entries.len() && (#[trigger] entries[k]).1 == j
}

impl NeighborIndex {
    /// The index faithfully describes snapshot `m`: one entry per node,
    /// sorted by x, every node present exactly once.
    pub open spec fn valid_for(self, m: Seq<NodeV>) -> bool {
        &&& self.entries@.len() == m.len()
        &&& forall|k: int| 0 <= k < self.entries@.len() ==> #[trigger] entry_ok(self.entries@, m, k)
        &&& forall|k1: int, k2: int|
            #![trigger self.entries@[k1], self.entries@[k2]]
            0 <= k1 < k2 < self.entries@.len() ==> self.entries@[k1].0 <= self.entries@[k2].0
                && self.entries@[k1].1 != self.entries@[k2].1
        &&& forall|j: int| 0 <= j < m.len() ==> #[trigger] appears(self.entries@, j)
    }

    /// Builds the index for a snapshot by insertion into x order.
    pub fn build(nodes: &Vec<Node>) -> (r: NeighborIndex)
        ensures
            r.valid_for(model_of(nodes@)),
    {
        let m = Ghost(model_of(nodes@));
        let mut entries: Vec<(i64, usize)> = Vec::new();
        let mut j: usize = 0;
        while j < nodes.len()
            invariant
                m@ == model_of(nodes@),
                m@.len() == nodes@.len(),
                j <= nodes@.len(),
                entries@.len() == j,
                forall|k: int| 0 <= k < entries@.len() ==> #[trigger] entry_ok(entries@, m@, k),
                forall|k: int| 0 <= k < entries@.len() ==> (#[trigger] entries@[k]).1 < j,
                forall|k1: int, k2: int|
                    #![trigger entries@[k1], entries@[k2]]
                    0 <= k1 < k2 < entries@.len() ==> entries@[k1].0 <= entries@[k2].0
                        && entries@[k1].1 != entries@[k2].1,
                forall|jj: int| 0 <= jj < j ==> #[trigger] appears(entries@, jj),
            decreases nodes@.len() - j,
        {
            let x = nodes[j].position.x;
            let mut p: usize = 0;
            while p < entries.len() && entries[p].0 < x
                invariant
                    p <= entries@.len(),
                    forall|k: int| 0 <= k < p ==> (#[trigger] entries@[k]).0 < x,
                decreases entries@.len() - p,
            {
                p += 1;
            }
            let ghost before = entries@;
            entries.insert(p, (x, j));
            proof {
                before.insert_ensures(p as int, (x, j));
                assert forall|k1: int, k2: int|
                    #![trigger entries@[k1], entries@[k2]]
                    0 <= k1 < k2 < entries@.len() implies entries@[k1].0 <= entries@[k2].0
                    && entries@[k1].1 != entries@[k2].1 by {
                    if k2 < p {
                        assert(entries@[k1] == before[k1] && entries@[k2] == before[k2]);
                    } else if k2 == p {
                        assert(entries@[k1] == before[k1] && before[k1].0 < x && before[k1].1
                            < j);
                    } else {
                        assert(entries@[k2] == before[k2 - 1]);
                        if k1 < p {
                            assert(entries@[k1] == before[k1] && before[k1].0 < x);
                            if k2 - 1 > p - 1 && p <= k2 - 1 && p < before.len() {
                                if p < k2 - 1 {
                                    assert(before[p as int].0 <= before[k2 - 1].0);
                                }
                                assert(x <= before[p as int].0);
                            }
                            assert(before[k2 - 1].1 < j && before[k1].1 != before[k2 - 1].1);
                        } else if k1 == p {
                            assert(entries@[k1] == (x, j));
                            assert(p < before.len() ==> x <= before[p as int].0);
                            if p < k2 - 1 {
                                assert(before[p as int].0 <= before[k2 - 1].0);
                            }
                            assert(before[k2 - 1].1 < j);
                        } else {
                            assert(entries@[k1] == before[k1 - 1]);
                            assert(before[k1 - 1].0 <= before[k2 - 1].0 && before[k1 - 1].1
                                != before[k2 - 1].1);
                        }
                    }
                }
                assert forall|k: int| 0 <= k < entries@.len() implies #[trigger] entry_ok(
                    entries@,
                    m@,
                    k,
                ) && entries@[k].1 < j + 1 by {
                    if k < p {
                        assert(entries@[k] == before[k] && entry_ok(before, m@, k));
                    } else if k == p {
                        assert(entries@[k] == (x, j));
                    } else {
                        assert(entries@[k] == before[k - 1] && entry_ok(before, m@, k - 1));
                    }
                }
                assert forall|jj: int| 0 <= jj < j + 1 implies #[trigger] appears(
                    entries@,
                    jj,
                ) by {
                    if jj < j {
                        assert(appears(before, jj));
                        let k = choose|k: int|
                            0 <= k < before.len() && (#[trigger] before[k]).1 == jj;
                        if k < p {
                            assert(entries@[k] == before[k]);
                        } else {
                            assert(entries@[k + 1] == before[k]);
                        }
                    } else {
                        assert(entries@[p as int].1 == jj);
                    }
                }
            }
            j += 1;
        }
        NeighborIndex { entries }
    }

    /// Spatial-index strategy: binary search narrows candidates to the x
    /// window, true distances decide. Returns the ascending list of exactly
    /// the nodes within `radius` of node `i` — the same list the brute-force
    /// strategy returns on this snapshot.
    pub fn query(&self, nodes: &Vec<Node>, i: usize, radius: i64) -> (r: Vec<usize>)
        requires
            self.valid_for(model_of(nodes@)),
            nodes_wf(model_of(nodes@)),
            i < nodes@.len(),
            0 <= radius <= PARAM_LIMIT,
        ensures
            strictly_ascending(r@),
            forall|j: usize|
                #[trigger] r@.contains(j) <==> within_radius(
                    model_of(nodes@),
                    i as int,
                    radius as int,
                    j as int,
                ),
    {
        let m = Ghost(model_of(nodes@));
        proof {
            assert(node_wf(m@[i as int]));
            assert((radius as int) * (radius as int) <= 1_000_000_000_000_000_000)
                by (nonlinear_arith)
                requires
                    0 <= (radius as int) <= 1_000_000_000,
            ;
        }
        let xi = nodes[i].position.x;
        let lo_b = xi - radius;
        let hi_b = xi + radius;
        let rsq = (radius as i128) * (radius as i128);
        let mut l: usize = 0;
        let mut h: usize = self.entries.len();
        while l < h
            invariant
                self.valid_for(m@),
                l <= h <= self.entries@.len(),
                forall|k: int| 0 <= k < l ==> (#[trigger] self.entries@[k]).0 <= lo_b,
                forall|k: int|
                    h <= k < self.entries@.len() ==> (#[trigger] self.entries@[k]).0 > lo_b,
            decreases h - l,
        {
            let mid = l + (h - l) / 2;
            if self.entries[mid].0 <= lo_b {
                proof {
                    assert forall|k: int| 0 <= k < mid + 1 implies (#[trigger] self.entries@[k]).0
                        <= lo_b by {
                        if k < mid {
                            assert(self.entries@[k].0 <= self.entries@[mid as int].0);
                        }
                    }
                }
                l = mid + 1;
            } else {
                proof {
                    assert forall|k: int|
                        mid <= k < self.entries@.len() implies (#[trigger] self.entries@[k]).0
                        > lo_b by {
                        if k > mid {
                            assert(self.entries@[mid as int].0 <= self.entries@[k].0);
                        }
                    }
                }
                h = mid;
            }
        }
        let ghost lo_idx = l as int;
        let mut cand: Vec<usize> = Vec::new();
        let mut k: usize = l;
        while k < self.entries.len() && self.entries[k].0 < hi_b
            invariant
                self.valid_for(m@),
                nodes_wf(m@),
                m@ == model_of(nodes@),
                m@.len() == nodes@.len(),
                i < nodes@.len(),
                0 <= radius <= PARAM_LIMIT,
                rsq == (radius as int) * (radius as int),
                0 <= lo_idx <= k <= self.entries@.len(),
                distinct(cand@),
                forall|j: usize|
                    #[trigger] cand@.contains(j) <==> exists|kk: int|
                        lo_idx <= kk < k && (#[trigger] self.entries@[kk]).1 == j
                            && within_radius(m@, i as int, radius as int, j as int),
            decreases self.entries@.len() - k,
        {
            let j = self.entries[k].1;
            proof {
                assert(entry_ok(self.entries@, m@, k as int));
                assert(node_wf(m@[j as int]) && node_wf(m@[i as int]));
            }
            let ghost cand_before = cand@;
            if j != i {
                let q = dist_sq(&nodes[i], &nodes[j]);
                if q < rsq {
                    proof {
                        if cand@.contains(j) {
                            let kk = choose|kk: int|
                                lo_idx <= kk < k && (#[trigger] self.entries@[kk]).1 == j
                                    && within_radius(m@, i as int, radius as int, j as int);
                            assert(self.entries@[kk].1 != self.entries@[k as int].1);
                            assert(false);
                        }
                    }
                    cand.push(j);
                }
            }
            proof {
                assert forall|jj: usize| #[trigger] cand@.contains(jj) <==> exists|kk: int|
                    lo_idx <= kk < k + 1 && (#[trigger] self.entries@[kk]).1 == jj
                        && within_radius(m@, i as int, radius as int, jj as int) by {
                    if cand@.contains(jj) {
                        let t = choose|t: int| 0 <= t < cand@.len() && cand@[t] == jj;
                        if t < cand_before.len() {
                            assert(cand_before.contains(jj));
                        } else {
                            assert(jj == j);
                            assert(self.entries@[k as int].1 == jj && within_radius(
                                m@,
                                i as int,
                                radius as int,
                                jj as int,
                            ));
                        }
                    }
                    if exists|kk: int|
                        lo_idx <= kk < k + 1 && (#[trigger] self.entries@[kk]).1 == jj
                            && within_radius(m@, i as int, radius as int, jj as int) {
                        let kk = choose|kk: int|
                            lo_idx <= kk < k + 1 && (#[trigger] self.entries@[kk]).1 == jj
                                && within_radius(m@, i as int, radius as int, jj as int);
                        if kk < k {
                            assert(cand_before.contains(jj));
                            let t = choose|t: int|
                                0 <= t < cand_before.len() && cand_before[t] == jj;
                            assert(cand@[t] == jj);
                        } else {
                            assert(jj == j && j != i);
                            assert(cand@[cand@.len() - 1] == jj);
                        }
                    }
                }
            }
            k += 1;
        }
        proof {
            assert forall|j: usize| #[trigger] cand@.contains(j) <==> within_radius(
                m@,
                i as int,
                radius as int,
                j as int,
            ) by {
                if within_radius(m@, i as int, radius as int, j as int) {
                    assert(appears(self.entries@, j as int));
                    let kk = choose|kk: int|
                        0 <= kk < self.entries@.len() && (#[trigger] self.entries@[kk]).1
                            == j as int;
                    assert(entry_ok(self.entries@, m@, kk));
                    let d = m@[j as int].position.minus(m@[i as int].position);
                    lemma_mag_sq_basics(d);
                    assert(-(radius as int) < d.x < radius as int) by (nonlinear_arith)
                        requires
                            0 <= (radius as int),
                            d.x * d.x <= d.mag_sq(),
                            d.mag_sq() < (radius as int) * (radius as int),
                    ;
                    assert(lo_b < self.entries@[kk].0 < hi_b);
                    assert(lo_idx <= kk);
                    if kk >= k {
                        if (k as int) < self.entries@.len() {
                            if kk > k {
                                assert(self.entries@[k as int].0 <= self.entries@[kk].0);
                            }
                            assert(false);
                        }
                        assert(false);
                    }
                }
            }
        }
        sort_ascending(cand)
    }
}

} // verus!
