use vstd::prelude::*;

use crate::errors::DispatchError;

verus! {

/// Distance reported when no path exists within the representable range.
/// Larger than any real path length the search can produce: every real
/// distance is clamped strictly below this value.
pub const UNREACHABLE_DISTANCE: i64 = 0x4000_0000_0000_0000;

/// A point of the road network.
#[derive(Clone, Copy, Debug, PartialEq, Eq, Structural)]
pub struct Node {
    pub id: i32,
    pub x: i32,
    pub y: i32,
}

/// A directed adjacency entry. Each undirected road segment inserted through
/// `Graph::add_edge` is stored as two of these, one per direction.
#[derive(Clone, Copy, Debug, PartialEq, Eq, Structural)]
pub struct Edge {
    pub node_a_id: i32,
    pub node_b_id: i32,
    pub weight: i32,
}

/// The directed entry that `add_edge` synthesizes for the opposite direction.
pub open spec fn reverse_edge(e: Edge) -> Edge {
    Edge { node_a_id: e.node_b_id, node_b_id: e.node_a_id, weight: e.weight }
}

/// Edge `i` of `es` has its reverse somewhere in `es`.
pub open spec fn has_reverse(es: Seq<Edge>, i: int) -> bool {
    exists|j: int| 0 <= j < es.len() && es[j] == reverse_edge(es[i])
}

/// Every stored entry carries a non-negative weight and is paired with its
/// reverse, so the adjacency relation is symmetric.
pub open spec fn edges_wf(es: Seq<Edge>) -> bool {
    &&& forall|i: int| 0 <= i < es.len() ==> (#[trigger] es[i]).weight >= 0
    &&& forall|i: int| 0 <= i < es.len() ==> #[trigger] has_reverse(es, i)
}

pub open spec fn min_int(a: int, b: int) -> int {
    if a <= b {
        a
    } else {
        b
    }
}

/// Adds a weight onto a distance, clamping at the unreachable sentinel so
/// that every representable distance stays in `[0, UNREACHABLE_DISTANCE]`.
pub open spec fn add_weight(d: int, w: int) -> int {
    if d + w >= UNREACHABLE_DISTANCE as int {
        UNREACHABLE_DISTANCE as int
    } else {
        d + w
    }
}

/// The least clamped weight of any directed walk from `src` to `dst` that
/// uses at most `k` adjacency entries: the value a distance table holds for
/// `dst` after `k` relaxation rounds over all entries.
pub open spec fn dist_after_rounds(es: Seq<Edge>, src: i32, dst: i32, k: nat) -> int
    decreases k, 0int, 0int,
{
    if k == 0 {
        if dst == src {
            0
        } else {
            UNREACHABLE_DISTANCE as int
        }
    } else {
        min_int(
            dist_after_rounds(es, src, dst, (k - 1) as nat),
            best_relax(es, src, dst, (k - 1) as nat, es.len()),
        )
    }
}

/// The least value `dist_after_rounds(es, src, a, k) + weight` over the
/// first `n` adjacency entries `(a, dst, weight)` that end at `dst`.
pub open spec fn best_relax(es: Seq<Edge>, src: i32, dst: i32, k: nat, n: nat) -> int
    decreases k, 1int, n,
{
    if n == 0 || n > es.len() {
        UNREACHABLE_DISTANCE as int
    } else {
        min_int(
            best_relax(es, src, dst, k, (n - 1) as nat),
            if es[n - 1].node_b_id == dst {
                add_weight(
                    dist_after_rounds(es, src, es[n - 1].node_a_id, k),
                    es[n - 1].weight as int,
                )
            } else {
                UNREACHABLE_DISTANCE as int
            },
        )
    }
}

/// Rounds after which the table covers every walk no longer than any
/// duplicate-free walk: one more than the number of directed entries.
pub open spec fn spec_rounds(es: Seq<Edge>) -> nat {
    2 * es.len() + 1
}

/// The distance `shortest_distance` reports: the stable value of the
/// relaxation table, `UNREACHABLE_DISTANCE` when no path exists.
pub open spec fn spec_distance(es: Seq<Edge>, src: i32, dst: i32) -> int {
    dist_after_rounds(es, src, dst, spec_rounds(es))
}

/// Every table value lies between zero and the unreachable sentinel.
pub proof fn lemma_dist_range(es: Seq<Edge>, src: i32, dst: i32, k: nat)
    requires
        edges_wf(es),
    ensures
        0 <= dist_after_rounds(es, src, dst, k) <= UNREACHABLE_DISTANCE as int,
    decreases k, 0int, 0int,
{
    if k > 0 {
        lemma_dist_range(es, src, dst, (k - 1) as nat);
        lemma_best_range(es, src, dst, (k - 1) as nat, es.len());
    }
}

/// Every relaxation candidate lies between zero and the sentinel.
pub proof fn lemma_best_range(es: Seq<Edge>, src: i32, dst: i32, k: nat, n: nat)
    requires
        edges_wf(es),
        n <= es.len(),
    ensures
        0 <= best_relax(es, src, dst, k, n) <= UNREACHABLE_DISTANCE as int,
    decreases k, 1int, n,
{
    if n > 0 {
        lemma_best_range(es, src, dst, k, (n - 1) as nat);
        if es[n - 1].node_b_id == dst {
            assert(es[n - 1].weight >= 0);
            lemma_dist_range(es, src, es[n - 1].node_a_id, k);
        }
    }
}

/// More rounds never lengthen a table entry.
pub proof fn lemma_dist_monotone(es: Seq<Edge>, src: i32, dst: i32, k1: nat, k2: nat)
    requires
        k1 <= k2,
    ensures
        dist_after_rounds(es, src, dst, k2) <= dist_after_rounds(es, src, dst, k1),
    decreases k2,
{
    if k1 < k2 {
        lemma_dist_monotone(es, src, dst, k1, (k2 - 1) as nat);
    }
}

/// A node that no adjacency entry ends at, other than the source itself,
/// stays at the unreachable sentinel forever.
pub proof fn lemma_unlisted_inf(es: Seq<Edge>, src: i32, dst: i32, k: nat)
    requires
        dst != src,
        forall|i: int| 0 <= i < es.len() ==> (#[trigger] es[i]).node_b_id != dst,
    ensures
        dist_after_rounds(es, src, dst, k) == UNREACHABLE_DISTANCE as int,
    decreases k,
{
    if k > 0 {
        lemma_unlisted_inf(es, src, dst, (k - 1) as nat);
        lemma_best_unlisted(es, src, dst, (k - 1) as nat, es.len());
    }
}

proof fn lemma_best_unlisted(es: Seq<Edge>, src: i32, dst: i32, k: nat, n: nat)
    requires
        n <= es.len(),
        forall|i: int| 0 <= i < es.len() ==> (#[trigger] es[i]).node_b_id != dst,
    ensures
        best_relax(es, src, dst, k, n) == UNREACHABLE_DISTANCE as int,
    decreases n,
{
    if n > 0 {
        lemma_best_unlisted(es, src, dst, k, (n - 1) as nat);
        assert(es[n - 1].node_b_id != dst);
    }
}

/// A path is a sequence of indices into the adjacency list, consecutively
/// chained from `src` to `dst`. The empty path stands at one node.
pub open spec fn valid_path(es: Seq<Edge>, p: Seq<int>, src: i32, dst: i32) -> bool {
    &&& forall|i: int| 0 <= i < p.len() ==> 0 <= #[trigger] p[i] < es.len()
    &&& forall|i: int|
        0 <= i < p.len() - 1 ==> es[#[trigger] p[i]].node_b_id == es[p[i + 1]].node_a_id
    &&& (p.len() == 0 ==> src == dst)
    &&& (p.len() > 0 ==> es[p[0]].node_a_id == src && es[p[p.len() - 1]].node_b_id == dst)
}

/// The plain (unclamped) sum of the weights along a path.
pub open spec fn path_weight(es: Seq<Edge>, p: Seq<int>) -> int
    decreases p.len(),
{
    if p.len() == 0 {
        0
    } else {
        path_weight(es, p.drop_last()) + es[p[p.len() - 1]].weight
    }
}

proof fn lemma_drop_last_valid(es: Seq<Edge>, p: Seq<int>, src: i32, dst: i32)
    requires
        valid_path(es, p, src, dst),
        p.len() > 0,
    ensures
        valid_path(es, p.drop_last(), src, es[p[p.len() - 1]].node_a_id),
{
    let p0 = p.drop_last();
    assert(forall|i: int| 0 <= i < p0.len() ==> p0[i] == p[i]);
    if p0.len() > 0 {
        assert(es[p0[p0.len() - 1]].node_b_id == es[p[p.len() - 1]].node_a_id);
    }
}

proof fn lemma_best_relax_le_entry(es: Seq<Edge>, src: i32, dst: i32, k: nat, n: nat, e: int)
    requires
        0 <= e < n,
        n <= es.len(),
        es[e].node_b_id == dst,
    ensures
        best_relax(es, src, dst, k, n) <= add_weight(
            dist_after_rounds(es, src, es[e].node_a_id, k),
            es[e].weight as int,
        ),
    decreases n,
{
    if e < n - 1 {
        lemma_best_relax_le_entry(es, src, dst, k, (n - 1) as nat, e);
    }
}

/// No path from `src` to `dst` of at most `k` edges weighs less than the
/// table entry after `k` rounds: the reported distance is a lower bound on
/// the weight of every such path.
pub proof fn lemma_distance_le_path(es: Seq<Edge>, p: Seq<int>, src: i32, dst: i32, k: nat)
    requires
        edges_wf(es),
        valid_path(es, p, src, dst),
        p.len() <= k,
    ensures
        dist_after_rounds(es, src, dst, k) <= path_weight(es, p),
    decreases p.len(),
{
    if p.len() == 0 {
        lemma_dist_monotone(es, src, dst, 0, k);
    } else {
        let e = p[p.len() - 1];
        let p0 = p.drop_last();
        let mid = es[e].node_a_id;
        lemma_drop_last_valid(es, p, src, dst);
        lemma_distance_le_path(es, p0, src, mid, (k - 1) as nat);
        lemma_best_relax_le_entry(es, src, dst, (k - 1) as nat, es.len(), e);
        assert(dist_after_rounds(es, src, dst, k) == min_int(
            dist_after_rounds(es, src, dst, (k - 1) as nat),
            best_relax(es, src, dst, (k - 1) as nat, es.len()),
        ));
    }
}

proof fn lemma_best_achieved(es: Seq<Edge>, src: i32, dst: i32, k: nat, n: nat)
    requires
        edges_wf(es),
        n <= es.len(),
        best_relax(es, src, dst, k, n) < UNREACHABLE_DISTANCE as int,
    ensures
        exists|e: int|
            0 <= e < n && es[e].node_b_id == dst && best_relax(es, src, dst, k, n) == add_weight(
                dist_after_rounds(es, src, es[e].node_a_id, k),
                es[e].weight as int,
            ),
    decreases n,
{
    let b = best_relax(es, src, dst, k, n);
    let bprev = best_relax(es, src, dst, k, (n - 1) as nat);
    if n > 0 && bprev <= b {
        lemma_best_achieved(es, src, dst, k, (n - 1) as nat);
        let e = choose|e: int|
            0 <= e < n - 1 && es[e].node_b_id == dst && best_relax(es, src, dst, k, (n - 1) as nat)
                == add_weight(dist_after_rounds(es, src, es[e].node_a_id, k), es[e].weight as int);
        assert(0 <= e < n && es[e].node_b_id == dst && b == add_weight(
            dist_after_rounds(es, src, es[e].node_a_id, k),
            es[e].weight as int,
        ));
    } else {
        assert(0 <= n - 1 < n && es[n - 1].node_b_id == dst && b == add_weight(
            dist_after_rounds(es, src, es[n - 1].node_a_id, k),
            es[n - 1].weight as int,
        ));
    }
}

/// A table entry below the sentinel is realized: some path of at most `k`
/// edges from `src` to `dst` weighs exactly the entry. Together with
/// `lemma_distance_le_path` this says the reported distance equals the
/// minimum path-weight sum.
pub proof fn lemma_distance_achieved(es: Seq<Edge>, src: i32, dst: i32, k: nat)
    requires
        edges_wf(es),
        dist_after_rounds(es, src, dst, k) < UNREACHABLE_DISTANCE as int,
    ensures
        exists|p: Seq<int>|
            valid_path(es, p, src, dst) && p.len() <= k && path_weight(es, p)
                == dist_after_rounds(es, src, dst, k),
    decreases k,
{
    let d = dist_after_rounds(es, src, dst, k);
    if k == 0 {
        let p = Seq::<int>::empty();
        assert(valid_path(es, p, src, dst) && p.len() <= k && path_weight(es, p) == d);
    } else {
        let dprev = dist_after_rounds(es, src, dst, (k - 1) as nat);
        let b = best_relax(es, src, dst, (k - 1) as nat, es.len());
        if dprev <= b {
            lemma_distance_achieved(es, src, dst, (k - 1) as nat);
            let p = choose|p: Seq<int>|
                valid_path(es, p, src, dst) && p.len() <= k - 1 && path_weight(es, p) == dprev;
            assert(valid_path(es, p, src, dst) && p.len() <= k && path_weight(es, p) == d);
        } else {
            lemma_best_achieved(es, src, dst, (k - 1) as nat, es.len());
            let e = choose|e: int|
                0 <= e < es.len() && es[e].node_b_id == dst && b == add_weight(
                    dist_after_rounds(es, src, es[e].node_a_id, (k - 1) as nat),
                    es[e].weight as int,
                );
            let mid = es[e].node_a_id;
            let dmid = dist_after_rounds(es, src, mid, (k - 1) as nat);
            lemma_dist_range(es, src, mid, (k - 1) as nat);
            assert(es[e].weight >= 0);
            assert(b == dmid + es[e].weight);
            lemma_distance_achieved(es, src, mid, (k - 1) as nat);
            let p0 = choose|p0: Seq<int>|
                valid_path(es, p0, src, mid) && p0.len() <= k - 1 && path_weight(es, p0) == dmid;
            let p = p0.push(e);
            assert(forall|i: int| 0 <= i < p0.len() ==> p[i] == p0[i]);
            assert(p[p.len() - 1] == e);
            assert(valid_path(es, p, src, dst));
            assert(p.drop_last() =~= p0);
            assert(path_weight(es, p) == dmid + es[e].weight);
            assert(valid_path(es, p, src, dst) && p.len() <= k && path_weight(es, p) == d);
        }
    }
}

proof fn lemma_path_weight_concat(es: Seq<Edge>, s: Seq<int>, t: Seq<int>)
    ensures
        path_weight(es, s + t) == path_weight(es, s) + path_weight(es, t),
    decreases t.len(),
{
    let u = s + t;
    if t.len() == 0 {
        assert(u =~= s);
    } else {
        assert(u.drop_last() =~= s + t.drop_last());
        lemma_path_weight_concat(es, s, t.drop_last());
        assert(u[u.len() - 1] == t[t.len() - 1]);
        assert(path_weight(es, u) == path_weight(es, u.drop_last()) + es[t[t.len() - 1]].weight);
        assert(path_weight(es, t) == path_weight(es, t.drop_last()) + es[t[t.len() - 1]].weight);
    }
}

proof fn lemma_path_weight_nonneg(es: Seq<Edge>, p: Seq<int>)
    requires
        edges_wf(es),
        forall|i: int| 0 <= i < p.len() ==> 0 <= #[trigger] p[i] < es.len(),
    ensures
        path_weight(es, p) >= 0,
    decreases p.len(),
{
    if p.len() > 0 {
        let p0 = p.drop_last();
        assert forall|i: int| 0 <= i < p0.len() implies 0 <= #[trigger] p0[i] < es.len() by {
            assert(p0[i] == p[i]);
        }
        lemma_path_weight_nonneg(es, p0);
        assert(es[p[p.len() - 1]].weight >= 0);
    }
}

proof fn lemma_repeated_edge_index(p: Seq<int>, bound: int)
    requires
        0 <= bound,
        forall|i: int| 0 <= i < p.len() ==> 0 <= #[trigger] p[i] < bound,
        p.len() > bound,
    ensures
        exists|i: int, j: int| 0 <= i < j < p.len() && p[i] == p[j],
{
    if !(exists|i: int, j: int| 0 <= i < j < p.len() && p[i] == p[j]) {
        assert forall|i: int, j: int|
            0 <= i < p.len() && 0 <= j < p.len() && i != j implies p[i] != p[j] by {
            if p[i] == p[j] {
                if i < j {
                    assert(0 <= i < j < p.len() && p[i] == p[j]);
                } else {
                    assert(0 <= j < i < p.len() && p[j] == p[i]);
                }
            }
        }
        assert(p.no_duplicates());
        p.unique_seq_to_set();
        let rng = vstd::set_lib::set_int_range(0, bound);
        vstd::set_lib::lemma_int_range(0, bound);
        assert forall|x: int| p.to_set().contains(x) implies rng.contains(x) by {
            assert(p.contains(x));
            let idx = choose|idx: int| 0 <= idx < p.len() && p[idx] == x;
            assert(0 <= p[idx] < bound);
        }
        assert(p.to_set().subset_of(rng));
        vstd::set_lib::lemma_len_subset(p.to_set(), rng);
        assert(false);
    }
}

/// The reported distance is a lower bound on the weight of every path, of
/// any length: a path longer than the round count repeats an adjacency
/// entry, and cutting the enclosed cycle never increases the weight, since
/// weights are non-negative.
#[verifier::rlimit(60)]
pub proof fn lemma_distance_le_any_path(es: Seq<Edge>, p: Seq<int>, src: i32, dst: i32)
    requires
        edges_wf(es),
        valid_path(es, p, src, dst),
    ensures
        spec_distance(es, src, dst) <= path_weight(es, p),
    decreases p.len(),
{
    if p.len() <= spec_rounds(es) {
        lemma_distance_le_path(es, p, src, dst, spec_rounds(es));
    } else {
        lemma_repeated_edge_index(p, es.len() as int);
        let (i, j) = choose|i: int, j: int| 0 <= i < j < p.len() && p[i] == p[j];
        let q = p.take(i) + p.skip(j);
        assert(q.len() == i + (p.len() - j));
        assert forall|m: int| 0 <= m < q.len() implies 0 <= #[trigger] q[m] < es.len() by {
            if m < i {
                assert(q[m] == p[m]);
            } else {
                assert(q[m] == p[m - i + j]);
            }
        }
        assert forall|m: int| 0 <= m < q.len() - 1 implies es[#[trigger] q[m]].node_b_id == es[q[m
            + 1]].node_a_id by {
            if m < i - 1 {
                assert(q[m] == p[m]);
                assert(q[m + 1] == p[m + 1]);
            } else if m == i - 1 {
                assert(q[m] == p[i - 1]);
                assert(q[m + 1] == p[j]);
                assert(es[p[i - 1]].node_b_id == es[p[i]].node_a_id);
                assert(p[i] == p[j]);
            } else {
                assert(q[m] == p[m - i + j]);
                assert(q[m + 1] == p[m + 1 - i + j]);
                assert(es[p[m - i + j]].node_b_id == es[p[m - i + j + 1]].node_a_id);
            }
        }
        assert(q.len() > 0);
        if i > 0 {
            assert(q[0] == p[0]);
        } else {
            assert(q[0] == p[j]);
            assert(p[j] == p[0]);
        }
        assert(q[q.len() - 1] == p[p.len() - 1 - j + j]);
        assert(q[q.len() - 1] == p[p.len() - 1]);
        assert(valid_path(es, q, src, dst));
        assert(p =~= p.take(j) + p.skip(j));
        lemma_path_weight_concat(es, p.take(j), p.skip(j));
        assert(p.take(j) =~= p.take(i) + p.subrange(i, j));
        lemma_path_weight_concat(es, p.take(i), p.subrange(i, j));
        lemma_path_weight_concat(es, p.take(i), p.skip(j));
        let mid = p.subrange(i, j);
        assert forall|m: int| 0 <= m < mid.len() implies 0 <= #[trigger] mid[m] < es.len() by {
            assert(mid[m] == p[m + i]);
        }
        lemma_path_weight_nonneg(es, mid);
        assert(path_weight(es, q) <= path_weight(es, p));
        lemma_distance_le_any_path(es, q, src, dst);
    }
}

/// A node is at distance zero from itself.
pub proof fn lemma_distance_self(es: Seq<Edge>, a: i32)
    requires
        edges_wf(es),
    ensures
        spec_distance(es, a, a) == 0,
{
    lemma_dist_monotone(es, a, a, 0, spec_rounds(es));
    lemma_dist_range(es, a, a, spec_rounds(es));
}

proof fn lemma_path_weight_prepend(es: Seq<Edge>, x: int, s: Seq<int>)
    ensures
        path_weight(es, seq![x] + s) == es[x].weight + path_weight(es, s),
    decreases s.len(),
{
    let t = seq![x] + s;
    assert(t.len() == s.len() + 1);
    if s.len() == 0 {
        assert(t.drop_last() =~= Seq::<int>::empty());
        assert(t[t.len() - 1] == x);
        assert(path_weight(es, t) == path_weight(es, t.drop_last()) + es[x].weight);
        assert(path_weight(es, t.drop_last()) == 0);
        assert(path_weight(es, s) == 0);
    } else {
        assert(t.drop_last() =~= seq![x] + s.drop_last());
        lemma_path_weight_prepend(es, x, s.drop_last());
        assert(t[t.len() - 1] == s[s.len() - 1]);
        assert(path_weight(es, t) == path_weight(es, t.drop_last()) + es[s[s.len() - 1]].weight);
        assert(path_weight(es, t.drop_last()) == es[x].weight + path_weight(es, s.drop_last()));
        assert(path_weight(es, s) == path_weight(es, s.drop_last()) + es[s[s.len() - 1]].weight);
    }
}

/// Every path has a reverse of the same length and weight, because every
/// adjacency entry is stored together with its reverse.
pub proof fn lemma_path_reverse(es: Seq<Edge>, p: Seq<int>, src: i32, dst: i32)
    requires
        edges_wf(es),
        valid_path(es, p, src, dst),
    ensures
        exists|q: Seq<int>|
            valid_path(es, q, dst, src) && q.len() == p.len() && path_weight(es, q) == path_weight(
                es,
                p,
            ),
    decreases p.len(),
{
    if p.len() == 0 {
        let q = Seq::<int>::empty();
        assert(valid_path(es, q, dst, src) && q.len() == p.len() && path_weight(es, q)
            == path_weight(es, p));
    } else {
        let e = p[p.len() - 1];
        let p0 = p.drop_last();
        let mid = es[e].node_a_id;
        lemma_drop_last_valid(es, p, src, dst);
        lemma_path_reverse(es, p0, src, mid);
        let q0 = choose|q0: Seq<int>|
            valid_path(es, q0, mid, src) && q0.len() == p0.len() && path_weight(es, q0)
                == path_weight(es, p0);
        assert(has_reverse(es, e));
        let f = choose|f: int| 0 <= f < es.len() && es[f] == reverse_edge(es[e]);
        let q = seq![f] + q0;
        assert(q[0] == f);
        assert(forall|i: int| 0 <= i < q0.len() ==> q[i + 1] == q0[i]);
        assert(es[f].node_a_id == es[e].node_b_id == dst);
        assert(es[f].node_b_id == mid);
        assert forall|i: int| 0 <= i < q.len() - 1 implies es[#[trigger] q[i]].node_b_id
            == es[q[i + 1]].node_a_id by {
            if i == 0 {
                if q0.len() > 0 {
                    assert(q[1] == q0[0]);
                    assert(es[q0[0]].node_a_id == mid);
                }
            } else {
                assert(q[i] == q0[i - 1]);
                assert(q[i + 1] == q0[i]);
                assert(es[q0[i - 1]].node_b_id == es[q0[i]].node_a_id);
            }
        }
        if q0.len() > 0 {
            assert(q[q.len() - 1] == q0[q0.len() - 1]);
            assert(es[q[q.len() - 1]].node_b_id == src);
        } else {
            assert(q[q.len() - 1] == f);
            assert(mid == src);
        }
        assert(valid_path(es, q, dst, src));
        lemma_path_weight_prepend(es, f, q0);
        assert(path_weight(es, q) == es[e].weight + path_weight(es, p0));
        assert(path_weight(es, p) == path_weight(es, p0) + es[e].weight);
        assert(valid_path(es, q, dst, src) && q.len() == p.len() && path_weight(es, q)
            == path_weight(es, p));
    }
}

proof fn lemma_distance_sym_le(es: Seq<Edge>, a: i32, b: i32)
    requires
        edges_wf(es),
    ensures
        spec_distance(es, b, a) <= spec_distance(es, a, b),
{
    let r = spec_rounds(es);
    let d = spec_distance(es, a, b);
    lemma_dist_range(es, a, b, r);
    lemma_dist_range(es, b, a, r);
    if d < UNREACHABLE_DISTANCE as int {
        lemma_distance_achieved(es, a, b, r);
        let p = choose|p: Seq<int>|
            valid_path(es, p, a, b) && p.len() <= r && path_weight(es, p) == d;
        lemma_path_reverse(es, p, a, b);
        let q = choose|q: Seq<int>|
            valid_path(es, q, b, a) && q.len() == p.len() && path_weight(es, q) == path_weight(
                es,
                p,
            );
        lemma_distance_le_path(es, q, b, a, r);
    }
}

/// The reported distance is symmetric: the graph holds only undirected
/// segments, each stored with its reverse.
pub proof fn lemma_distance_symmetric(es: Seq<Edge>, a: i32, b: i32)
    requires
        edges_wf(es),
    ensures
        spec_distance(es, a, b) == spec_distance(es, b, a),
{
    lemma_distance_sym_le(es, a, b);
    lemma_distance_sym_le(es, b, a);
}

/// Saturating addition of a non-negative edge weight onto a clamped distance.
fn clamp_add(d: i64, w: i64) -> (r: i64)
    requires
        0 <= d <= UNREACHABLE_DISTANCE,
        0 <= w <= 0x7fff_ffff,
    ensures
        r == add_weight(d as int, w as int),
{
    if d >= UNREACHABLE_DISTANCE - w {
        UNREACHABLE_DISTANCE
    } else {
        d + w
    }
}

/// An in-memory weighted undirected road network. Built once at startup;
/// the query operations are pure reads.
#[derive(Debug)]
pub struct Graph {
    nodes: Vec<Node>,
    edges: Vec<Edge>,
}

impl Graph {
    /// The nodes, in insertion order, each id held once.
    pub closed spec fn nodes_seq(self) -> Seq<Node> {
        self.nodes@
    }

    /// The directed adjacency entries, in insertion order.
    pub closed spec fn edges_seq(self) -> Seq<Edge> {
        self.edges@
    }

    /// Some node with this id has been added.
    pub open spec fn has_node(self, id: i32) -> bool {
        exists|i: int| 0 <= i < self.nodes_seq().len() && (#[trigger] self.nodes_seq()[i]).id
            == id
    }

    pub open spec fn wf(self) -> bool {
        &&& edges_wf(self.edges_seq())
        &&& forall|i: int, j: int|
            0 <= i < self.nodes_seq().len() && 0 <= j < self.nodes_seq().len()
                && (#[trigger] self.nodes_seq()[i]).id == (#[trigger] self.nodes_seq()[j]).id
                ==> i == j
    }

    pub fn new() -> (g: Graph)
        ensures
            g.wf(),
            g.nodes_seq() === Seq::<Node>::empty(),
            g.edges_seq() === Seq::<Edge>::empty(),
    {
        let g = Graph { nodes: Vec::new(), edges: Vec::new() };
        proof {
            assert(g.nodes@ =~= Seq::<Node>::empty());
            assert(g.edges@ =~= Seq::<Edge>::empty());
        }
        g
    }

    /// Inserts a node, replacing any node that already carries the same id.
    pub fn add_node(&mut self, node: Node)
        requires
            old(self).wf(),
        ensures
            final(self).wf(),
            final(self).edges_seq() == old(self).edges_seq(),
            old(self).has_node(node.id) ==> exists|i: int|
                0 <= i < old(self).nodes_seq().len() && (#[trigger] old(self).nodes_seq()[i]).id
                    == node.id && final(self).nodes_seq() == old(self).nodes_seq().update(i, node),
            !old(self).has_node(node.id) ==> final(self).nodes_seq() == old(self).nodes_seq().push(
                node,
            ),
    {
        let n = self.nodes.len();
        let mut i: usize = 0;
        while i < n
            invariant
                old(self).wf(),
                n == self.nodes@.len(),
                i <= n,
                forall|m: int| 0 <= m < i ==> (#[trigger] self.nodes@[m]).id != node.id,
                self == old(self),
            decreases n - i,
        {
            if self.nodes[i].id == node.id {
                proof {
                    assert(old(self).nodes_seq() == old(self).nodes@);
                    assert(old(self).nodes_seq()[i as int].id == node.id);
                    assert(old(self).has_node(node.id));
                }
                self.nodes[i] = node;
                proof {
                    let ns0 = old(self).nodes_seq();
                    let ns = self.nodes_seq();
                    assert(ns0 == old(self).nodes@);
                    assert(ns == self.nodes@);
                    assert(ns == ns0.update(i as int, node));
                    assert(node.id == ns0[i as int].id);
                    assert forall|m: int, l: int|
                        0 <= m < ns.len() && 0 <= l < ns.len() && (#[trigger] ns[m]).id == (
                        #[trigger] ns[l]).id implies m == l by {
                        assert(ns[m].id == ns0[m].id);
                        assert(ns[l].id == ns0[l].id);
                    }
                }
                return ;
            }
            i += 1;
        }
        proof {
            assert(old(self).nodes_seq() == old(self).nodes@);
            assert(!old(self).has_node(node.id));
        }
        self.nodes.push(node);
        proof {
            let ns0 = old(self).nodes_seq();
            let ns = self.nodes_seq();
            assert(ns0 == old(self).nodes@);
            assert(ns == self.nodes@);
            assert(ns == ns0.push(node));
            assert forall|m: int, l: int|
                0 <= m < ns.len() && 0 <= l < ns.len() && (#[trigger] ns[m]).id == (
                #[trigger] ns[l]).id implies m == l by {
                if m < ns0.len() && l < ns0.len() {
                    assert(ns[m] == ns0[m]);
                    assert(ns[l] == ns0[l]);
                } else if m < ns0.len() {
                    assert(ns0[m].id != node.id);
                } else if l < ns0.len() {
                    assert(ns0[l].id != node.id);
                }
            }
        }
    }

    /// Looks up whether a node with this id exists.
    pub fn contains_node(&self, id: i32) -> (r: bool)
        ensures
            r == self.has_node(id),
    {
        let n = self.nodes.len();
        let mut i: usize = 0;
        while i < n
            invariant
                n == self.nodes@.len(),
                i <= n,
                forall|m: int| 0 <= m < i ==> (#[trigger] self.nodes@[m]).id != id,
            decreases n - i,
        {
            if self.nodes[i].id == id {
                proof {
                    assert(self.nodes_seq() == self.nodes@);
                    assert(self.nodes_seq()[i as int].id == id);
                    assert(self.has_node(id));
                }
                return true;
            }
            i += 1;
        }
        false
    }

    /// Inserts one undirected road segment: the entry itself and its
    /// synthesized reverse. Callers supply each segment once; a negative
    /// weight is rejected, since the search depends on non-negative weights.
    pub fn add_edge(&mut self, edge: Edge) -> (r: Result<(), DispatchError>)
        requires
            old(self).wf(),
        ensures
            final(self).wf(),
            final(self).nodes_seq() == old(self).nodes_seq(),
            edge.weight >= 0 ==> r == Ok::<(), DispatchError>(()) && final(self).edges_seq()
                == old(self).edges_seq().push(edge).push(reverse_edge(edge)),
            edge.weight < 0 ==> r == Err::<(), DispatchError>(DispatchError::ValidationFailed)
                && *final(self) == *old(self),
    {
        if edge.weight < 0 {
            return Err(DispatchError::ValidationFailed);
        }
        let rev = Edge { node_a_id: edge.node_b_id, node_b_id: edge.node_a_id, weight: edge.weight };
        self.edges.push(edge);
        self.edges.push(rev);
        proof {
            let es0 = old(self).edges_seq();
            let es = self.edges_seq();
            assert(es0 == old(self).edges@);
            assert(es == self.edges@);
            assert(es == es0.push(edge).push(reverse_edge(edge)));
            assert(self.nodes_seq() == old(self).nodes_seq());
            assert forall|i: int| 0 <= i < es.len() implies (#[trigger] es[i]).weight >= 0 by {
                if i < es0.len() {
                    assert(es[i] == es0[i]);
                }
            }
            assert forall|i: int| 0 <= i < es.len() implies #[trigger] has_reverse(es, i) by {
                if i < es0.len() {
                    assert(has_reverse(es0, i));
                    let j = choose|j: int|
                        0 <= j < es0.len() && es0[j] == reverse_edge(es0[i]);
                    assert(es[j] == reverse_edge(es[i]));
                } else if i == es0.len() {
                    assert(es[i + 1] == reverse_edge(es[i]));
                } else {
                    assert(es[i] == reverse_edge(edge));
                    assert(reverse_edge(es[i]) == edge);
                    assert(es[i - 1] == reverse_edge(es[i]));
                }
            }
        }
        Ok(())
    }

    /// Reads one entry of a relaxation table: the distance recorded for
    /// `target` after `k` rounds, the sentinel when `target` has no entry.
    fn lookup_round(
        &self,
        ids: &Vec<i32>,
        dist: &Vec<i64>,
        src: i32,
        target: i32,
        k: Ghost<nat>,
    ) -> (d: i64)
        requires
            self.wf(),
            ids@.len() == dist@.len(),
            ids@.len() >= 1,
            ids@[0] == src,
            forall|i: int|
                0 <= i < self.edges_seq().len() ==> exists|j: int|
                    0 <= j < ids@.len() && ids@[j] == (#[trigger] self.edges_seq()[i]).node_b_id,
            forall|m: int|
                0 <= m < ids@.len() ==> dist@[m] == dist_after_rounds(
                    self.edges_seq(),
                    src,
                    #[trigger] ids@[m],
                    k@,
                ),
        ensures
            d == dist_after_rounds(self.edges_seq(), src, target, k@),
    {
        let n = ids.len();
        let mut j: usize = 0;
        while j < n
            invariant
                n == ids@.len(),
                ids@.len() == dist@.len(),
                j <= n,
                forall|m: int| 0 <= m < j ==> #[trigger] ids@[m] != target,
                forall|m: int|
                    0 <= m < ids@.len() ==> dist@[m] == dist_after_rounds(
                        self.edges_seq(),
                        src,
                        #[trigger] ids@[m],
                        k@,
                    ),
            decreases n - j,
        {
            if ids[j] == target {
                return dist[j];
            }
            j += 1;
        }
        proof {
            assert(ids@[0] != target);
            assert forall|i: int|
                0 <= i < self.edges_seq().len() implies (
            #[trigger] self.edges_seq()[i]).node_b_id != target by {
                let jj = choose|jj: int|
                    0 <= jj < ids@.len() && ids@[jj] == self.edges_seq()[i].node_b_id;
                assert(ids@[jj] != target);
            }
            lemma_unlisted_inf(self.edges_seq(), src, target, k@);
        }
        UNREACHABLE_DISTANCE
    }

    /// Runs the relaxation rounds from `src` over the whole adjacency list
    /// and returns the node ids with their final distances.
    fn distance_table(&self, src: i32) -> (out: (Vec<i32>, Vec<i64>))
        requires
            self.wf(),
            2 * self.edges_seq().len() + 1 <= usize::MAX,
        ensures
            out.0@.len() == out.1@.len(),
            out.0@.len() >= 1,
            out.0@[0] == src,
            forall|i: int|
                0 <= i < self.edges_seq().len() ==> exists|j: int|
                    0 <= j < out.0@.len() && out.0@[j] == (
                    #[trigger] self.edges_seq()[i]).node_b_id,
            forall|m: int|
                0 <= m < out.0@.len() ==> out.1@[m] == dist_after_rounds(
                    self.edges_seq(),
                    src,
                    #[trigger] out.0@[m],
                    spec_rounds(self.edges_seq()),
                ),
    {
        let ghost es = self.edges_seq();
        proof {
            assert(es == self.edges@);
        }
        let ecount = self.edges.len();
        let rounds = 2 * ecount + 1;
        let mut ids: Vec<i32> = Vec::new();
        ids.push(src);
        let mut i: usize = 0;
        while i < ecount
            invariant
                es == self.edges@,
                ecount == es.len(),
                i <= ecount,
                ids@.len() == 1 + 2 * i,
                ids@[0] == src,
                forall|m: int|
                    0 <= m < i ==> ids@[1 + 2 * m] == (#[trigger] es[m]).node_a_id && ids@[2 + 2
                        * m] == es[m].node_b_id,
            decreases ecount - i,
        {
            let e = self.edges[i];
            ids.push(e.node_a_id);
            ids.push(e.node_b_id);
            i += 1;
        }
        proof {
            assert forall|ii: int|
                0 <= ii < es.len() implies exists|j: int|
                0 <= j < ids@.len() && ids@[j] == (#[trigger] es[ii]).node_b_id by {
                assert(ids@[2 + 2 * ii] == es[ii].node_b_id);
            }
        }
        let total = ids.len();
        let mut dist: Vec<i64> = Vec::new();
        let mut j: usize = 0;
        while j < total
            invariant
                total == ids@.len(),
                j <= total,
                dist@.len() == j,
                forall|m: int|
                    0 <= m < j ==> dist@[m] == dist_after_rounds(es, src, #[trigger] ids@[m], 0),
            decreases total - j,
        {
            if ids[j] == src {
                dist.push(0);
            } else {
                dist.push(UNREACHABLE_DISTANCE);
            }
            j += 1;
        }
        let mut k: usize = 0;
        while k < rounds
            invariant
                self.wf(),
                es == self.edges@,
                es == self.edges_seq(),
                ecount == es.len(),
                rounds == 2 * ecount + 1,
                k <= rounds,
                total == ids@.len(),
                total == dist@.len(),
                total >= 1,
                ids@[0] == src,
                forall|ii: int|
                    0 <= ii < es.len() ==> exists|j: int|
                        0 <= j < ids@.len() && ids@[j] == (#[trigger] es[ii]).node_b_id,
                forall|m: int|
                    0 <= m < total ==> dist@[m] == dist_after_rounds(
                        es,
                        src,
                        #[trigger] ids@[m],
                        k as nat,
                    ),
            decreases rounds - k,
        {
            let mut new_dist: Vec<i64> = Vec::new();
            let mut j: usize = 0;
            while j < total
                invariant
                    self.wf(),
                    es == self.edges@,
                    es == self.edges_seq(),
                    ecount == es.len(),
                    k < rounds,
                    total == ids@.len(),
                    total == dist@.len(),
                    total >= 1,
                    ids@[0] == src,
                    j <= total,
                    new_dist@.len() == j,
                    forall|ii: int|
                        0 <= ii < es.len() ==> exists|jj: int|
                            0 <= jj < ids@.len() && ids@[jj] == (#[trigger] es[ii]).node_b_id,
                    forall|m: int|
                        0 <= m < total ==> dist@[m] == dist_after_rounds(
                            es,
                            src,
                            #[trigger] ids@[m],
                            k as nat,
                        ),
                    forall|m: int|
                        0 <= m < j ==> new_dist@[m] == dist_after_rounds(
                            es,
                            src,
                            #[trigger] ids@[m],
                            (k + 1) as nat,
                        ),
                decreases total - j,
            {
                let dst_id = ids[j];
                let mut best: i64 = dist[j];
                proof {
                    lemma_dist_range(es, src, dst_id, k as nat);
                    assert(best_relax(es, src, dst_id, k as nat, 0) == UNREACHABLE_DISTANCE as int);
                }
                let mut n: usize = 0;
                while n < ecount
                    invariant
                        self.wf(),
                        es == self.edges@,
                        es == self.edges_seq(),
                        ecount == es.len(),
                        total == ids@.len(),
                        total == dist@.len(),
                        total >= 1,
                        ids@[0] == src,
                        n <= ecount,
                        0 <= best <= UNREACHABLE_DISTANCE,
                        best == min_int(
                            dist_after_rounds(es, src, dst_id, k as nat),
                            best_relax(es, src, dst_id, k as nat, n as nat),
                        ),
                        forall|ii: int|
                            0 <= ii < es.len() ==> exists|jj: int|
                                0 <= jj < ids@.len() && ids@[jj] == (#[trigger] es[ii]).node_b_id,
                        forall|m: int|
                            0 <= m < total ==> dist@[m] == dist_after_rounds(
                                es,
                                src,
                                #[trigger] ids@[m],
                                k as nat,
                            ),
                    decreases ecount - n,
                {
                    let e = self.edges[n];
                    proof {
                        assert(es[n as int].weight >= 0);
                        lemma_best_range(es, src, dst_id, k as nat, (n + 1) as nat);
                    }
                    if e.node_b_id == dst_id {
                        let da = self.lookup_round(&ids, &dist, src, e.node_a_id, Ghost(k as nat));
                        proof {
                            lemma_dist_range(es, src, e.node_a_id, k as nat);
                        }
                        let cand = clamp_add(da, e.weight as i64);
                        if cand < best {
                            best = cand;
                        }
                    }
                    n += 1;
                }
                proof {
                    assert(dist_after_rounds(es, src, dst_id, (k + 1) as nat) == min_int(
                        dist_after_rounds(es, src, dst_id, k as nat),
                        best_relax(es, src, dst_id, k as nat, es.len()),
                    ));
                }
                new_dist.push(best);
                j += 1;
            }
            dist = new_dist;
            k += 1;
        }
        (ids, dist)
    }

    /// Minimal clamped sum of edge weights on any path from `from` to `to`;
    /// `UNREACHABLE_DISTANCE` when no path exists. A query from a node to
    /// itself yields zero: no path weighs less than the result, and any
    /// result below the sentinel is the weight of an actual path.
    pub fn shortest_distance(&self, from: i32, to: i32) -> (d: i64)
        requires
            self.wf(),
            2 * self.edges_seq().len() + 1 <= usize::MAX,
        ensures
            d == spec_distance(self.edges_seq(), from, to),
            0 <= d <= UNREACHABLE_DISTANCE,
            from == to ==> d == 0,
            forall|p: Seq<int>|
                #[trigger] valid_path(self.edges_seq(), p, from, to) ==> d as int <= path_weight(
                    self.edges_seq(),
                    p,
                ),
            d < UNREACHABLE_DISTANCE ==> exists|p: Seq<int>|
                valid_path(self.edges_seq(), p, from, to) && path_weight(self.edges_seq(), p)
                    == d as int,
    {
        proof {
            let es = self.edges_seq();
            lemma_dist_range(es, from, to, spec_rounds(es));
            if from == to {
                lemma_distance_self(es, from);
            }
            assert forall|p: Seq<int>| #[trigger] valid_path(es, p, from, to) implies spec_distance(
                es,
                from,
                to,
            ) <= path_weight(es, p) by {
                lemma_distance_le_any_path(es, p, from, to);
            }
            if spec_distance(es, from, to) < UNREACHABLE_DISTANCE as int {
                lemma_distance_achieved(es, from, to, spec_rounds(es));
            }
        }
        let (ids, dist) = self.distance_table(from);
        self.lookup_round(&ids, &dist, from, to, Ghost(spec_rounds(self.edges_seq())))
    }

    /// Multi-target search bounded by `limit`: returns a goal whose distance
    /// from `from_node_id` is least among all goals and within the bound, or
    /// `None` when every goal lies farther than `limit`. An empty goal list
    /// yields `None` at once.
    pub fn find_closest_node(&self, from_node_id: i32, to_node_ids: Vec<i32>, limit: i32) -> (r:
        Option<i32>)
        requires
            self.wf(),
            2 * self.edges_seq().len() + 1 <= usize::MAX,
        ensures
            (match r {
                Option::Some(g) => (exists|i: int|
                    0 <= i < to_node_ids@.len() && to_node_ids@[i] == g) && spec_distance(
                    self.edges_seq(),
                    from_node_id,
                    g,
                ) <= limit as int && forall|i: int|
                    0 <= i < to_node_ids@.len() ==> spec_distance(
                        self.edges_seq(),
                        from_node_id,
                        g,
                    ) <= spec_distance(
                        self.edges_seq(),
                        from_node_id,
                        #[trigger] to_node_ids@[i],
                    ),
                Option::None => forall|i: int|
                    0 <= i < to_node_ids@.len() ==> spec_distance(
                        self.edges_seq(),
                        from_node_id,
                        #[trigger] to_node_ids@[i],
                    ) > limit as int,
            }),
    {
        let ghost es = self.edges_seq();
        let (ids, dist) = self.distance_table(from_node_id);
        let goal_count = to_node_ids.len();
        let mut found = false;
        let mut best_id: i32 = 0;
        let mut best_d: i64 = 0;
        let mut i: usize = 0;
        while i < goal_count
            invariant
                self.wf(),
                es == self.edges_seq(),
                goal_count == to_node_ids@.len(),
                i <= goal_count,
                ids@.len() == dist@.len(),
                ids@.len() >= 1,
                ids@[0] == from_node_id,
                forall|ii: int|
                    0 <= ii < es.len() ==> exists|jj: int|
                        0 <= jj < ids@.len() && ids@[jj] == (#[trigger] es[ii]).node_b_id,
                forall|m: int|
                    0 <= m < ids@.len() ==> dist@[m] == dist_after_rounds(
                        es,
                        from_node_id,
                        #[trigger] ids@[m],
                        spec_rounds(es),
                    ),
                !found ==> i == 0,
                found ==> exists|m: int| 0 <= m < i && to_node_ids@[m] == best_id,
                found ==> best_d == spec_distance(es, from_node_id, best_id),
                found ==> forall|m: int|
                    0 <= m < i ==> best_d <= spec_distance(
                        es,
                        from_node_id,
                        #[trigger] to_node_ids@[m],
                    ),
            decreases goal_count - i,
        {
            let g = to_node_ids[i];
            let dg = self.lookup_round(&ids, &dist, from_node_id, g, Ghost(spec_rounds(es)));
            if !found || dg < best_d {
                found = true;
                best_d = dg;
                best_id = g;
            }
            i += 1;
        }
        if found && best_d <= limit as i64 {
            Some(best_id)
        } else {
            None
        }
    }
}

} // verus!
