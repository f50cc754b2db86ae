//! The damped, seed-biased random-walk solver.
//!
//! Each iteration propagates 9/10 of every vertex's score along its outgoing
//! edges (fixed damping factor 0.90); the remaining tenth, the mass of
//! dangling vertices, the shares of external edges, and the rounding
//! remainders all flow into a teleport pool, which is split over the trusted
//! seed set in proportion to seed weight. All arithmetic is exact fixed-point
//! integer arithmetic, so total mass is conserved to within one rounding unit
//! per seed. That conservation is proved on the iteration itself, so no
//! runtime mass check is needed.

use vstd::prelude::*;
use vstd::string::*;
use vstd::arithmetic::div_mod::{
    lemma_fundamental_div_mod, lemma_div_is_ordered, lemma_div_multiples_vanish,
    lemma_div_pos_is_pos,
};
use vstd::arithmetic::mul::{lemma_mul_is_distributive_add, lemma_mul_is_commutative,
    lemma_mul_nonnegative};

use crate::compact::{Edge, OptimizedGraph};
use crate::fixed::{sum64, lemma_sum64_push, lemma_sum64_update, lemma_sum64_take_succ,
    lemma_sum64_take_le, lemma_sum64_elem_le, lemma_sum64_nonneg, lemma_div_sum_bounds,
    lemma_mul_div_le, MAX_PAGES, MAX_MASS};
use crate::graph::{Node, sum_node_scores, scores_of, lemma_sum_node_scores_take_succ};

verus! {

/// The solver's one failure mode: a graph without a single trusted seed, so
/// the teleport pool has nowhere to go. A configuration error, not a data
/// shape.
#[derive(Debug, PartialEq, Eq, Structural)]
pub enum SolverError {
    NoTrustedSeeds,
}

/// Teleportation weight of a trusted node: its page count, five-fold for a
/// node first seen at crawl depth 0.
pub open spec fn seed_weight(n: Node) -> int {
    if n.best_depth == 0 {
        n.individual_pages * 5
    } else {
        n.individual_pages as int
    }
}

/// Total teleportation weight of the trusted nodes (crawl depth at most 1)
/// of `s`.
pub open spec fn trusted_weight_sum(s: Seq<Node>) -> int
    decreases s.len(),
{
    if s.len() == 0 {
        0
    } else {
        trusted_weight_sum(s.drop_last()) + if s.last().best_depth <= 1 {
            seed_weight(s.last())
        } else {
            0
        }
    }
}

pub proof fn lemma_tws_take_succ(s: Seq<Node>, i: int)
    requires
        0 <= i < s.len(),
    ensures
        trusted_weight_sum(s.take(i + 1)) == trusted_weight_sum(s.take(i))
            + if s[i].best_depth <= 1 { seed_weight(s[i]) } else { 0 },
{
    assert(s.take(i + 1).drop_last() =~= s.take(i));
    assert(s.take(i + 1).last() == s[i]);
}

/// With every page count positive, the trusted weight is zero exactly when
/// no vertex lies at crawl depth 0 or 1.
pub proof fn lemma_tws_zero(s: Seq<Node>)
    requires
        forall|i: int| 0 <= i < s.len() ==> (#[trigger] s[i]).individual_pages >= 1,
    ensures
        trusted_weight_sum(s) >= 0,
        (trusted_weight_sum(s) == 0) <==> (forall|i: int| 0 <= i < s.len()
            ==> (#[trigger] s[i]).best_depth > 1),
    decreases s.len(),
{
    if s.len() > 0 {
        assert(forall|i: int| 0 <= i < s.drop_last().len()
            ==> (#[trigger] s.drop_last()[i]) == s[i]);
        lemma_tws_zero(s.drop_last());
        if s.last().best_depth <= 1 {
            assert(seed_weight(s.last()) >= 1);
        }
        if trusted_weight_sum(s) == 0 {
            assert forall|i: int| 0 <= i < s.len()
                implies (#[trigger] s[i]).best_depth > 1 by {
                if i < s.len() - 1 {
                    assert(s.drop_last()[i] == s[i]);
                }
            }
        }
    }
}

/// Two node sequences with the same depths and page counts carry the same
/// trusted weight.
pub proof fn lemma_tws_eq(a: Seq<Node>, b: Seq<Node>)
    requires
        a.len() == b.len(),
        forall|i: int| 0 <= i < a.len() ==> (#[trigger] a[i]).best_depth
            == b[i].best_depth && a[i].individual_pages == b[i].individual_pages,
    ensures
        trusted_weight_sum(a) == trusted_weight_sum(b),
    decreases a.len(),
{
    if a.len() > 0 {
        assert(forall|i: int| 0 <= i < a.drop_last().len()
            ==> (#[trigger] a.drop_last()[i]) == a[i]);
        assert(forall|i: int| 0 <= i < b.drop_last().len()
            ==> (#[trigger] b.drop_last()[i]) == b[i]);
        lemma_tws_eq(a.drop_last(), b.drop_last());
        assert(a[a.len() - 1].best_depth == b[a.len() - 1].best_depth);
        assert(a[a.len() - 1].individual_pages == b[a.len() - 1].individual_pages);
    }
}

/// The weights of a seed list.
pub open spec fn weights_of(s: Seq<(usize, u64)>) -> Seq<u64> {
    s.map_values(|p: (usize, u64)| p.1)
}

/// Total weight of a seed list.
pub open spec fn sum_weights(s: Seq<(usize, u64)>) -> int {
    sum64(weights_of(s))
}

pub proof fn lemma_sum_weights_push(s: Seq<(usize, u64)>, x: (usize, u64))
    ensures
        sum_weights(s.push(x)) == sum_weights(s) + x.1,
{
    assert(weights_of(s.push(x)) =~= weights_of(s).push(x.1));
    lemma_sum64_push(weights_of(s), x.1);
}

pub proof fn lemma_sum_weights_take_succ(s: Seq<(usize, u64)>, i: int)
    requires
        0 <= i < s.len(),
    ensures
        sum_weights(s.take(i + 1)) == sum_weights(s.take(i)) + s[i].1,
{
    assert(weights_of(s.take(i + 1)) =~= weights_of(s).take(i + 1));
    assert(weights_of(s.take(i)) =~= weights_of(s).take(i));
    lemma_sum64_take_succ(weights_of(s), i);
}

pub proof fn lemma_sum_weights_take_full(s: Seq<(usize, u64)>)
    ensures
        sum_weights(s.take(s.len() as int)) == sum_weights(s),
{
    assert(s.take(s.len() as int) =~= s);
}

pub proof fn lemma_weight_le_sum(s: Seq<(usize, u64)>, i: int)
    requires
        0 <= i < s.len(),
    ensures
        s[i].1 <= sum_weights(s),
        sum_weights(s) >= 0,
{
    lemma_sum64_elem_le(weights_of(s), i);
    assert(weights_of(s)[i] == s[i].1);
    lemma_sum64_nonneg(weights_of(s));
}

/// Vertex `i` appears in the seed list.
pub open spec fn seed_listed(list: Seq<(usize, u64)>, i: int) -> bool {
    exists|k: int| 0 <= k < list.len() && (#[trigger] list[k]).0 == i
}

pub proof fn lemma_seed_listed_push(l: Seq<(usize, u64)>, x: (usize, u64), i: int)
    requires
        seed_listed(l, i),
    ensures
        seed_listed(l.push(x), i),
{
    let k = choose|k: int| 0 <= k < l.len() && (#[trigger] l[k]).0 == i;
    assert(l.push(x)[k] == l[k]);
    assert(0 <= k < l.push(x).len() && (l.push(x)[k]).0 == i);
}

/// The trusted seed list of the first `upto` vertices, in index order: each
/// vertex of crawl depth at most 1, paired with its teleportation weight.
pub open spec fn seeds_upto(nodes: Seq<Node>, upto: int) -> Seq<(usize, u64)>
    decreases upto,
{
    if upto <= 0 {
        Seq::empty()
    } else {
        let rest = seeds_upto(nodes, upto - 1);
        if nodes[upto - 1].best_depth <= 1 {
            rest.push((((upto - 1) as usize), (seed_weight(nodes[upto - 1]) as u64)))
        } else {
            rest
        }
    }
}

/// Collects the trusted seed set: every vertex observed at crawl depth at
/// most 1, in index order, with its teleportation weight, and the total
/// weight.
pub fn get_trusted_nodes_list(graph: &OptimizedGraph) -> (r: (Vec<(usize, u64)>, u64))
    requires
        graph.wf(),
        graph.nodes@.len() <= MAX_PAGES,
        forall|i: int| 0 <= i < graph.nodes@.len()
            ==> (#[trigger] graph.nodes@[i]).individual_pages <= MAX_PAGES,
    ensures
        r.1 as int == trusted_weight_sum(graph.nodes@),
        sum_weights(r.0@) == r.1 as int,
        forall|k: int| 0 <= k < r.0@.len() ==> {
            &&& (#[trigger] r.0@[k]).0 < graph.nodes@.len()
            &&& graph.nodes@[r.0@[k].0 as int].best_depth <= 1
            &&& r.0@[k].1 as int == seed_weight(graph.nodes@[r.0@[k].0 as int])
        },
        forall|k1: int, k2: int| 0 <= k1 < k2 < r.0@.len() ==> r.0@[k1].0 < r.0@[k2].0,
        forall|i: int| 0 <= i < graph.nodes@.len()
            && (#[trigger] graph.nodes@[i]).best_depth <= 1 ==> seed_listed(r.0@, i),
        r.0@ == seeds_upto(graph.nodes@, graph.nodes@.len() as int),
{
    let n = graph.nodes.len();
    let mut seeds: Vec<(usize, u64)> = Vec::new();
    let mut total: u64 = 0;
    let mut i: usize = 0;
    proof {
        assert(graph.nodes@.take(0) =~= Seq::<Node>::empty());
    }
    while i < n
        invariant
            graph.wf(),
            i <= n,
            n == graph.nodes@.len(),
            n <= MAX_PAGES,
            forall|k: int| 0 <= k < n
                ==> (#[trigger] graph.nodes@[k]).individual_pages <= MAX_PAGES,
            total as int == trusted_weight_sum(graph.nodes@.take(i as int)),
            total as int <= i * 5 * (MAX_PAGES as int),
            sum_weights(seeds@) == total as int,
            forall|k: int| 0 <= k < seeds@.len() ==> {
                &&& (#[trigger] seeds@[k]).0 < i
                &&& graph.nodes@[seeds@[k].0 as int].best_depth <= 1
                &&& seeds@[k].1 as int == seed_weight(graph.nodes@[seeds@[k].0 as int])
            },
            forall|k1: int, k2: int| 0 <= k1 < k2 < seeds@.len()
                ==> seeds@[k1].0 < seeds@[k2].0,
            forall|j: int| 0 <= j < i && (#[trigger] graph.nodes@[j]).best_depth <= 1
                ==> seed_listed(seeds@, j),
            seeds@ == seeds_upto(graph.nodes@, i as int),
        decreases n - i,
    {
        proof {
            lemma_tws_take_succ(graph.nodes@, i as int);
        }
        let node = &graph.nodes[i];
        if node.best_depth <= 1 {
            let w: u64 = if node.best_depth == 0 {
                node.individual_pages * 5
            } else {
                node.individual_pages
            };
            let entry = (i, w);
            proof {
                assert(w as int == seed_weight(graph.nodes@[i as int]));
                assert(entry == (((i as int) as usize),
                    (seed_weight(graph.nodes@[i as int]) as u64)));
                assert(seeds@.push(entry) == seeds_upto(graph.nodes@, i as int + 1));
                lemma_sum_weights_push(seeds@, entry);
                assert forall|j: int| 0 <= j < i + 1
                    && (#[trigger] graph.nodes@[j]).best_depth <= 1
                    implies seed_listed(seeds@.push(entry), j) by {
                    if j < i {
                        lemma_seed_listed_push(seeds@, entry, j);
                    } else {
                        assert(seeds@.push(entry)[seeds@.len() as int].0 == i);
                    }
                }
            }
            seeds.push(entry);
            total = total + w;
        } else {
            proof {
                assert forall|j: int| 0 <= j < i + 1
                    && (#[trigger] graph.nodes@[j]).best_depth <= 1
                    implies seed_listed(seeds@, j) by {
                }
            }
        }
        i += 1;
    }
    proof {
        assert(graph.nodes@.take(n as int) =~= graph.nodes@);
    }
    (seeds, total)
}


/// Integer views of a score vector.
pub open spec fn ints_of(s: Seq<u64>) -> Seq<int> {
    s.map_values(|x: u64| x as int)
}

/// The damped share of a score: nine tenths, rounded toward zero.
pub open spec fn damped_of(x: int) -> int {
    x * 9 / 10
}

/// Delivers `share` to the target of each of the first `upto` edges that
/// resolve to a vertex; external edges deliver nothing.
pub open spec fn add_shares(v: Seq<int>, edges: Seq<Edge>, share: int, upto: int) -> Seq<int>
    decreases upto,
{
    if upto <= 0 {
        v
    } else {
        let w = add_shares(v, edges, share, upto - 1);
        match edges[upto - 1] {
            Edge::Resolved(t) => if 0 <= t < w.len() {
                w.update(t as int, w[t as int] + share)
            } else {
                w
            },
            Edge::External => w,
        }
    }
}

pub proof fn lemma_add_shares_len(v: Seq<int>, edges: Seq<Edge>, share: int, upto: int)
    ensures
        add_shares(v, edges, share, upto).len() == v.len(),
    decreases upto,
{
    if upto > 0 {
        lemma_add_shares_len(v, edges, share, upto - 1);
    }
}

/// Number of external edges among the first `upto`.
pub open spec fn ext_count(edges: Seq<Edge>, upto: int) -> int
    decreases upto,
{
    if upto <= 0 {
        0
    } else {
        ext_count(edges, upto - 1) + match edges[upto - 1] {
            Edge::External => 1int,
            Edge::Resolved(t) => 0,
        }
    }
}

/// The next-score vector after the first `upto` vertices have spread their
/// damped mass along their edges; a dangling vertex spreads nothing.
pub open spec fn spread_upto(adj: Seq<Vec<Edge>>, cur: Seq<int>, acc: Seq<int>, upto: int) -> Seq<
    int,
>
    decreases upto,
{
    if upto <= 0 {
        acc
    } else {
        let prev = spread_upto(adj, cur, acc, upto - 1);
        let k = adj[upto - 1]@.len() as int;
        if k == 0 {
            prev
        } else {
            add_shares(prev, adj[upto - 1]@, damped_of(cur[upto - 1]) / k, k)
        }
    }
}

/// The teleport pool of the first `upto` vertices: the undamped tenth of
/// each score, the whole damped mass of dangling vertices, the shares of
/// external edges, and the remainder of each flooring division.
pub open spec fn pool_upto(adj: Seq<Vec<Edge>>, cur: Seq<int>, upto: int) -> int
    decreases upto,
{
    if upto <= 0 {
        0
    } else {
        let x = cur[upto - 1];
        let d = damped_of(x);
        let k = adj[upto - 1]@.len() as int;
        pool_upto(adj, cur, upto - 1) + (x - d) + if k == 0 {
            d
        } else {
            d % k + (d / k) * ext_count(adj[upto - 1]@, k)
        }
    }
}

/// Splits `pool` over the first `upto` seeds, each receiving its weight's
/// share `pool * weight / s`, rounded toward zero.
pub open spec fn teleport(v: Seq<int>, seeds: Seq<(usize, u64)>, pool: int, s: int, upto: int) -> Seq<
    int,
>
    decreases upto,
{
    if upto <= 0 {
        v
    } else {
        let w = teleport(v, seeds, pool, s, upto - 1);
        let idx = seeds[upto - 1].0 as int;
        if 0 <= idx < w.len() {
            w.update(idx, w[idx] + pool * (seeds[upto - 1].1 as int) / s)
        } else {
            w
        }
    }
}

pub proof fn lemma_teleport_len(v: Seq<int>, seeds: Seq<(usize, u64)>, pool: int, s: int, upto: int)
    ensures
        teleport(v, seeds, pool, s, upto).len() == v.len(),
    decreases upto,
{
    if upto > 0 {
        lemma_teleport_len(v, seeds, pool, s, upto - 1);
    }
}

/// One full iteration of the damped, seed-biased walk: every vertex spreads
/// nine tenths of its score equally over its edges, and the teleport pool is
/// split over the seeds by weight.
pub open spec fn iteration_spec(
    adj: Seq<Vec<Edge>>,
    cur: Seq<int>,
    seeds: Seq<(usize, u64)>,
    s: int,
) -> Seq<int> {
    let zeros = Seq::new(cur.len(), |q: int| 0int);
    teleport(
        spread_upto(adj, cur, zeros, cur.len() as int),
        seeds,
        pool_upto(adj, cur, cur.len() as int),
        s,
        seeds.len() as int,
    )
}

/// One iteration of the damped walk over `cur`, returning the next score
/// vector. Conservation is exact up to teleport rounding: the new total
/// never exceeds the old, and falls short of it by less than one fixed-point
/// unit per seed.
pub fn trustrank_iteration(
    graph: &OptimizedGraph,
    cur: &Vec<u64>,
    seeds: &Vec<(usize, u64)>,
    s_sum: u64,
) -> (next: Vec<u64>)
    requires
        graph.wf(),
        cur@.len() == graph.nodes@.len(),
        sum64(cur@) <= MAX_MASS,
        s_sum >= 1,
        sum_weights(seeds@) == s_sum as int,
        forall|k: int| 0 <= k < seeds@.len() ==> (#[trigger] seeds@[k]).0 < cur@.len(),
    ensures
        next@.len() == cur@.len(),
        sum64(next@) <= sum64(cur@),
        sum64(cur@) - sum64(next@) < seeds@.len(),
        ints_of(next@) == iteration_spec(graph.adj@, ints_of(cur@), seeds@, s_sum as int),
{
    let ghost adjs = graph.adj@;
    let ghost ic = ints_of(cur@);
    let ghost zeros = Seq::new(cur@.len(), |q: int| 0int);
    let n = cur.len();
    let mut next: Vec<u64> = Vec::new();
    let mut z: usize = 0;
    while z < n
        invariant
            z <= n,
            next@.len() == z,
            sum64(next@) == 0,
            forall|q: int| 0 <= q < z ==> (#[trigger] next@[q]) == 0u64,
        decreases n - z,
    {
        proof {
            lemma_sum64_push(next@, 0u64);
        }
        next.push(0u64);
        z += 1;
    }
    proof {
        assert(ints_of(next@) =~= zeros);
        assert(ic.len() == cur@.len());
    }
    let mut pool: u64 = 0;
    let mut i: usize = 0;
    proof {
        assert(cur@.take(0) =~= Seq::<u64>::empty());
        lemma_sum64_nonneg(cur@);
    }
    while i < n
        invariant
            graph.wf(),
            n == cur@.len(),
            n == graph.nodes@.len(),
            next@.len() == n,
            i <= n,
            sum64(cur@) <= MAX_MASS,
            sum64(next@) + pool == sum64(cur@.take(i as int)),
            adjs == graph.adj@,
            ic == ints_of(cur@),
            zeros == Seq::new(cur@.len(), |q: int| 0int),
            ints_of(next@) == spread_upto(adjs, ic, zeros, i as int),
            pool as int == pool_upto(adjs, ic, i as int),
        decreases n - i,
    {
        proof {
            lemma_sum64_take_succ(cur@, i as int);
            lemma_sum64_take_le(cur@, i as int + 1);
            lemma_sum64_take_le(cur@, i as int);
            lemma_sum64_elem_le(cur@, i as int);
            lemma_sum64_nonneg(next@);
            lemma_sum64_nonneg(cur@.take(i as int));
        }
        let x = cur[i];
        let damped = x * 9 / 10;
        proof {
            lemma_div_is_ordered((x as int) * 9, (x as int) * 10, 10);
            lemma_div_multiples_vanish(x as int, 10);
            lemma_mul_is_commutative(x as int, 10);
            assert(damped <= x);
        }
        let t = x - damped;
        proof {
            assert(ic[i as int] == x as int);
            assert(damped as int == damped_of(ic[i as int]));
        }
        let k = graph.adj[i].len();
        if k == 0 {
            pool = pool + x;
            proof {
                assert(spread_upto(adjs, ic, zeros, i as int + 1)
                    == spread_upto(adjs, ic, zeros, i as int));
                assert(pool_upto(adjs, ic, i as int + 1)
                    == pool_upto(adjs, ic, i as int) + ic[i as int]);
            }
        } else {
            let share = damped / (k as u64);
            let rem = damped % (k as u64);
            proof {
                lemma_fundamental_div_mod(damped as int, k as int);
                lemma_div_pos_is_pos(damped as int, k as int);
                lemma_mul_nonnegative(k as int, share as int);
                assert(rem <= damped);
            }
            let mut lost = rem;
            let mut e: usize = 0;
            let ghost nbase = sum64(next@);
            let ghost model_base = ints_of(next@);
            let ghost mut res: int = 0;
            let ghost mut ext: int = 0;
            while e < k
                invariant
                    graph.wf(),
                    n == graph.nodes@.len(),
                    n == cur@.len(),
                    next@.len() == n,
                    i < n,
                    e <= k,
                    k == graph.adj@[i as int].len(),
                    k >= 1,
                    damped == (k as int) * (share as int) + rem,
                    share >= 0,
                    rem >= 0,
                    damped <= cur@[i as int],
                    sum64(cur@) <= MAX_MASS,
                    nbase + pool == sum64(cur@.take(i as int)),
                    nbase >= 0,
                    pool >= 0,
                    sum64(cur@.take(i as int)) + cur@[i as int] <= sum64(cur@),
                    0 <= res,
                    0 <= ext,
                    res + ext == e,
                    sum64(next@) == nbase + (share as int) * res,
                    lost as int == rem + (share as int) * ext,
                    adjs == graph.adj@,
                    ic == ints_of(cur@),
                    model_base == spread_upto(adjs, ic, zeros, i as int),
                    model_base.len() == n,
                    damped as int == damped_of(ic[i as int]),
                    share as int == damped_of(ic[i as int]) / (k as int),
                    rem as int == damped_of(ic[i as int]) % (k as int),
                    ints_of(next@) == add_shares(model_base, adjs[i as int]@,
                        share as int, e as int),
                    ext == ext_count(adjs[i as int]@, e as int),
                decreases k - e,
            {
                proof {
                    assert((share as int) * res <= (share as int) * (k as int)
                        && (share as int) * ext <= (share as int) * (k as int)
                        && (share as int) * (k as int) == (k as int) * (share as int)
                        && share as int <= (k as int) * (share as int))
                        by (nonlinear_arith)
                        requires
                            0 <= res <= k,
                            0 <= ext <= k,
                            1 <= k,
                            share >= 0,
                    ;
                    assert(share <= damped);
                    assert(sum64(next@) <= nbase + damped);
                    assert(lost as int <= damped);
                }
                let edge = graph.adj[i][e];
                proof {
                    assert(adjs[i as int]@[e as int] == edge);
                    lemma_add_shares_len(model_base, adjs[i as int]@, share as int,
                        e as int);
                }
                match edge {
                    Edge::Resolved(tt) => {
                        proof {
                            lemma_sum64_elem_le(next@, tt as int);
                            lemma_sum64_nonneg(next@);
                            assert(next@[tt as int] + share <= 2 * MAX_MASS);
                        }
                        let old_val = next[tt];
                        let ghost prev = next@;
                        next.set(tt, old_val + share);
                        proof {
                            lemma_sum64_update(prev, tt as int, (old_val
                                + share) as u64);
                            res = res + 1;
                            assert((share as int) * res == (share as int) * (res - 1)
                                + share) by (nonlinear_arith);
                            assert(ints_of(next@) =~= ints_of(prev).update(tt as int,
                                old_val + share));
                            assert(ints_of(next@) == add_shares(model_base,
                                adjs[i as int]@, share as int, e as int + 1));
                        }
                    },
                    Edge::External => {
                        lost = lost + share;
                        proof {
                            ext = ext + 1;
                            assert((share as int) * ext == (share as int) * (ext - 1)
                                + share) by (nonlinear_arith);
                            assert(ints_of(next@) == add_shares(model_base,
                                adjs[i as int]@, share as int, e as int + 1));
                        }
                    },
                }
                e += 1;
            }
            proof {
                assert((share as int) * res + (share as int) * ext
                    == (share as int) * (res + ext)) by (nonlinear_arith);
                assert((share as int) * (k as int) == (k as int) * (share as int))
                    by (nonlinear_arith);
                assert(ints_of(next@) == spread_upto(adjs, ic, zeros, i as int + 1));
                assert((pool + t + lost) as int == pool_upto(adjs, ic, i as int + 1));
            }
            pool = pool + t + lost;
        }
        i += 1;
    }
    proof {
        assert(cur@.take(n as int) =~= cur@);
    }
    // Split the teleport pool over the seeds, each receiving
    // `pool * weight / s_sum`, rounded toward zero.
    let p = pool;
    let m = seeds.len();
    proof {
        if seeds@.len() == 0 {
            assert(weights_of(seeds@) =~= Seq::<u64>::empty());
        }
        assert(seeds@.take(0) =~= Seq::<(usize, u64)>::empty());
        assert(weights_of(seeds@.take(0)) =~= Seq::<u64>::empty());
    }
    let ghost base_sum = sum64(next@);
    let ghost spread_final = ints_of(next@);
    proof {
        lemma_sum64_nonneg(next@);
        lemma_sum64_nonneg(cur@);
    }
    let ghost mut added: int = 0;
    let mut si: usize = 0;
    while si < m
        invariant
            next@.len() == n,
            n == cur@.len(),
            si <= m,
            m == seeds@.len(),
            m >= 1,
            s_sum >= 1,
            sum_weights(seeds@) == s_sum as int,
            forall|k: int| 0 <= k < seeds@.len()
                ==> (#[trigger] seeds@[k]).0 < cur@.len(),
            base_sum + p == sum64(cur@),
            base_sum >= 0,
            sum64(cur@) <= MAX_MASS,
            adjs == graph.adj@,
            ic == ints_of(cur@),
            zeros == Seq::new(cur@.len(), |q: int| 0int),
            spread_final == spread_upto(adjs, ic, zeros, n as int),
            spread_final.len() == n,
            p as int == pool_upto(adjs, ic, n as int),
            ints_of(next@) == teleport(spread_final, seeds@, p as int, s_sum as int,
                si as int),
            sum64(next@) == base_sum + added,
            added >= 0,
            added <= (p as int) * sum_weights(seeds@.take(si as int)) / (s_sum as int),
            si >= 1 ==> added >= (p as int) * sum_weights(seeds@.take(si as int))
                / (s_sum as int) - (si - 1),
            si == 0 ==> added == 0,
            (p as int) * sum_weights(seeds@.take(si as int)) / (s_sum as int)
                <= p as int,
        decreases m - si,
    {
        let pair = seeds[si];
        let idx = pair.0;
        let w = pair.1;
        let ghost wpre = sum_weights(seeds@.take(si as int));
        proof {
            lemma_weight_le_sum(seeds@, si as int);
            lemma_sum_weights_take_succ(seeds@, si as int);
            assert(wpre >= 0) by {
                lemma_sum64_nonneg(weights_of(seeds@.take(si as int)));
            }
            assert(wpre + w <= s_sum) by {
                assert(weights_of(seeds@.take(si as int + 1))
                    =~= weights_of(seeds@).take(si as int + 1));
                lemma_sum64_take_le(weights_of(seeds@), si as int + 1);
            }
            lemma_mul_is_distributive_add(p as int, wpre, w as int);
            lemma_mul_nonnegative(p as int, wpre);
            lemma_mul_nonnegative(p as int, w as int);
            lemma_div_sum_bounds((p as int) * wpre, (p as int) * (w as int),
                s_sum as int);
            lemma_mul_div_le(p as int, w as int, s_sum as int);
            assert((p as int) * (wpre + w) <= (p as int) * (s_sum as int))
                by (nonlinear_arith)
                requires
                    p >= 0,
                    0 <= wpre + w <= s_sum,
            ;
            lemma_div_is_ordered((p as int) * (wpre + w),
                (p as int) * (s_sum as int), s_sum as int);
            lemma_div_multiples_vanish(p as int, s_sum as int);
            lemma_mul_is_commutative(p as int, s_sum as int);
        }
        proof {
            assert((p as int) * (w as int) < 0x100000000000000000000000000000000)
                by (nonlinear_arith)
                requires
                    0 <= p <= 0xffffffffffffffffu64,
                    0 <= w <= 0xffffffffffffffffu64,
            ;
        }
        let add = (((p as u128) * (w as u128)) / (s_sum as u128)) as u64;
        proof {
            assert(add as int == (p as int) * (w as int) / (s_sum as int));
            assert(add <= p);
        }
        proof {
            lemma_sum64_elem_le(next@, idx as int);
            lemma_sum64_nonneg(next@);
        }
        let old_val = next[idx];
        let ghost prev = next@;
        next.set(idx, old_val + add);
        proof {
            lemma_sum64_update(prev, idx as int, (old_val + add) as u64);
            added = added + (p as int) * (w as int) / (s_sum as int);
            lemma_teleport_len(spread_final, seeds@, p as int, s_sum as int, si as int);
            assert(seeds@[si as int] == pair);
            assert(ints_of(next@) =~= ints_of(prev).update(idx as int, old_val + add));
            assert(ints_of(next@) == teleport(spread_final, seeds@, p as int,
                s_sum as int, si as int + 1));
        }
        si += 1;
    }
    proof {
        lemma_sum_weights_take_full(seeds@);
        lemma_div_multiples_vanish(p as int, s_sum as int);
        lemma_mul_is_commutative(p as int, s_sum as int);
        assert((p as int) * (s_sum as int) / (s_sum as int) == p as int);
        assert(added >= p - (m - 1));
        assert(added <= p);
        assert(Seq::new(ic.len(), |q: int| 0int) =~= zeros);
        assert(ints_of(next@) == iteration_spec(graph.adj@, ints_of(cur@), seeds@,
            s_sum as int));
    }
    next
}

/// The absolute difference of two scores.
pub open spec fn abs_diff(x: u64, y: u64) -> int {
    if x >= y {
        x - y
    } else {
        y - x
    }
}

/// L1 distance between two score vectors.
pub open spec fn l1_dist(a: Seq<u64>, b: Seq<u64>) -> int
    decreases a.len(),
{
    if a.len() == 0 || b.len() == 0 {
        0
    } else {
        l1_dist(a.drop_last(), b.drop_last()) + abs_diff(a.last(), b.last())
    }
}

pub proof fn lemma_l1_take_succ(a: Seq<u64>, b: Seq<u64>, i: int)
    requires
        0 <= i < a.len(),
        a.len() == b.len(),
    ensures
        l1_dist(a.take(i + 1), b.take(i + 1)) == l1_dist(a.take(i), b.take(i))
            + abs_diff(a[i], b[i]),
{
    assert(a.take(i + 1).drop_last() =~= a.take(i));
    assert(b.take(i + 1).drop_last() =~= b.take(i));
    assert(a.take(i + 1).last() == a[i]);
    assert(b.take(i + 1).last() == b[i]);
}

/// L1 distance between two score vectors, the solver's convergence measure.
fn l1_diff(a: &Vec<u64>, b: &Vec<u64>) -> (r: u64)
    requires
        a@.len() == b@.len(),
        sum64(a@) <= MAX_MASS,
        sum64(b@) <= MAX_MASS,
    ensures
        r as int == l1_dist(a@, b@),
{
    let n = a.len();
    let mut r: u64 = 0;
    let mut i: usize = 0;
    proof {
        assert(a@.take(0) =~= Seq::<u64>::empty());
        assert(b@.take(0) =~= Seq::<u64>::empty());
    }
    while i < n
        invariant
            i <= n,
            n == a@.len(),
            n == b@.len(),
            sum64(a@) <= MAX_MASS,
            sum64(b@) <= MAX_MASS,
            r as int == l1_dist(a@.take(i as int), b@.take(i as int)),
            r as int <= sum64(a@.take(i as int)) + sum64(b@.take(i as int)),
        decreases n - i,
    {
        proof {
            lemma_l1_take_succ(a@, b@, i as int);
            lemma_sum64_take_succ(a@, i as int);
            lemma_sum64_take_succ(b@, i as int);
            lemma_sum64_take_le(a@, i as int + 1);
            lemma_sum64_take_le(b@, i as int + 1);
        }
        let av = a[i];
        let bv = b[i];
        if av >= bv {
            r = r + (av - bv);
        } else {
            r = r + (bv - av);
        }
        i += 1;
    }
    proof {
        assert(a@.take(n as int) =~= a@);
        assert(b@.take(n as int) =~= b@);
    }
    r
}

/// L1 distance between two integer vectors.
pub open spec fn l1_int(a: Seq<int>, b: Seq<int>) -> int
    decreases a.len(),
{
    if a.len() == 0 || b.len() == 0 {
        0
    } else {
        l1_int(a.drop_last(), b.drop_last()) + if a.last() >= b.last() {
            a.last() - b.last()
        } else {
            b.last() - a.last()
        }
    }
}

pub proof fn lemma_l1_int_eq(a: Seq<u64>, b: Seq<u64>)
    ensures
        l1_int(ints_of(a), ints_of(b)) == l1_dist(a, b),
    decreases a.len(),
{
    if a.len() > 0 && b.len() > 0 {
        assert(ints_of(a).drop_last() =~= ints_of(a.drop_last()));
        assert(ints_of(b).drop_last() =~= ints_of(b.drop_last()));
        lemma_l1_int_eq(a.drop_last(), b.drop_last());
    }
}

/// The score vector the solver adopts: starting from `cur`, iterate at most
/// `fuel` times, stopping after the first iteration whose L1 step falls
/// below `tol`.
pub open spec fn run_solver(
    adj: Seq<Vec<Edge>>,
    seeds: Seq<(usize, u64)>,
    s: int,
    cur: Seq<int>,
    tol: int,
    fuel: nat,
) -> Seq<int>
    decreases fuel,
{
    if fuel == 0 {
        cur
    } else {
        let next = iteration_spec(adj, cur, seeds, s);
        if l1_int(next, cur) < tol {
            next
        } else {
            run_solver(adj, seeds, s, next, tol, (fuel - 1) as nat)
        }
    }
}

/// A map from canonical key to final score, keys in vertex-index order.
pub struct ScoreMap {
    pub keys: Vec<String>,
    pub vals: Vec<u64>,
}

impl ScoreMap {
    /// Keys are unique and aligned with the values.
    pub open spec fn wf(self) -> bool {
        &&& self.keys@.len() == self.vals@.len()
        &&& forall|i: int, j: int| 0 <= i < j < self.keys@.len()
            ==> self.keys@[i]@ != self.keys@[j]@
    }

    pub open spec fn contains_key(self, k: Seq<char>) -> bool {
        exists|i: int| 0 <= i < self.keys@.len() && (#[trigger] self.keys@[i])@ == k
    }

    /// The index of key `k`; meaningful only when `contains_key(k)`.
    pub open spec fn key_index_spec(self, k: Seq<char>) -> int {
        choose|i: int| 0 <= i < self.keys@.len() && (#[trigger] self.keys@[i])@ == k
    }

    /// The score stored under key `k`; meaningful only when
    /// `contains_key(k)`.
    pub open spec fn score_of(self, k: Seq<char>) -> u64 {
        self.vals@[self.key_index_spec(k)]
    }

    /// In a well-formed map, the index of the `i`th key is `i`.
    pub proof fn lemma_key_index_of(self, i: int)
        requires
            self.wf(),
            0 <= i < self.keys@.len(),
        ensures
            self.contains_key(self.keys@[i]@),
            self.key_index_spec(self.keys@[i]@) == i,
    {
        assert(self.contains_key(self.keys@[i]@)) by {
            assert(self.keys@[i]@ == self.keys@[i]@);
        }
        let j = self.key_index_spec(self.keys@[i]@);
        if i < j {
            assert(self.keys@[i]@ != self.keys@[j]@);
        }
        if j < i {
            assert(self.keys@[j]@ != self.keys@[i]@);
        }
    }

    pub fn len(&self) -> (r: usize)
        ensures
            r == self.keys@.len(),
    {
        self.keys.len()
    }

    /// Looks a score up by its key.
    pub fn get(&self, k: &str) -> (r: Option<u64>)
        requires
            self.wf(),
        ensures
            match r {
                Some(v) => self.contains_key(k@) && v == self.score_of(k@),
                None => !self.contains_key(k@),
            },
    {
        let n = self.keys.len();
        let mut i: usize = 0;
        while i < n
            invariant
                self.wf(),
                i <= n,
                n == self.keys@.len(),
                forall|j: int| 0 <= j < i ==> (#[trigger] self.keys@[j])@ != k@,
            decreases n - i,
        {
            if crate::url::str_eq(self.keys[i].as_str(), k) {
                proof {
                    self.lemma_key_index_of(i as int);
                }
                return Some(self.vals[i]);
            }
            i += 1;
        }
        None
    }
}

/// Runs the damped power iteration to convergence or the iteration budget,
/// whichever comes first; the loop is bounded by `max_iterations`, so the
/// solver always terminates. The result maps every canonical key of the
/// graph, in vertex order, to its final score. The one error is a graph with
/// no trusted seed at all (total seed weight zero).
pub fn trustrank(graph: &OptimizedGraph, max_iterations: u32, tolerance: u64) -> (r: Result<
    ScoreMap,
    SolverError,
>)
    requires
        graph.wf(),
        graph.nodes@.len() <= MAX_PAGES,
        forall|i: int| 0 <= i < graph.nodes@.len()
            ==> (#[trigger] graph.nodes@[i]).individual_pages <= MAX_PAGES,
        sum_node_scores(graph.nodes@) <= MAX_MASS,
    ensures
        match r {
            Ok(m) => {
                &&& m.wf()
                &&& m.keys@.len() == graph.urls@.len()
                &&& forall|i: int| 0 <= i < graph.urls@.len()
                    ==> (#[trigger] m.keys@[i])@ == graph.urls@[i]@
                &&& sum64(m.vals@) <= sum_node_scores(graph.nodes@)
                &&& forall|i: int| 0 <= i < m.vals@.len()
                    ==> (#[trigger] m.vals@[i]) <= MAX_MASS
                &&& trusted_weight_sum(graph.nodes@) >= 1
                &&& ints_of(m.vals@) == run_solver(graph.adj@,
                    seeds_upto(graph.nodes@, graph.nodes@.len() as int),
                    trusted_weight_sum(graph.nodes@),
                    ints_of(scores_of(graph.nodes@)), tolerance as int,
                    max_iterations as nat)
            },
            Err(e) => e == SolverError::NoTrustedSeeds
                && trusted_weight_sum(graph.nodes@) == 0,
        },
{
    let (seeds, s_sum) = get_trusted_nodes_list(graph);
    if s_sum == 0 {
        return Err(SolverError::NoTrustedSeeds);
    }
    let n = graph.nodes.len();
    let mut cur: Vec<u64> = Vec::new();
    let mut i: usize = 0;
    proof {
        assert(graph.nodes@.take(0) =~= Seq::<Node>::empty());
        assert(scores_of(graph.nodes@.take(0)) =~= Seq::<u64>::empty());
    }
    while i < n
        invariant
            graph.wf(),
            i <= n,
            n == graph.nodes@.len(),
            cur@.len() == i,
            sum64(cur@) == sum_node_scores(graph.nodes@.take(i as int)),
            cur@ == scores_of(graph.nodes@).take(i as int),
        decreases n - i,
    {
        proof {
            lemma_sum_node_scores_take_succ(graph.nodes@, i as int);
            lemma_sum64_push(cur@, graph.nodes@[i as int].score);
            assert(cur@.push(graph.nodes@[i as int].score)
                =~= scores_of(graph.nodes@).take(i as int + 1));
        }
        cur.push(graph.nodes[i].score);
        i += 1;
    }
    proof {
        assert(graph.nodes@.take(n as int) =~= graph.nodes@);
        assert(scores_of(graph.nodes@).take(n as int) =~= scores_of(graph.nodes@));
    }
    let ghost initial_mass = sum64(cur@);
    let ghost adjs = graph.adj@;
    let ghost sspec = seeds@;
    let ghost init_ints = ints_of(cur@);
    let ghost swt = s_sum as int;
    let ghost tol = tolerance as int;
    let mut it: u32 = 0;
    let mut done = false;
    while it < max_iterations && !done
        invariant
            graph.wf(),
            n == graph.nodes@.len(),
            cur@.len() == n,
            s_sum >= 1,
            sum_weights(seeds@) == s_sum as int,
            forall|k: int| 0 <= k < seeds@.len() ==> (#[trigger] seeds@[k]).0 < n,
            sum64(cur@) <= initial_mass,
            initial_mass == sum_node_scores(graph.nodes@),
            initial_mass <= MAX_MASS,
            it <= max_iterations,
            adjs == graph.adj@,
            sspec == seeds@,
            swt == s_sum as int,
            tol == tolerance as int,
            init_ints == ints_of(scores_of(graph.nodes@)),
            done ==> ints_of(cur@) == run_solver(adjs, sspec, swt, init_ints, tol,
                max_iterations as nat),
            !done ==> run_solver(adjs, sspec, swt, init_ints, tol,
                max_iterations as nat) == run_solver(adjs, sspec, swt, ints_of(cur@),
                tol, (max_iterations - it) as nat),
        decreases max_iterations - it,
    {
        let next = trustrank_iteration(graph, &cur, &seeds, s_sum);
        let diff = l1_diff(&next, &cur);
        proof {
            lemma_l1_int_eq(next@, cur@);
            assert((max_iterations - it) as nat != 0);
            assert(run_solver(adjs, sspec, swt, ints_of(cur@), tol,
                (max_iterations - it) as nat) == if l1_int(ints_of(next@),
                ints_of(cur@)) < tol {
                ints_of(next@)
            } else {
                run_solver(adjs, sspec, swt, ints_of(next@), tol,
                    (max_iterations - it - 1) as nat)
            });
        }
        cur = next;
        it += 1;
        if diff < tolerance {
            done = true;
        }
    }
    proof {
        if !done {
            assert(it == max_iterations);
            assert(run_solver(adjs, sspec, swt, ints_of(cur@), tol, 0nat)
                == ints_of(cur@));
        }
    }
    let mut keys: Vec<String> = Vec::new();
    let mut j: usize = 0;
    while j < n
        invariant
            graph.wf(),
            j <= n,
            n == graph.urls@.len(),
            keys@.len() == j,
            forall|k: int| 0 <= k < j ==> (#[trigger] keys@[k])@ == graph.urls@[k]@,
        decreases n - j,
    {
        keys.push(graph.urls[j].clone());
        j += 1;
    }
    let m = ScoreMap { keys, vals: cur };
    proof {
        assert forall|i2: int| 0 <= i2 < m.vals@.len()
            implies (#[trigger] m.vals@[i2]) <= MAX_MASS by {
            lemma_sum64_elem_le(m.vals@, i2);
        }
    }
    Ok(m)
}


pub proof fn lemma_ints_of_injective(a: Seq<u64>, b: Seq<u64>)
    requires
        ints_of(a) == ints_of(b),
    ensures
        a == b,
{
    assert(a.len() == b.len()) by {
        assert(ints_of(a).len() == a.len());
        assert(ints_of(b).len() == b.len());
    }
    assert forall|i: int| 0 <= i < a.len() implies #[trigger] a[i] == b[i] by {
        assert(ints_of(a)[i] == a[i] as int);
        assert(ints_of(b)[i] == b[i] as int);
    }
    assert(a =~= b);
}

/// Law: the solver is deterministic. Any two score mappings that meet
/// `trustrank`'s success contract for one graph and one set of parameters
/// are equal, key for key and score for score.
pub proof fn lemma_trustrank_deterministic(
    graph: OptimizedGraph,
    max_iterations: u32,
    tolerance: u64,
    m1: ScoreMap,
    m2: ScoreMap,
)
    requires
        m1.keys@.len() == graph.urls@.len(),
        m2.keys@.len() == graph.urls@.len(),
        forall|i: int| 0 <= i < graph.urls@.len()
            ==> (#[trigger] m1.keys@[i])@ == graph.urls@[i]@,
        forall|i: int| 0 <= i < graph.urls@.len()
            ==> (#[trigger] m2.keys@[i])@ == graph.urls@[i]@,
        ints_of(m1.vals@) == run_solver(graph.adj@, seeds_upto(graph.nodes@,
            graph.nodes@.len() as int), trusted_weight_sum(graph.nodes@),
            ints_of(scores_of(graph.nodes@)), tolerance as int, max_iterations as nat),
        ints_of(m2.vals@) == run_solver(graph.adj@, seeds_upto(graph.nodes@,
            graph.nodes@.len() as int), trusted_weight_sum(graph.nodes@),
            ints_of(scores_of(graph.nodes@)), tolerance as int, max_iterations as nat),
    ensures
        m1.vals@ == m2.vals@,
        forall|i: int| 0 <= i < graph.urls@.len()
            ==> (#[trigger] m1.keys@[i])@ == m2.keys@[i]@,
{
    lemma_ints_of_injective(m1.vals@, m2.vals@);
}

} // verus!
