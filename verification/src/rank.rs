//! Combination of domain and page scores, and the final ranking.
//!
//! A page's combined score is the fourth root of its domain's normalized
//! (per-page) score times the page score plus one: domain authority dominates
//! sub-linearly, while page-level scores still separate pages on one domain.

use vstd::prelude::*;
use vstd::string::*;
use vstd::arithmetic::div_mod::{lemma_div_nonincreasing, lemma_multiply_divide_lt};
use vstd::seq_lib::lemma_multiset_commutative;

use crate::compact::OptimizedGraph;
use crate::fixed::{fourth_root, root4_of, MAX_MASS, MAX_ROOT4_INPUT, SCALE};
use crate::graph::NodeMap;
use crate::solver::ScoreMap;
use crate::url::{domain_spec, url_to_domain};

verus! {

broadcast use {vstd::seq_lib::group_to_multiset_ensures, vstd::multiset::group_multiset_axioms};

/// The ranking stage's failure modes. Both mark a contract violation between
/// the two graphs — the page and domain graphs must come from one record set
/// — never an expected data shape.
#[derive(Debug, PartialEq, Eq, Structural)]
pub enum RankError {
    DomainMissing,
    PageMissing,
}

/// The combined score of a page: the fourth root of its domain's normalized
/// score, times the page score plus one, in fixed point.
pub open spec fn combined_score(d: u64, p: u64) -> int {
    root4_of((d as int) * (SCALE as int) * (SCALE as int) * (SCALE as int)) * (p as int
        + SCALE as int) / (SCALE as int)
}

/// Fixed-point combination `d^(1/4) * (p + 1.0)`.
pub fn combine_pair(d: u64, p: u64) -> (r: u64)
    requires
        d <= MAX_MASS,
        p <= MAX_MASS,
    ensures
        r as int == combined_score(d, p),
{
    proof {
        assert((d as int) * 1_000_000_000_000_000_000 < MAX_ROOT4_INPUT) by (nonlinear_arith)
            requires
                0 <= d <= MAX_MASS,
        ;
    }
    let x: u128 = (d as u128) * 1_000_000_000_000_000_000u128;
    let root = fourth_root(x);
    proof {
        assert((root as int) * ((p as int) + (SCALE as int)) < 0x100000000000000 * (
        SCALE as int)) by (nonlinear_arith)
            requires
                0 <= root < 0x4000000,
                0 <= p <= MAX_MASS,
        ;
        lemma_multiply_divide_lt((root as int) * ((p as int) + (SCALE as int)),
            SCALE as int, 0x100000000000000);
        assert((x as int) == (d as int) * (SCALE as int) * (SCALE as int) * (
        SCALE as int));
    }
    let prod: u128 = (root as u128) * ((p as u128) + (SCALE as u128));
    let r = (prod / (SCALE as u128)) as u64;
    r
}

/// Divides each domain's score by its page count, yielding average per-page
/// domain authority, as a fresh mapping. A domain absent from the domain
/// graph, or one counting no pages, is a contract violation.
pub fn normalize_domain_scores(scores: &ScoreMap, domains: &NodeMap) -> (r: Result<
    ScoreMap,
    RankError,
>)
    requires
        scores.wf(),
        domains.wf(),
    ensures
        match r {
            Ok(m) => {
                &&& m.wf()
                &&& m.keys@.len() == scores.keys@.len()
                &&& m.vals@.len() == scores.vals@.len()
                &&& forall|i: int| 0 <= i < scores.keys@.len()
                    ==> (#[trigger] m.keys@[i])@ == scores.keys@[i]@
                &&& forall|i: int| 0 <= i < scores.keys@.len() ==> {
                    &&& domains.contains_key((#[trigger] scores.keys@[i])@)
                    &&& domains.node_of(scores.keys@[i]@).individual_pages >= 1
                    &&& m.vals@[i] == scores.vals@[i] / domains.node_of(
                        scores.keys@[i]@).individual_pages
                    &&& m.vals@[i] <= scores.vals@[i]
                }
            },
            Err(e) => e == RankError::DomainMissing && exists|i: int|
                0 <= i < scores.keys@.len() && (!domains.contains_key(
                    (#[trigger] scores.keys@[i])@) || domains.node_of(
                    scores.keys@[i]@).individual_pages == 0),
        },
{
    let n = scores.len();
    let mut keys: Vec<String> = Vec::new();
    let mut vals: Vec<u64> = Vec::new();
    let mut i: usize = 0;
    while i < n
        invariant
            scores.wf(),
            domains.wf(),
            i <= n,
            n == scores.keys@.len(),
            keys@.len() == i,
            vals@.len() == i,
            forall|k: int| 0 <= k < i ==> (#[trigger] keys@[k])@ == scores.keys@[k]@,
            forall|k: int| 0 <= k < i ==> {
                &&& domains.contains_key((#[trigger] scores.keys@[k])@)
                &&& domains.node_of(scores.keys@[k]@).individual_pages >= 1
                &&& vals@[k] == scores.vals@[k] / domains.node_of(
                    scores.keys@[k]@).individual_pages
                &&& vals@[k] <= scores.vals@[k]
            },
        decreases n - i,
    {
        match domains.get(scores.keys[i].as_str()) {
            Some(node) => {
                if node.individual_pages == 0 {
                    return Err(RankError::DomainMissing);
                }
                proof {
                    lemma_div_nonincreasing(scores.vals@[i as int] as int,
                        node.individual_pages as int);
                }
                vals.push(scores.vals[i] / node.individual_pages);
                keys.push(scores.keys[i].clone());
            },
            None => {
                return Err(RankError::DomainMissing);
            },
        }
        i += 1;
    }
    Ok(ScoreMap { keys, vals })
}

/// Combines the two score mappings: for every page, its domain's normalized
/// score is combined with the page score. A page whose domain is missing
/// from the domain mapping is a contract violation.
pub fn combine_scores(domain_scores: &ScoreMap, page_scores: &ScoreMap) -> (r: Result<
    Vec<(String, u64)>,
    RankError,
>)
    requires
        domain_scores.wf(),
        page_scores.wf(),
        forall|i: int| 0 <= i < domain_scores.vals@.len()
            ==> (#[trigger] domain_scores.vals@[i]) <= MAX_MASS,
        forall|i: int| 0 <= i < page_scores.vals@.len()
            ==> (#[trigger] page_scores.vals@[i]) <= MAX_MASS,
    ensures
        match r {
            Ok(v) => {
                &&& v@.len() == page_scores.keys@.len()
                &&& forall|i: int| 0 <= i < v@.len() ==> {
                    &&& (#[trigger] v@[i]).0@ == page_scores.keys@[i]@
                    &&& domain_scores.contains_key(domain_spec(page_scores.keys@[i]@))
                    &&& v@[i].1 as int == combined_score(domain_scores.score_of(
                        domain_spec(page_scores.keys@[i]@)), page_scores.vals@[i])
                }
            },
            Err(e) => e == RankError::DomainMissing && exists|i: int|
                0 <= i < page_scores.keys@.len() && !domain_scores.contains_key(
                    domain_spec((#[trigger] page_scores.keys@[i])@)),
        },
{
    let n = page_scores.len();
    let mut out: Vec<(String, u64)> = Vec::new();
    let mut i: usize = 0;
    while i < n
        invariant
            domain_scores.wf(),
            page_scores.wf(),
            forall|k: int| 0 <= k < domain_scores.vals@.len()
                ==> (#[trigger] domain_scores.vals@[k]) <= MAX_MASS,
            forall|k: int| 0 <= k < page_scores.vals@.len()
                ==> (#[trigger] page_scores.vals@[k]) <= MAX_MASS,
            i <= n,
            n == page_scores.keys@.len(),
            out@.len() == i,
            forall|k: int| 0 <= k < i ==> {
                &&& (#[trigger] out@[k]).0@ == page_scores.keys@[k]@
                &&& domain_scores.contains_key(domain_spec(page_scores.keys@[k]@))
                &&& out@[k].1 as int == combined_score(domain_scores.score_of(
                    domain_spec(page_scores.keys@[k]@)), page_scores.vals@[k])
            },
        decreases n - i,
    {
        let domain = url_to_domain(page_scores.keys[i].as_str());
        match domain_scores.get(domain.as_str()) {
            Some(d) => {
                let c = combine_pair(d, page_scores.vals[i]);
                out.push((page_scores.keys[i].clone(), c));
            },
            None => {
                return Err(RankError::DomainMissing);
            },
        }
        i += 1;
    }
    Ok(out)
}

/// Attaches each page's original integer id, found through the page graph's
/// reverse URL map. A page URL that is no vertex of the page graph is a
/// contract violation.
pub fn attach_ids(combined: &Vec<(String, u64)>, graph: &OptimizedGraph) -> (r: Result<
    Vec<(String, i32, u64)>,
    RankError,
>)
    requires
        graph.wf(),
    ensures
        match r {
            Ok(v) => {
                &&& v@.len() == combined@.len()
                &&& forall|i: int| 0 <= i < v@.len() ==> {
                    &&& (#[trigger] v@[i]).0@ == combined@[i].0@
                    &&& v@[i].2 == combined@[i].1
                    &&& graph.contains_url(combined@[i].0@)
                    &&& v@[i].1 == graph.nodes@[graph.url_index_spec(
                        combined@[i].0@)].id
                }
            },
            Err(e) => e == RankError::PageMissing && exists|i: int|
                0 <= i < combined@.len() && !graph.contains_url(
                    (#[trigger] combined@[i]).0@),
        },
{
    let n = combined.len();
    let mut out: Vec<(String, i32, u64)> = Vec::new();
    let mut i: usize = 0;
    while i < n
        invariant
            graph.wf(),
            i <= n,
            n == combined@.len(),
            out@.len() == i,
            forall|k: int| 0 <= k < i ==> {
                &&& (#[trigger] out@[k]).0@ == combined@[k].0@
                &&& out@[k].2 == combined@[k].1
                &&& graph.contains_url(combined@[k].0@)
                &&& out@[k].1 == graph.nodes@[graph.url_index_spec(
                    combined@[k].0@)].id
            },
        decreases n - i,
    {
        match graph.url_index(combined[i].0.as_str()) {
            Some(idx) => {
                out.push((combined[i].0.clone(), graph.nodes[idx].id, combined[i].1));
            },
            None => {
                return Err(RankError::PageMissing);
            },
        }
        i += 1;
    }
    Ok(out)
}

/// Score-descending order.
pub open spec fn sorted_desc(s: Seq<(String, i32, u64)>) -> bool {
    forall|i: int, j: int| 0 <= i < j < s.len()
        ==> (#[trigger] s[i]).2 >= (#[trigger] s[j]).2
}

proof fn lemma_to_multiset_insert(s: Seq<(String, i32, u64)>, i: int, a: (String, i32, u64))
    requires
        0 <= i <= s.len(),
    ensures
        s.insert(i, a).to_multiset() == s.to_multiset().insert(a),
{
    let t = s.subrange(0, i);
    let u = s.subrange(i, s.len() as int);
    lemma_multiset_commutative(t.push(a), u);
    lemma_multiset_commutative(t, u);
    assert(s =~= t + u);
    assert(s.insert(i, a).to_multiset() =~= s.to_multiset().insert(a));
}

/// Sorts by score, descending, by insertion; the result is a permutation of
/// the input. Ties land in no particular order — the design leaves the
/// tie-break open.
fn sort_by_score_desc(v: Vec<(String, i32, u64)>) -> (r: Vec<(String, i32, u64)>)
    ensures
        sorted_desc(r@),
        r@.to_multiset() == v@.to_multiset(),
{
    let ghost orig = v@;
    let mut v = v;
    let mut r: Vec<(String, i32, u64)> = Vec::new();
    proof {
        assert(r@.to_multiset().add(v@.to_multiset()) =~= orig.to_multiset());
    }
    while v.len() > 0
        invariant
            sorted_desc(r@),
            r@.to_multiset().add(v@.to_multiset()) == orig.to_multiset(),
        decreases v@.len(),
    {
        let ghost vpre = v@;
        let x = match v.pop() {
            Some(x) => x,
            None => {
                return r;
            },
        };
        proof {
            assert(vpre =~= v@.push(x));
            assert(v@.push(x).to_multiset() =~= v@.to_multiset().insert(x));
            assert(vpre.to_multiset() =~= v@.to_multiset().insert(x));
        }
        let mut pos: usize = 0;
        while pos < r.len() && r[pos].2 >= x.2
            invariant
                sorted_desc(r@),
                pos <= r@.len(),
                forall|q: int| 0 <= q < pos ==> (#[trigger] r@[q]).2 >= x.2,
            decreases r@.len() - pos,
        {
            pos += 1;
        }
        let ghost rpre = r@;
        r.insert(pos, x);
        proof {
            lemma_to_multiset_insert(rpre, pos as int, x);
            rpre.insert_ensures(pos as int, x);
            assert forall|a: int, b: int| 0 <= a < b < r@.len()
                implies (r@[a]).2 >= (r@[b]).2 by {
                if a < pos && b < pos {
                    assert(r@[a] == rpre[a] && r@[b] == rpre[b]);
                } else if a < pos && b == pos {
                    assert(r@[a] == rpre[a] && r@[b] == x);
                } else if a < pos && b > pos {
                    assert(r@[a] == rpre[a] && r@[b] == rpre[b - 1]);
                    if b - 1 > pos as int {
                        assert(rpre[b - 1].2 <= rpre[pos as int].2);
                    }
                } else if a == pos {
                    assert(r@[a] == x && r@[b] == rpre[b - 1]);
                    assert(rpre[pos as int].2 < x.2);
                    if b - 1 > pos as int {
                        assert(rpre[b - 1].2 <= rpre[pos as int].2);
                    }
                } else {
                    assert(r@[a] == rpre[a - 1] && r@[b] == rpre[b - 1]);
                }
            }
            assert(r@.to_multiset().add(v@.to_multiset()) =~= orig.to_multiset());
        }
    }
    proof {
        assert(v@.to_multiset().len() == 0);
        assert(r@.to_multiset().add(v@.to_multiset()) =~= r@.to_multiset());
    }
    r
}

/// The `limit` highest-scoring entries, in descending score order: a prefix
/// of some score-sorted permutation of the input.
pub fn top_domains(scores: Vec<(String, i32, u64)>, limit: usize) -> (r: Vec<
    (String, i32, u64),
>)
    ensures
        exists|s: Seq<(String, i32, u64)>| {
            &&& s.to_multiset() == scores@.to_multiset()
            &&& sorted_desc(s)
            &&& r@ == s.take(if limit as int <= s.len() { limit as int } else { s.len() as int })
        },
{
    let ghost orig = scores@;
    let mut sorted = sort_by_score_desc(scores);
    let ghost full = sorted@;
    sorted.truncate(limit);
    proof {
        assert(sorted@ =~= full.take(if limit as int <= full.len() {
            limit as int
        } else {
            full.len() as int
        }));
        assert({
            &&& full.to_multiset() == orig.to_multiset()
            &&& sorted_desc(full)
            &&& sorted@ == full.take(if limit as int <= full.len() {
                limit as int
            } else {
                full.len() as int
            })
        });
    }
    sorted
}

} // verus!
