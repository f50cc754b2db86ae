//! Trust-biased ranking of crawled web pages.
//!
//! The pipeline turns raw crawl records into a page-level link graph, folds
//! that graph into a domain-level graph, compacts both into index-addressed
//! form, runs a damped, seed-biased random walk over each, and combines the
//! two score vectors into one ranked list of pages.
//!
//! All scores are fixed-point numbers: an integer holds the score scaled by
//! `fixed::SCALE`, so every arithmetic step is exact and deterministic.

pub mod compact;
pub mod fixed;
pub mod graph;
pub mod rank;
pub mod solver;
pub mod url;

use vstd::prelude::*;

use crate::compact::OptimizedGraph;
use crate::fixed::{lemma_sum64_all_le, MAX_MASS, MAX_PAGES, SCALE};
use crate::graph::{domain_entry_ok, first_count, has_trusted_record, last_match,
    page_entry_ok, scores_of, sum_node_scores, lemma_agg_bounds, Node, PageRecord};
use crate::rank::{attach_ids, combine_scores, normalize_domain_scores, sorted_desc,
    top_domains};
use crate::solver::{lemma_tws_eq, lemma_tws_zero, trustrank, trusted_weight_sum};
use crate::url::{domain_spec, normalize_spec};

verus! {

broadcast use vstd::seq_lib::group_to_multiset_ensures;

/// Any failure of the whole pipeline: a graph without trusted seeds, or an
/// inconsistency between the page and domain graphs.
#[derive(Debug, PartialEq, Eq, Structural)]
pub enum PipelineError {
    NoTrustedSeeds,
    DomainMissing,
    PageMissing,
}

/// Runs the whole pipeline on a crawl snapshot: builds the page and domain
/// graphs, compacts both, solves each with the given iteration budget and
/// tolerance, combines domain- and page-level scores, and returns the top
/// `limit` pages by combined score, descending.
///
/// The run fails exactly when the snapshot holds no trusted page — no record
/// that survives deduplication with a crawl depth of 0 or 1 — and then with
/// `NoTrustedSeeds`: the two graphs come from one record set, so the
/// cross-graph errors of the later stages cannot occur. A successful run
/// returns one entry per distinct canonical URL, truncated to `limit`.
#[verifier::rlimit(100)]
pub fn rank_pages(
    records: Vec<PageRecord>,
    max_iterations: u32,
    tolerance: u64,
    limit: usize,
) -> (r: Result<Vec<(String, i32, u64)>, PipelineError>)
    requires
        records@.len() <= MAX_PAGES,
    ensures
        r is Err <==> !has_trusted_record(records@),
        r matches Err(e) ==> e == PipelineError::NoTrustedSeeds,
        r matches Ok(v) ==> {
            &&& sorted_desc(v@)
            &&& v@.len() == if limit as int <= first_count(records@,
                records@.len() as int) {
                limit as int
            } else {
                first_count(records@, records@.len() as int)
            }
            &&& forall|e: int| 0 <= e < v@.len() ==> exists|j: int|
                0 <= j < records@.len()
                && (#[trigger] v@[e]).0@ == normalize_spec(records@[j].url@)
        },
{
    let ghost recs = records@;
    let nodes = Node::from_db(records);
    proof {
        assert forall|i: int| 0 <= i < scores_of(nodes.vals@).len()
            implies (#[trigger] scores_of(nodes.vals@)[i]) <= SCALE by {
            assert(scores_of(nodes.vals@)[i] == nodes.vals@[i].score);
            assert(page_entry_ok(recs, nodes.keys@[i]@, nodes.vals@[i],
                recs.len() as int));
        }
        lemma_sum64_all_le(scores_of(nodes.vals@), SCALE);
        assert(sum_node_scores(nodes.vals@) <= MAX_MASS);
    }
    let domains = Node::convert_to_domains(&nodes);
    proof {
        assert forall|i: int| 0 <= i < domains.vals@.len()
            implies (#[trigger] domains.vals@[i]).individual_pages <= MAX_PAGES by {
            lemma_agg_bounds(nodes.vals@, domains.keys@[i]@);
            assert(nodes.vals@.take(nodes.vals@.len() as int) =~= nodes.vals@);
        }
    }
    let node_graph = OptimizedGraph::convert_graph_to_ids(&nodes);
    let domain_graph = OptimizedGraph::convert_graph_to_ids(&domains);
    proof {
        assert(scores_of(node_graph.nodes@) =~= scores_of(nodes.vals@));
        assert(scores_of(domain_graph.nodes@) =~= scores_of(domains.vals@));
        assert forall|i: int| 0 <= i < node_graph.nodes@.len()
            implies (#[trigger] node_graph.nodes@[i]).best_depth
                == nodes.vals@[i].best_depth && node_graph.nodes@[i].individual_pages
                == nodes.vals@[i].individual_pages by {}
        lemma_tws_eq(node_graph.nodes@, nodes.vals@);
        assert forall|i: int| 0 <= i < domain_graph.nodes@.len()
            implies (#[trigger] domain_graph.nodes@[i]).best_depth
                == domains.vals@[i].best_depth
                && domain_graph.nodes@[i].individual_pages
                == domains.vals@[i].individual_pages by {}
        lemma_tws_eq(domain_graph.nodes@, domains.vals@);
        assert forall|i: int| 0 <= i < nodes.vals@.len()
            implies (#[trigger] nodes.vals@[i]).individual_pages >= 1 by {
            assert(page_entry_ok(recs, nodes.keys@[i]@, nodes.vals@[i],
                recs.len() as int));
        }
        lemma_tws_zero(nodes.vals@);
        assert forall|i: int| 0 <= i < domains.vals@.len()
            implies (#[trigger] domains.vals@[i]).individual_pages >= 1 by {
            assert(domain_entry_ok(nodes.vals@, domains.keys@[i]@, domains.vals@[i],
                nodes.vals@.len() as int));
        }
        lemma_tws_zero(domains.vals@);
        assert((exists|k: int| 0 <= k < nodes.vals@.len()
            && (#[trigger] nodes.vals@[k]).best_depth <= 1)
            <==> has_trusted_record(recs)) by {
            if exists|k: int| 0 <= k < nodes.vals@.len()
                && (#[trigger] nodes.vals@[k]).best_depth <= 1 {
                let k = choose|k: int| 0 <= k < nodes.vals@.len()
                    && (#[trigger] nodes.vals@[k]).best_depth <= 1;
                assert(page_entry_ok(recs, nodes.keys@[k]@, nodes.vals@[k],
                    recs.len() as int));
                let j = last_match(recs, nodes.keys@[k]@, recs.len() as int);
                assert(0 <= j < recs.len() && (recs[j]).depth <= 1
                    && last_match(recs, normalize_spec(recs[j].url@),
                        recs.len() as int) == j);
            }
            if has_trusted_record(recs) {
                let j = choose|j: int| 0 <= j < recs.len()
                    && (#[trigger] recs[j]).depth <= 1
                    && last_match(recs, normalize_spec(recs[j].url@),
                        recs.len() as int) == j;
                assert(nodes.contains_key(normalize_spec(recs[j].url@)));
                let k = choose|k: int| 0 <= k < nodes.keys@.len()
                    && (#[trigger] nodes.keys@[k])@ == normalize_spec(recs[j].url@);
                assert(page_entry_ok(recs, nodes.keys@[k]@, nodes.vals@[k],
                    recs.len() as int));
                assert(0 <= k < nodes.vals@.len()
                    && (nodes.vals@[k]).best_depth <= 1);
            }
        }
        assert((exists|k: int| 0 <= k < domains.vals@.len()
            && (#[trigger] domains.vals@[k]).best_depth <= 1)
            <==> (exists|k: int| 0 <= k < nodes.vals@.len()
            && (#[trigger] nodes.vals@[k]).best_depth <= 1)) by {
            if exists|k: int| 0 <= k < domains.vals@.len()
                && (#[trigger] domains.vals@[k]).best_depth <= 1 {
                let k = choose|k: int| 0 <= k < domains.vals@.len()
                    && (#[trigger] domains.vals@[k]).best_depth <= 1;
                assert(domain_entry_ok(nodes.vals@, domains.keys@[k]@,
                    domains.vals@[k], nodes.vals@.len() as int));
                let j = choose|j: int| 0 <= j < nodes.vals@.len() as int
                    && domain_spec((#[trigger] nodes.vals@[j]).url@)
                        == domains.keys@[k]@
                    && nodes.vals@[j].best_depth == domains.vals@[k].best_depth;
                assert(0 <= j < nodes.vals@.len()
                    && (nodes.vals@[j]).best_depth <= 1);
            }
            if exists|k: int| 0 <= k < nodes.vals@.len()
                && (#[trigger] nodes.vals@[k]).best_depth <= 1 {
                let k = choose|k: int| 0 <= k < nodes.vals@.len()
                    && (#[trigger] nodes.vals@[k]).best_depth <= 1;
                assert(domains.contains_key(domain_spec(nodes.vals@[k].url@)));
                let w = choose|w: int| 0 <= w < domains.keys@.len()
                    && (#[trigger] domains.keys@[w])@
                        == domain_spec(nodes.vals@[k].url@);
                assert(domain_entry_ok(nodes.vals@, domains.keys@[w]@,
                    domains.vals@[w], nodes.vals@.len() as int));
                assert(domains.vals@[w].best_depth <= nodes.vals@[k].best_depth);
                assert(0 <= w < domains.vals@.len()
                    && (domains.vals@[w]).best_depth <= 1);
            }
        }
    }
    let domain_scores = match trustrank(&domain_graph, max_iterations, tolerance) {
        Ok(m) => m,
        Err(_) => {
            proof {
                assert(trusted_weight_sum(domains.vals@) == 0);
                assert(!has_trusted_record(recs));
            }
            return Err(PipelineError::NoTrustedSeeds);
        },
    };
    let page_scores = match trustrank(&node_graph, max_iterations, tolerance) {
        Ok(m) => m,
        Err(_) => {
            proof {
                assert(trusted_weight_sum(nodes.vals@) == 0);
                assert(!has_trusted_record(recs));
            }
            return Err(PipelineError::NoTrustedSeeds);
        },
    };
    proof {
        assert(trusted_weight_sum(domains.vals@) >= 1);
        assert(has_trusted_record(recs));
    }
    let normalized = match normalize_domain_scores(&domain_scores, &domains) {
        Ok(m) => m,
        Err(_) => {
            proof {
                let i = choose|i: int| 0 <= i < domain_scores.keys@.len()
                    && (!domains.contains_key((#[trigger] domain_scores.keys@[i])@)
                        || domains.node_of(
                            domain_scores.keys@[i]@).individual_pages == 0);
                assert(domain_scores.keys@[i]@ == domain_graph.urls@[i]@);
                assert(domain_graph.urls@[i]@ == domains.keys@[i]@);
                assert(domains.contains_key(domains.keys@[i]@)) by {
                    assert(domains.keys@[i]@ == domains.keys@[i]@);
                }
                domains.lemma_key_index_of(i);
                assert(domain_entry_ok(nodes.vals@, domains.keys@[i]@,
                    domains.vals@[i], nodes.vals@.len() as int));
                assert(false);
            }
            return Err(PipelineError::DomainMissing);
        },
    };
    proof {
        assert forall|i: int| 0 <= i < normalized.vals@.len()
            implies (#[trigger] normalized.vals@[i]) <= MAX_MASS by {
            let key_i = domain_scores.keys@[i];
            assert(normalized.vals@[i] <= domain_scores.vals@[i]);
        }
    }
    let combined = match combine_scores(&normalized, &page_scores) {
        Ok(v) => v,
        Err(_) => {
            proof {
                let i = choose|i: int| 0 <= i < page_scores.keys@.len()
                    && !normalized.contains_key(domain_spec(
                        (#[trigger] page_scores.keys@[i])@));
                assert(page_scores.keys@[i]@ == node_graph.urls@[i]@);
                assert(node_graph.urls@[i]@ == nodes.keys@[i]@);
                assert(nodes.vals@[i].url@ == nodes.keys@[i]@);
                assert(domains.contains_key(domain_spec(nodes.vals@[i].url@)));
                let w = choose|w: int| 0 <= w < domains.keys@.len()
                    && (#[trigger] domains.keys@[w])@
                        == domain_spec(nodes.vals@[i].url@);
                assert(normalized.keys@[w]@ == domain_scores.keys@[w]@);
                assert(domain_scores.keys@[w]@ == domain_graph.urls@[w]@);
                assert(domain_graph.urls@[w]@ == domains.keys@[w]@);
                assert(normalized.contains_key(domain_spec(
                    page_scores.keys@[i]@))) by {
                    assert(normalized.keys@[w]@ == domain_spec(
                        page_scores.keys@[i]@));
                }
                assert(false);
            }
            return Err(PipelineError::DomainMissing);
        },
    };
    let with_ids = match attach_ids(&combined, &node_graph) {
        Ok(v) => v,
        Err(_) => {
            proof {
                let i = choose|i: int| 0 <= i < combined@.len()
                    && !node_graph.contains_url((#[trigger] combined@[i]).0@);
                assert(combined@[i].0@ == page_scores.keys@[i]@);
                assert(page_scores.keys@[i]@ == node_graph.urls@[i]@);
                assert(node_graph.contains_url(combined@[i].0@)) by {
                    assert(node_graph.urls@[i]@ == combined@[i].0@);
                }
                assert(false);
            }
            return Err(PipelineError::PageMissing);
        },
    };
    let top = top_domains(with_ids, limit);
    proof {
        let s = choose|s: Seq<(String, i32, u64)>| {
            &&& s.to_multiset() == with_ids@.to_multiset()
            &&& sorted_desc(s)
            &&& top@ == s.take(if limit as int <= s.len() {
                limit as int
            } else {
                s.len() as int
            })
        };
        assert(sorted_desc(top@));
        assert(s.len() == with_ids@.len()) by {
            assert(s.to_multiset().len() == s.len());
            assert(with_ids@.to_multiset().len() == with_ids@.len());
        }
        assert(with_ids@.len() == first_count(recs, recs.len() as int));
        assert forall|e: int| 0 <= e < top@.len()
            implies exists|j: int| 0 <= j < recs.len()
                && (#[trigger] top@[e]).0@ == normalize_spec(recs[j].url@) by {
            assert(top@[e] == s[e]);
            assert(s.contains(s[e])) by {
                assert(0 <= e < s.len() && s[e] == s[e]);
            }
            assert(s.to_multiset().count(s[e]) > 0);
            assert(with_ids@.to_multiset().count(s[e]) > 0);
            assert(with_ids@.contains(s[e]));
            let i = choose|i: int| 0 <= i < with_ids@.len()
                && (#[trigger] with_ids@[i]) == s[e];
            assert(with_ids@[i].0@ == combined@[i].0@);
            assert(combined@[i].0@ == page_scores.keys@[i]@);
            assert(page_scores.keys@[i]@ == node_graph.urls@[i]@);
            assert(node_graph.urls@[i]@ == nodes.keys@[i]@);
            assert(page_entry_ok(recs, nodes.keys@[i]@, nodes.vals@[i],
                recs.len() as int));
            let j = last_match(recs, nodes.keys@[i]@, recs.len() as int);
            assert(0 <= j < recs.len()
                && top@[e].0@ == normalize_spec(recs[j].url@));
        }
    }
    Ok(top)
}

} // verus!
