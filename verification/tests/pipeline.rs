use pagerank::compact::{Edge, OptimizedGraph};
use pagerank::fixed::fourth_root;
use pagerank::graph::{Node, NodeMap, PageRecord};
use pagerank::rank::{attach_ids, combine_scores, normalize_domain_scores, top_domains, RankError};
use pagerank::solver::{get_trusted_nodes_list, trustrank, trustrank_iteration, ScoreMap,
    SolverError};
use pagerank::url::{normalize_url, url_to_domain};
use pagerank::{rank_pages, PipelineError};

const SCALE: u64 = 1_000_000;

fn page(id: i32, url: &str, outs: &[&str], depth: i32) -> PageRecord {
    PageRecord {
        id,
        url: url.to_string(),
        outbound_urls: outs.iter().map(|s| s.to_string()).collect(),
        depth,
    }
}

#[test]
fn test_url_to_domain() {
    assert_eq!(
        "yalereview.org",
        url_to_domain("https://yalereview.org/article/stalking-1")
    );
    assert_eq!(
        "yalereview.org",
        url_to_domain("https://www.yalereview.org/article/stalking-1")
    );
    assert_eq!(
        "poradnikprzedsiebiorcy.pl",
        url_to_domain(
            "https://poradnikprzedsiebiorcy.pl/-co-to-jest-podatek-vat-zasady-jego-dzialania"
        )
    )
}

#[test]
fn test_preprocess_url() {
    let test_cases = vec![
        ("http://www.google.com", "google.com"),
        ("https://www.google.com", "google.com"),
        ("www.google.com", "google.com"),
        ("google.com", "google.com"),
        ("http://www.google.com?q=test", "google.com"),
        (
            "http://www.google.com/search/abc?q=test",
            "google.com/search/abc",
        ),
    ];

    for (input, expected) in test_cases {
        assert_eq!(Node::preprocess_url(input.to_string()), expected);
    }
}

#[test]
fn test_normalize_examples() {
    assert_eq!(normalize_url("http://www.example.com/a?x=1"), "example.com/a");
    assert_eq!(normalize_url("https://example.com"), "example.com");
}

#[test]
fn test_domain_examples() {
    assert_eq!(url_to_domain("https://www.example.com/a/b"), "example.com");
    assert_eq!(url_to_domain("http://example.com"), "example.com");
}

#[test]
fn test_domain_idempotent() {
    for u in [
        "https://www.example.com/a/b",
        "http://example.com",
        "sub.domain.org/path?q=1",
        "https://x.y.z/",
    ] {
        let d = url_to_domain(u);
        assert_eq!(url_to_domain(&d), d);
    }
}

#[test]
fn test_page_graph_builder_filters_edges() {
    let records = vec![page(
        7,
        "http://www.a.com/page",
        &[
            "http://www.a.com/page",
            "a.com/other",
            "https://b.com/x",
        ],
        0,
    )];
    let g = Node::from_db(records);
    assert_eq!(g.keys.len(), 1);
    assert_eq!(g.keys[0], "a.com/page");
    let node = &g.vals[0];
    assert_eq!(node.id, 7);
    assert_eq!(node.score, SCALE);
    assert_eq!(node.individual_pages, 1);
    assert_eq!(node.out, vec!["b.com/x".to_string()]);
    for o in &node.out {
        assert_ne!(o, &node.url);
        assert_ne!(url_to_domain(o), url_to_domain(&node.url));
    }
}

#[test]
fn test_last_write_wins() {
    let records = vec![
        page(1, "http://a.com/p", &[], 2),
        page(2, "https://www.a.com/p", &[], 3),
    ];
    let g = Node::from_db(records);
    assert_eq!(g.keys.len(), 1);
    assert_eq!(g.vals[0].id, 2);
    assert_eq!(g.vals[0].best_depth, 3);
}

#[test]
fn test_domain_aggregator() {
    let records = vec![
        page(1, "http://d1.com/a", &["http://d2.com/x"], 0),
        page(2, "http://d1.com/b", &["http://d2.com/y", "http://d1.com/a"], 3),
        page(3, "http://d2.com/x", &[], 1),
    ];
    let nodes = Node::from_db(records);
    let domains = Node::convert_to_domains(&nodes);
    assert_eq!(domains.keys.len(), 2);
    let d1 = domains.get("d1.com").unwrap();
    assert_eq!(d1.individual_pages, 2);
    assert_eq!(d1.score, 2 * SCALE);
    assert_eq!(d1.best_depth, 0);
    // duplicates are kept: two pages of d1.com link to d2.com
    assert_eq!(d1.out, vec!["d2.com".to_string(), "d2.com".to_string()]);
    let d2 = domains.get("d2.com").unwrap();
    assert_eq!(d2.individual_pages, 1);
    assert_eq!(d2.score, SCALE);
    assert_eq!(d2.best_depth, 1);
    assert_eq!(d2.out.len(), 0);
}

#[test]
fn test_compactor_round_trip() {
    let records = vec![
        page(1, "http://a.com/1", &["http://b.com/2", "http://offsite.net/z"], 0),
        page(2, "http://b.com/2", &[], 1),
    ];
    let nodes = Node::from_db(records);
    let g = OptimizedGraph::convert_graph_to_ids(&nodes);
    assert_eq!(g.nodes.len(), g.adj.len());
    assert_eq!(g.urls.len(), g.nodes.len());
    assert_eq!(g.urls.len(), 2);
    for i in 0..g.urls.len() {
        assert_eq!(g.reverse_url_map[i].0, g.urls[i]);
        assert_eq!(g.reverse_url_map[i].1, i);
        assert_eq!(g.url_index(&g.urls[i]), Some(i));
        assert_eq!(g.nodes[i].url, g.urls[i]);
    }
    // a.com/1 has one resolved edge (to b.com/2) and one external edge
    let ai = g.url_index("a.com/1").unwrap();
    let bi = g.url_index("b.com/2").unwrap();
    assert_eq!(g.adj[ai].len(), 2);
    assert!(matches!(g.adj[ai][0], Edge::Resolved(t) if t == bi));
    assert!(matches!(g.adj[ai][1], Edge::External));
    assert_eq!(g.adj[bi].len(), 0);
}

#[test]
fn test_trusted_seed_set() {
    let records = vec![
        page(1, "http://a.com/1", &["http://b.com/2"], 0),
        page(2, "http://b.com/2", &[], 1),
        page(3, "http://c.com/3", &[], 4),
    ];
    let nodes = Node::from_db(records);
    let g = OptimizedGraph::convert_graph_to_ids(&nodes);
    let (seeds, total) = get_trusted_nodes_list(&g);
    assert_eq!(seeds.len(), 2);
    assert_eq!(total, 6);
    let ai = g.url_index("a.com/1").unwrap();
    let bi = g.url_index("b.com/2").unwrap();
    assert!(seeds.contains(&(ai, 5)));
    assert!(seeds.contains(&(bi, 1)));
}

#[test]
fn test_mass_conservation() {
    // three vertices: one with two edges (one of them external), one
    // dangling, one trusted seed at depth 0
    let records = vec![
        page(1, "http://a.com/1", &["http://b.com/2", "http://offsite.net/z"], 0),
        page(2, "http://b.com/2", &[], 1),
        page(3, "http://c.com/3", &[], 2),
    ];
    let nodes = Node::from_db(records);
    let g = OptimizedGraph::convert_graph_to_ids(&nodes);
    let (seeds, total) = get_trusted_nodes_list(&g);
    assert!(total > 0);
    let cur: Vec<u64> = g.nodes.iter().map(|n| n.score).collect();
    let next = trustrank_iteration(&g, &cur, &seeds, total);
    let before: u64 = cur.iter().sum();
    let after: u64 = next.iter().sum();
    let diff = if before >= after { before - after } else { after - before };
    assert!(diff < SCALE, "mass not conserved: {} vs {}", before, after);
}

#[test]
fn test_convergence_terminates() {
    let records = vec![
        page(1, "http://a.com/1", &["http://b.com/2"], 0),
        page(2, "http://b.com/2", &["http://a.com/1"], 1),
        page(3, "http://c.com/3", &[], 2),
    ];
    let nodes = Node::from_db(records);
    let g = OptimizedGraph::convert_graph_to_ids(&nodes);
    let scores = trustrank(&g, 100, SCALE).unwrap();
    assert_eq!(scores.keys.len(), 3);
}

#[test]
fn test_determinism() {
    let records = || {
        vec![
            page(1, "http://a.com/1", &["http://b.com/2", "http://offsite.net"], 0),
            page(2, "http://b.com/2", &["http://c.com/3"], 1),
            page(3, "http://c.com/3", &[], 2),
        ]
    };
    let g1 = OptimizedGraph::convert_graph_to_ids(&Node::from_db(records()));
    let g2 = OptimizedGraph::convert_graph_to_ids(&Node::from_db(records()));
    let s1 = trustrank(&g1, 100, 0).unwrap();
    let s2 = trustrank(&g2, 100, 0).unwrap();
    assert_eq!(s1.keys, s2.keys);
    assert_eq!(s1.vals, s2.vals);
}

#[test]
fn test_trustrank_no_seeds() {
    let records = vec![
        page(1, "http://a.com/1", &[], 5),
        page(2, "http://b.com/2", &[], 7),
    ];
    let nodes = Node::from_db(records);
    let g = OptimizedGraph::convert_graph_to_ids(&nodes);
    assert!(matches!(trustrank(&g, 100, SCALE), Err(SolverError::NoTrustedSeeds)));
}

#[test]
fn test_combiner_formula() {
    // normalized domain score 16.0 and page score 1.0 combine to
    // 16^(1/4) * (1 + 1) = 4.0
    let domain_scores = ScoreMap {
        keys: vec!["d.com".to_string()],
        vals: vec![16 * SCALE],
    };
    let page_scores = ScoreMap {
        keys: vec!["d.com/p".to_string()],
        vals: vec![SCALE],
    };
    let combined = combine_scores(&domain_scores, &page_scores).unwrap();
    assert_eq!(combined.len(), 1);
    assert_eq!(combined[0].0, "d.com/p");
    assert_eq!(combined[0].1, 4 * SCALE);
}

#[test]
fn test_combine_missing_domain() {
    let domain_scores = ScoreMap { keys: vec![], vals: vec![] };
    let page_scores = ScoreMap {
        keys: vec!["d.com/p".to_string()],
        vals: vec![SCALE],
    };
    assert_eq!(
        combine_scores(&domain_scores, &page_scores),
        Err(RankError::DomainMissing)
    );
}

#[test]
fn test_normalize_missing_domain() {
    let scores = ScoreMap {
        keys: vec!["nowhere.org".to_string()],
        vals: vec![SCALE],
    };
    let domains = NodeMap::new();
    assert_eq!(
        normalize_domain_scores(&scores, &domains).map(|m| m.vals),
        Err(RankError::DomainMissing)
    );
}

#[test]
fn test_normalize_divides_by_pages() {
    let records = vec![
        page(1, "http://d1.com/a", &[], 0),
        page(2, "http://d1.com/b", &[], 1),
    ];
    let nodes = Node::from_db(records);
    let domains = Node::convert_to_domains(&nodes);
    let scores = ScoreMap {
        keys: vec!["d1.com".to_string()],
        vals: vec![5 * SCALE],
    };
    let normalized = normalize_domain_scores(&scores, &domains).unwrap();
    assert_eq!(normalized.vals, vec![5 * SCALE / 2]);
}

#[test]
fn test_attach_ids_missing_page() {
    let g = OptimizedGraph::convert_graph_to_ids(&NodeMap::new());
    let combined = vec![("ghost.com/p".to_string(), SCALE)];
    assert_eq!(attach_ids(&combined, &g), Err(RankError::PageMissing));
}

#[test]
fn test_top_domains_sorts_and_truncates() {
    let scores = vec![
        ("low.com".to_string(), 1, 10u64),
        ("high.com".to_string(), 2, 30u64),
        ("mid.com".to_string(), 3, 20u64),
    ];
    let top = top_domains(scores, 2);
    assert_eq!(top.len(), 2);
    assert_eq!(top[0].0, "high.com");
    assert_eq!(top[1].0, "mid.com");

    let all = top_domains(
        vec![("x.com".to_string(), 1, 5u64)],
        100,
    );
    assert_eq!(all.len(), 1);
}

#[test]
fn test_fourth_root_exact() {
    assert_eq!(fourth_root(0), 0);
    assert_eq!(fourth_root(1), 1);
    assert_eq!(fourth_root(80), 2);
    assert_eq!(fourth_root(81), 3);
    assert_eq!(fourth_root(1_000_000_000_000_000_000_000_000u128), 1_000_000);
}

#[test]
fn test_end_to_end_two_pages() {
    // A at depth 0 links to B at depth 1 on another domain
    let records = vec![
        page(1, "http://a.example/home", &["http://b.example/page"], 0),
        page(2, "http://b.example/page", &[], 1),
    ];
    let nodes = Node::from_db(records);
    assert_eq!(nodes.keys.len(), 2);
    let pg = OptimizedGraph::convert_graph_to_ids(&nodes);
    let ai = pg.url_index("a.example/home").unwrap();
    let bi = pg.url_index("b.example/page").unwrap();
    assert_eq!(pg.adj[ai].len(), 1);
    assert!(matches!(pg.adj[ai][0], Edge::Resolved(t) if t == bi));
    assert_eq!(pg.adj[bi].len(), 0);

    let domains = Node::convert_to_domains(&nodes);
    assert_eq!(domains.keys.len(), 2);
    let dg = OptimizedGraph::convert_graph_to_ids(&domains);
    let dai = dg.url_index("a.example").unwrap();
    let dbi = dg.url_index("b.example").unwrap();
    assert_eq!(dg.adj[dai].len(), 1);
    assert!(matches!(dg.adj[dai][0], Edge::Resolved(t) if t == dbi));
    assert_eq!(dg.adj[dbi].len(), 0);

    let (seeds, total) = get_trusted_nodes_list(&pg);
    assert_eq!(total, 6);
    assert!(seeds.contains(&(ai, 5)));
    assert!(seeds.contains(&(bi, 1)));

    let scores = trustrank(&pg, 100, SCALE).unwrap();
    let b_score = scores.get("b.example/page").unwrap();
    assert!(b_score > SCALE, "b received {} which should exceed 1.0", b_score);
}

#[test]
fn test_rank_pages_pipeline() {
    let records = vec![
        page(1, "http://a.example/home", &["http://b.example/page"], 0),
        page(2, "http://b.example/page", &[], 1),
    ];
    let top = rank_pages(records, 100, SCALE, 10).unwrap();
    assert_eq!(top.len(), 2);
    assert!(top[0].2 >= top[1].2);
    let urls: Vec<&str> = top.iter().map(|t| t.0.as_str()).collect();
    assert!(urls.contains(&"a.example/home"));
    assert!(urls.contains(&"b.example/page"));
}

#[test]
fn test_rank_pages_no_seeds() {
    let records = vec![page(1, "http://a.example/deep", &[], 9)];
    assert_eq!(
        rank_pages(records, 100, SCALE, 10),
        Err(PipelineError::NoTrustedSeeds)
    );
}
