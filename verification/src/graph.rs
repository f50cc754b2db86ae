//! The string-keyed link graphs: one node per page, and one node per domain.
//!
//! A graph is a `NodeMap`: an insertion-ordered map from canonical URL (or
//! domain) to its `Node`. Enumeration order is first-insertion order, so one
//! input always yields one graph, entry for entry.

use vstd::prelude::*;
use vstd::string::*;

use crate::fixed::{sum64, lemma_sum64_push, lemma_sum64_update, lemma_sum64_take_succ,
    lemma_sum64_elem_le, lemma_sum64_take_le, SCALE, MAX_MASS};
use crate::url::{normalize_spec, domain_spec, normalize_url, url_to_domain};

verus! {

/// A raw crawl record: one crawled page with its outbound links.
pub struct PageRecord {
    pub id: i32,
    pub url: String,
    pub outbound_urls: Vec<String>,
    pub depth: i32,
}

/// A vertex of a graph: a page, or a whole domain.
///
/// `score` is a fixed-point seed value (`fixed::SCALE` is 1.0), not a final
/// result. For a page node `individual_pages` is 1; for a domain node it
/// counts the pages the domain aggregates.
pub struct Node {
    pub id: i32,
    pub out: Vec<String>,
    pub url: String,
    pub score: u64,
    pub best_depth: i32,
    pub individual_pages: u64,
}

/// The scores of a sequence of nodes.
pub open spec fn scores_of(s: Seq<Node>) -> Seq<u64> {
    s.map_values(|n: Node| n.score)
}

/// Total score mass of a sequence of nodes.
pub open spec fn sum_node_scores(s: Seq<Node>) -> int {
    sum64(scores_of(s))
}

/// A page node's edge list never points at the node itself, nor anywhere on
/// its own domain.
pub open spec fn node_out_ok(n: Node) -> bool {
    forall|k: int| 0 <= k < n.out@.len() ==> #[trigger] n.out@[k]@ != n.url@
        && domain_spec(n.out@[k]@) != domain_spec(n.url@)
}

/// Score mass that the nodes of `s` contribute to domain `d`.
pub open spec fn agg_score(s: Seq<Node>, d: Seq<char>) -> int
    decreases s.len(),
{
    if s.len() == 0 {
        0
    } else {
        agg_score(s.drop_last(), d) + if domain_spec(s.last().url@) == d {
            s.last().score as int
        } else {
            0
        }
    }
}

/// Number of nodes of `s` whose URL lies on domain `d`.
pub open spec fn agg_count(s: Seq<Node>, d: Seq<char>) -> int
    decreases s.len(),
{
    if s.len() == 0 {
        0
    } else {
        agg_count(s.drop_last(), d) + if domain_spec(s.last().url@) == d {
            1int
        } else {
            0
        }
    }
}

pub proof fn lemma_agg_take_succ(s: Seq<Node>, d: Seq<char>, i: int)
    requires
        0 <= i < s.len(),
    ensures
        agg_score(s.take(i + 1), d) == agg_score(s.take(i), d) + if domain_spec(s[i].url@)
            == d { s[i].score as int } else { 0 },
        agg_count(s.take(i + 1), d) == agg_count(s.take(i), d) + if domain_spec(s[i].url@)
            == d { 1int } else { 0 },
{
    assert(s.take(i + 1).drop_last() =~= s.take(i));
    assert(s.take(i + 1).last() == s[i]);
}

pub proof fn lemma_agg_zero(s: Seq<Node>, d: Seq<char>)
    requires
        forall|j: int| 0 <= j < s.len() ==> domain_spec((#[trigger] s[j]).url@) != d,
    ensures
        agg_score(s, d) == 0,
        agg_count(s, d) == 0,
    decreases s.len(),
{
    if s.len() > 0 {
        assert(forall|j: int| 0 <= j < s.drop_last().len()
            ==> (#[trigger] s.drop_last()[j]) == s[j]);
        lemma_agg_zero(s.drop_last(), d);
    }
}

pub proof fn lemma_agg_bounds(s: Seq<Node>, d: Seq<char>)
    ensures
        0 <= agg_score(s, d) <= sum_node_scores(s),
        0 <= agg_count(s, d) <= s.len(),
    decreases s.len(),
{
    if s.len() > 0 {
        lemma_agg_bounds(s.drop_last(), d);
        assert(scores_of(s).drop_last() =~= scores_of(s.drop_last()));
        assert(scores_of(s).last() == s.last().score);
    }
}

pub proof fn lemma_sum_node_scores_take_succ(s: Seq<Node>, i: int)
    requires
        0 <= i < s.len(),
    ensures
        sum_node_scores(s.take(i + 1)) == sum_node_scores(s.take(i)) + s[i].score,
{
    assert(scores_of(s.take(i + 1)) =~= scores_of(s).take(i + 1));
    assert(scores_of(s.take(i)) =~= scores_of(s).take(i));
    lemma_sum64_take_succ(scores_of(s), i);
}

pub proof fn lemma_sum_node_scores_take_le(s: Seq<Node>, i: int)
    requires
        0 <= i <= s.len(),
    ensures
        sum_node_scores(s.take(i)) <= sum_node_scores(s),
{
    assert(scores_of(s.take(i)) =~= scores_of(s).take(i));
    lemma_sum64_take_le(scores_of(s), i);
}

pub proof fn lemma_sum_node_scores_push(s: Seq<Node>, n: Node)
    ensures
        sum_node_scores(s.push(n)) == sum_node_scores(s) + n.score,
{
    assert(scores_of(s.push(n)) =~= scores_of(s).push(n.score));
    lemma_sum64_push(scores_of(s), n.score);
}

pub proof fn lemma_sum_node_scores_update(s: Seq<Node>, i: int, n: Node)
    requires
        0 <= i < s.len(),
    ensures
        sum_node_scores(s.update(i, n)) == sum_node_scores(s) - s[i].score + n.score,
{
    assert(scores_of(s.update(i, n)) =~= scores_of(s).update(i, n.score));
    lemma_sum64_update(scores_of(s), i, n.score);
    assert(scores_of(s)[i] == s[i].score);
}

/// Views of a sequence of strings.
pub open spec fn views_of(s: Seq<String>) -> Seq<Seq<char>> {
    s.map_values(|x: String| x@)
}

/// The canonical URLs of a record's outbound links.
pub open spec fn normalized_outs(r: PageRecord) -> Seq<Seq<char>> {
    r.outbound_urls@.map_values(|o: String| normalize_spec(o@))
}

/// The outbound URLs a page keeps: those that differ from its own canonical
/// URL and lie on another domain; order and duplicates are preserved.
pub open spec fn kept_out(outs: Seq<Seq<char>>, url: Seq<char>) -> Seq<Seq<char>>
    decreases outs.len(),
{
    if outs.len() == 0 {
        Seq::empty()
    } else {
        let rest = kept_out(outs.drop_last(), url);
        if outs.last() != url && domain_spec(outs.last()) != domain_spec(url) {
            rest.push(outs.last())
        } else {
            rest
        }
    }
}

pub proof fn lemma_kept_out_take_succ(outs: Seq<Seq<char>>, url: Seq<char>, j: int)
    requires
        0 <= j < outs.len(),
    ensures
        kept_out(outs.take(j + 1), url) == if outs[j] != url && domain_spec(outs[j])
            != domain_spec(url) {
            kept_out(outs.take(j), url).push(outs[j])
        } else {
            kept_out(outs.take(j), url)
        },
{
    assert(outs.take(j + 1).drop_last() =~= outs.take(j));
    assert(outs.take(j + 1).last() == outs[j]);
}

/// Index of the last record among the first `upto` whose canonical URL is
/// `key`; -1 when there is none.
pub open spec fn last_match(pages: Seq<PageRecord>, key: Seq<char>, upto: int) -> int
    decreases upto,
{
    if upto <= 0 {
        -1
    } else if normalize_spec(pages[upto - 1].url@) == key {
        upto - 1
    } else {
        last_match(pages, key, upto - 1)
    }
}

pub proof fn lemma_last_match(pages: Seq<PageRecord>, key: Seq<char>, upto: int)
    requires
        0 <= upto <= pages.len(),
    ensures
        last_match(pages, key, upto) >= -1,
        last_match(pages, key, upto) == -1 ==> forall|j: int| 0 <= j < upto
            ==> normalize_spec((#[trigger] pages[j]).url@) != key,
        last_match(pages, key, upto) >= 0 ==> 0 <= last_match(pages, key, upto) < upto
            && normalize_spec(pages[last_match(pages, key, upto)].url@) == key,
    decreases upto,
{
    if upto > 0 {
        lemma_last_match(pages, key, upto - 1);
    }
}

/// Number of distinct canonical URLs among the first `upto` records: a
/// record counts when no earlier record shares its canonical URL.
pub open spec fn first_count(pages: Seq<PageRecord>, upto: int) -> int
    decreases upto,
{
    if upto <= 0 {
        0
    } else {
        first_count(pages, upto - 1) + if last_match(pages, normalize_spec(
            pages[upto - 1].url@), upto - 1) >= 0 {
            0int
        } else {
            1
        }
    }
}

/// Some record survives into the page graph at crawl depth at most 1: it is
/// the last record bearing its canonical URL, and was crawled at depth 0
/// or 1. Exactly these snapshots give the solver a trusted seed to work
/// with.
pub open spec fn has_trusted_record(pages: Seq<PageRecord>) -> bool {
    exists|j: int| 0 <= j < pages.len() && (#[trigger] pages[j]).depth <= 1
        && last_match(pages, normalize_spec(pages[j].url@), pages.len() as int) == j
}

/// The page node keyed by `key` is exactly the one built from the last of
/// the first `upto` records with that canonical URL (last write wins): id
/// and depth carried over, score 1.0, one page, and the kept outbound list
/// in input order with duplicates.
pub open spec fn page_entry_ok(pages: Seq<PageRecord>, key: Seq<char>, n: Node, upto: int) -> bool {
    let j = last_match(pages, key, upto);
    &&& 0 <= j < upto
    &&& normalize_spec(pages[j].url@) == key
    &&& n.url@ == key
    &&& n.id == pages[j].id
    &&& n.best_depth == pages[j].depth
    &&& n.score == SCALE
    &&& n.individual_pages == 1
    &&& views_of(n.out@) == kept_out(normalized_outs(pages[j]), key)
}

/// Domains reached by a list of outbound URLs, the domain `d` itself
/// excluded; order and duplicates preserved.
pub open spec fn out_domains_excl(outs: Seq<String>, d: Seq<char>) -> Seq<Seq<char>>
    decreases outs.len(),
{
    if outs.len() == 0 {
        Seq::empty()
    } else {
        let rest = out_domains_excl(outs.drop_last(), d);
        if domain_spec(outs.last()@) != d {
            rest.push(domain_spec(outs.last()@))
        } else {
            rest
        }
    }
}

pub proof fn lemma_ode_take_succ(outs: Seq<String>, d: Seq<char>, j: int)
    requires
        0 <= j < outs.len(),
    ensures
        out_domains_excl(outs.take(j + 1), d) == if domain_spec(outs[j]@) != d {
            out_domains_excl(outs.take(j), d).push(domain_spec(outs[j]@))
        } else {
            out_domains_excl(outs.take(j), d)
        },
{
    assert(outs.take(j + 1).drop_last() =~= outs.take(j));
    assert(outs.take(j + 1).last() == outs[j]);
}

/// Concatenation, over the first `upto` pages lying on domain `d`, of the
/// domains their outbound links reach (excluding `d`), in page order with
/// duplicates kept — the deliberate fan-out weighting.
pub open spec fn agg_out(pages: Seq<Node>, d: Seq<char>, upto: int) -> Seq<Seq<char>>
    decreases upto,
{
    if upto <= 0 {
        Seq::empty()
    } else {
        agg_out(pages, d, upto - 1) + if domain_spec(pages[upto - 1].url@) == d {
            out_domains_excl(pages[upto - 1].out@, d)
        } else {
            Seq::empty()
        }
    }
}

pub proof fn lemma_agg_out_empty(pages: Seq<Node>, d: Seq<char>, upto: int)
    requires
        0 <= upto <= pages.len(),
        forall|j: int| 0 <= j < upto ==> domain_spec((#[trigger] pages[j]).url@) != d,
    ensures
        agg_out(pages, d, upto) == Seq::<Seq<char>>::empty(),
    decreases upto,
{
    if upto > 0 {
        lemma_agg_out_empty(pages, d, upto - 1);
    }
}

/// Some page among the first `upto` of `pages` lies on domain `dkey`.
pub open spec fn key_from_pages(pages: Seq<Node>, dkey: Seq<char>, upto: int) -> bool {
    exists|j: int| 0 <= j < upto && domain_spec((#[trigger] pages[j]).url@) == dkey
}

pub proof fn lemma_key_from_pages_extend(pages: Seq<Node>, dkey: Seq<char>, upto: int)
    requires
        key_from_pages(pages, dkey, upto),
    ensures
        key_from_pages(pages, dkey, upto + 1),
{
    let w = choose|j: int| 0 <= j < upto && domain_spec((#[trigger] pages[j]).url@) == dkey;
    assert(0 <= w < upto + 1 && domain_spec((pages[w]).url@) == dkey);
}

/// Some page among the first `upto` of `pages` lies on `dkey` and was seen at
/// crawl depth `dep`.
pub open spec fn depth_from_pages(pages: Seq<Node>, dkey: Seq<char>, dep: i32, upto: int) -> bool {
    exists|j: int| 0 <= j < upto && domain_spec((#[trigger] pages[j]).url@) == dkey
        && pages[j].best_depth == dep
}

pub proof fn lemma_depth_from_pages_extend(pages: Seq<Node>, dkey: Seq<char>, dep: i32, upto: int)
    requires
        depth_from_pages(pages, dkey, dep, upto),
    ensures
        depth_from_pages(pages, dkey, dep, upto + 1),
{
    let w = choose|j: int| 0 <= j < upto && domain_spec((#[trigger] pages[j]).url@) == dkey
        && pages[j].best_depth == dep;
    assert(0 <= w < upto + 1 && domain_spec((pages[w]).url@) == dkey
        && pages[w].best_depth == dep);
}

/// The domain node `dnode`, keyed by `dkey`, correctly aggregates the first
/// `upto` page nodes of `pages`: its score and page count are the exact sums
/// over the pages on that domain, its depth is their minimum, and its edge
/// list holds only domains reached from those pages, never `dkey` itself.
pub open spec fn domain_entry_ok(pages: Seq<Node>, dkey: Seq<char>, dnode: Node, upto: int) -> bool {
    &&& dnode.url@ == dkey
    &&& dnode.score == agg_score(pages.take(upto), dkey)
    &&& dnode.individual_pages == agg_count(pages.take(upto), dkey)
    &&& dnode.individual_pages >= 1
    &&& depth_from_pages(pages, dkey, dnode.best_depth, upto)
    &&& (forall|j: int| 0 <= j < upto && domain_spec((#[trigger] pages[j]).url@) == dkey
        ==> dnode.best_depth <= pages[j].best_depth)
    &&& (forall|e: int| 0 <= e < dnode.out@.len() ==> (#[trigger] dnode.out@[e])@ != dkey)
    &&& views_of(dnode.out@) == agg_out(pages, dkey, upto)
}

/// A domain entry that aggregates the first `upto` pages, whose domain the
/// next page does not lie on, also aggregates the first `upto + 1`.
pub proof fn lemma_entry_ok_extend(pages: Seq<Node>, dkey: Seq<char>, dnode: Node, upto: int)
    requires
        0 <= upto < pages.len(),
        domain_spec(pages[upto].url@) != dkey,
        domain_entry_ok(pages, dkey, dnode, upto),
    ensures
        domain_entry_ok(pages, dkey, dnode, upto + 1),
{
    lemma_agg_take_succ(pages, dkey, upto);
    lemma_depth_from_pages_extend(pages, dkey, dnode.best_depth, upto);
    assert(agg_out(pages, dkey, upto + 1) =~= agg_out(pages, dkey, upto));
}

/// An insertion-ordered map from canonical URL (or domain) to node.
pub struct NodeMap {
    pub keys: Vec<String>,
    pub vals: Vec<Node>,
}

impl NodeMap {
    /// Keys are unique, aligned with the values, and each node is keyed by
    /// its own URL.
    pub open spec fn wf(self) -> bool {
        &&& self.keys@.len() == self.vals@.len()
        &&& forall|i: int, j: int| 0 <= i < j < self.keys@.len()
            ==> self.keys@[i]@ != self.keys@[j]@
        &&& forall|i: int| 0 <= i < self.keys@.len()
            ==> (#[trigger] self.vals@[i]).url@ == self.keys@[i]@
    }

    pub open spec fn spec_len(self) -> int {
        self.keys@.len() as int
    }

    pub open spec fn contains_key(self, k: Seq<char>) -> bool {
        exists|i: int| 0 <= i < self.keys@.len() && self.keys@[i]@ == k
    }

    /// The index of key `k`; meaningful only when `contains_key(k)`.
    pub open spec fn key_index_spec(self, k: Seq<char>) -> int {
        choose|i: int| 0 <= i < self.keys@.len() && self.keys@[i]@ == k
    }

    /// The node stored under key `k`; meaningful only when `contains_key(k)`.
    pub open spec fn node_of(self, k: Seq<char>) -> Node {
        self.vals@[self.key_index_spec(k)]
    }

    /// In a well-formed map, the index of the `i`th key is `i`.
    pub proof fn lemma_key_index_of(self, i: int)
        requires
            self.wf(),
            0 <= i < self.keys@.len(),
        ensures
            self.contains_key(self.keys@[i]@),
            self.key_index_spec(self.keys@[i]@) == i,
    {
        assert(self.contains_key(self.keys@[i]@)) by {
            assert(self.keys@[i]@ == self.keys@[i]@);
        }
        let j = self.key_index_spec(self.keys@[i]@);
        if i < j {
            assert(self.keys@[i]@ != self.keys@[j]@);
        }
        if j < i {
            assert(self.keys@[j]@ != self.keys@[i]@);
        }
    }

    pub fn new() -> (r: NodeMap)
        ensures
            r.wf(),
            r.keys@.len() == 0,
            r.vals@.len() == 0,
    {
        NodeMap { keys: Vec::new(), vals: Vec::new() }
    }

    pub fn len(&self) -> (r: usize)
        ensures
            r == self.keys@.len(),
    {
        self.keys.len()
    }

    /// Index of `k` among the keys, if present.
    pub fn key_index(&self, k: &str) -> (r: Option<usize>)
        requires
            self.wf(),
        ensures
            match r {
                Some(i) => i < self.keys@.len() && self.keys@[i as int]@ == k@
                    && self.contains_key(k@) && self.key_index_spec(k@) == i,
                None => !self.contains_key(k@),
            },
    {
        let n = self.keys.len();
        let mut i: usize = 0;
        while i < n
            invariant
                self.wf(),
                i <= n,
                n == self.keys@.len(),
                forall|j: int| 0 <= j < i ==> self.keys@[j]@ != k@,
            decreases n - i,
        {
            if crate::url::str_eq(self.keys[i].as_str(), k) {
                proof {
                    self.lemma_key_index_of(i as int);
                }
                return Some(i);
            }
            i += 1;
        }
        None
    }

    /// Looks a node up by its key.
    pub fn get(&self, k: &str) -> (r: Option<&Node>)
        requires
            self.wf(),
        ensures
            match r {
                Some(n) => self.contains_key(k@) && *n == self.node_of(k@),
                None => !self.contains_key(k@),
            },
    {
        match self.key_index(k) {
            Some(i) => Some(&self.vals[i]),
            None => None,
        }
    }

    /// Inserts `val` under `key`; an existing entry with the same key is
    /// replaced in place (last write wins), a new key goes to the end.
    pub fn insert(&mut self, key: String, val: Node)
        requires
            old(self).wf(),
            val.url@ == key@,
        ensures
            final(self).wf(),
            old(self).contains_key(key@) ==> {
                &&& final(self).keys@ == old(self).keys@
                &&& final(self).vals@ == old(self).vals@.update(
                    old(self).key_index_spec(key@), val)
            },
            !old(self).contains_key(key@) ==> {
                &&& final(self).keys@ == old(self).keys@.push(key)
                &&& final(self).vals@ == old(self).vals@.push(val)
            },
    {
        match self.key_index(key.as_str()) {
            Some(i) => {
                self.vals.set(i, val);
            },
            None => {
                self.keys.push(key);
                self.vals.push(val);
            },
        }
    }
}

/// Clones a vector of strings, value for value.
pub fn clone_strings(v: &Vec<String>) -> (r: Vec<String>)
    ensures
        r@.len() == v@.len(),
        forall|i: int| 0 <= i < v@.len() ==> #[trigger] r@[i]@ == v@[i]@,
{
    let mut r: Vec<String> = Vec::new();
    let n = v.len();
    let mut i: usize = 0;
    while i < n
        invariant
            i <= n,
            n == v@.len(),
            r@.len() == i,
            forall|j: int| 0 <= j < i ==> #[trigger] r@[j]@ == v@[j]@,
        decreases n - i,
    {
        r.push(v[i].clone());
        i += 1;
    }
    r
}

impl Node {
    /// Canonicalizes a URL (scheme, `www.`, and query string stripped).
    pub fn preprocess_url(url: String) -> (r: String)
        ensures
            r@ == normalize_spec(url@),
    {
        normalize_url(url.as_str())
    }

    /// Canonicalizes the URL and every outbound URL of each record.
    pub fn preprocess_urls_for_pages(pages: Vec<PageRecord>) -> (r: Vec<PageRecord>)
        ensures
            r@.len() == pages@.len(),
            forall|i: int| 0 <= i < pages@.len() ==> {
                &&& (#[trigger] r@[i]).id == pages@[i].id
                &&& r@[i].depth == pages@[i].depth
                &&& r@[i].url@ == normalize_spec(pages@[i].url@)
                &&& r@[i].outbound_urls@.len() == pages@[i].outbound_urls@.len()
                &&& forall|j: int| 0 <= j < pages@[i].outbound_urls@.len()
                    ==> (#[trigger] r@[i].outbound_urls@[j])@
                        == normalize_spec(pages@[i].outbound_urls@[j]@)
            },
    {
        let mut r: Vec<PageRecord> = Vec::new();
        let n = pages.len();
        let mut i: usize = 0;
        while i < n
            invariant
                i <= n,
                n == pages@.len(),
                r@.len() == i,
                forall|ii: int| 0 <= ii < i ==> {
                    &&& (#[trigger] r@[ii]).id == pages@[ii].id
                    &&& r@[ii].depth == pages@[ii].depth
                    &&& r@[ii].url@ == normalize_spec(pages@[ii].url@)
                    &&& r@[ii].outbound_urls@.len() == pages@[ii].outbound_urls@.len()
                    &&& forall|j: int| 0 <= j < pages@[ii].outbound_urls@.len()
                        ==> (#[trigger] r@[ii].outbound_urls@[j])@
                            == normalize_spec(pages@[ii].outbound_urls@[j]@)
                },
            decreases n - i,
        {
            let page = &pages[i];
            let url = normalize_url(page.url.as_str());
            let mut outs: Vec<String> = Vec::new();
            let m = page.outbound_urls.len();
            let mut j: usize = 0;
            while j < m
                invariant
                    j <= m,
                    m == page.outbound_urls@.len(),
                    outs@.len() == j,
                    forall|jj: int| 0 <= jj < j ==> (#[trigger] outs@[jj])@
                        == normalize_spec(page.outbound_urls@[jj]@),
                decreases m - j,
            {
                outs.push(normalize_url(page.outbound_urls[j].as_str()));
                j += 1;
            }
            r.push(PageRecord { id: page.id, url, outbound_urls: outs, depth: page.depth });
            i += 1;
        }
        r
    }

    /// Builds the page graph: one node per record, keyed by canonical URL,
    /// last write winning on duplicate keys. Each node's edge list keeps only
    /// outbound URLs that differ from the node's own URL and resolve to a
    /// different domain, so no node ever links to itself or to its own
    /// domain.
    pub fn from_db(pages: Vec<PageRecord>) -> (g: NodeMap)
        ensures
            g.wf(),
            g.keys@.len() == first_count(pages@, pages@.len() as int),
            g.keys@.len() <= pages@.len(),
            forall|i: int| 0 <= i < g.vals@.len() ==> node_out_ok(#[trigger] g.vals@[i]),
            forall|i: int| 0 <= i < g.vals@.len()
                ==> page_entry_ok(pages@, g.keys@[i]@, #[trigger] g.vals@[i],
                        pages@.len() as int),
            forall|j: int| 0 <= j < pages@.len()
                ==> g.contains_key(normalize_spec((#[trigger] pages@[j]).url@)),
    {
        let ghost orig = pages@;
        let pages = Self::preprocess_urls_for_pages(pages);
        let mut g = NodeMap::new();
        let n = pages.len();
        let mut i: usize = 0;
        while i < n
            invariant
                i <= n,
                n == pages@.len(),
                n == orig.len(),
                forall|j: int| 0 <= j < n ==> {
                    &&& (#[trigger] pages@[j]).url@ == normalize_spec(orig[j].url@)
                    &&& pages@[j].id == orig[j].id
                    &&& pages@[j].depth == orig[j].depth
                    &&& pages@[j].outbound_urls@.len() == orig[j].outbound_urls@.len()
                    &&& forall|jj: int| 0 <= jj < orig[j].outbound_urls@.len()
                        ==> (#[trigger] pages@[j].outbound_urls@[jj])@
                            == normalize_spec(orig[j].outbound_urls@[jj]@)
                },
                g.wf(),
                g.keys@.len() <= i,
                g.keys@.len() == first_count(orig, i as int),
                forall|k: int| 0 <= k < g.vals@.len() ==> node_out_ok(#[trigger] g.vals@[k]),
                forall|k: int| 0 <= k < g.vals@.len()
                    ==> page_entry_ok(orig, g.keys@[k]@, #[trigger] g.vals@[k], i as int),
                forall|j: int| 0 <= j < i
                    ==> g.contains_key(normalize_spec((#[trigger] orig[j]).url@)),
            decreases n - i,
        {
            let page = &pages[i];
            let domain = url_to_domain(page.url.as_str());
            let ghost nouts = normalized_outs(orig[i as int]);
            proof {
                assert(nouts.len() == page.outbound_urls@.len());
                assert(forall|jj: int| 0 <= jj < nouts.len()
                    ==> (#[trigger] page.outbound_urls@[jj])@ == nouts[jj]);
                assert(kept_out(nouts.take(0), page.url@) =~= Seq::<Seq<char>>::empty());
                assert(views_of(Seq::<String>::empty()) =~= Seq::<Seq<char>>::empty());
            }
            let mut outbound: Vec<String> = Vec::new();
            let m = page.outbound_urls.len();
            let mut j: usize = 0;
            while j < m
                invariant
                    j <= m,
                    m == page.outbound_urls@.len(),
                    m == nouts.len(),
                    forall|jj: int| 0 <= jj < m
                        ==> (#[trigger] page.outbound_urls@[jj])@ == nouts[jj],
                    domain@ == domain_spec(page.url@),
                    forall|k: int| 0 <= k < outbound@.len()
                        ==> #[trigger] outbound@[k]@ != page.url@
                            && domain_spec(outbound@[k]@) != domain_spec(page.url@),
                    views_of(outbound@) == kept_out(nouts.take(j as int), page.url@),
                decreases m - j,
            {
                proof {
                    lemma_kept_out_take_succ(nouts, page.url@, j as int);
                }
                let o = &page.outbound_urls[j];
                let od = url_to_domain(o.as_str());
                if !(*o == page.url) && !(od == domain) {
                    let ghost pre_out = outbound@;
                    outbound.push(o.clone());
                    proof {
                        assert(views_of(outbound@) =~= views_of(pre_out).push(o@));
                    }
                }
                j += 1;
            }
            let node = Node {
                id: page.id,
                out: outbound,
                url: page.url.clone(),
                score: SCALE,
                best_depth: page.depth,
                individual_pages: 1,
            };
            let ghost nval = node;
            let ghost pre = g;
            let ghost kkey = pages@[i as int].url@;
            g.insert(page.url.clone(), node);
            proof {
                assert(nouts.take(m as int) =~= nouts);
                assert(views_of(nval.out@) == kept_out(normalized_outs(orig[i as int]),
                    kkey));
                assert(normalize_spec(orig[i as int].url@) == kkey);
                assert(last_match(orig, kkey, i as int + 1) == i);
                assert(page_entry_ok(orig, kkey, nval, i as int + 1));
                lemma_last_match(orig, kkey, i as int);
                if pre.contains_key(kkey) {
                    let w = pre.key_index_spec(kkey);
                    assert(page_entry_ok(orig, pre.keys@[w]@, pre.vals@[w], i as int));
                    assert(last_match(orig, kkey, i as int) >= 0);
                    assert(first_count(orig, i as int + 1) == first_count(orig, i as int));
                    assert(g.keys@[w]@ == kkey);
                } else {
                    assert forall|j2: int| 0 <= j2 < i
                        implies normalize_spec((#[trigger] orig[j2]).url@) != kkey by {
                        if normalize_spec(orig[j2].url@) == kkey {
                            assert(pre.contains_key(normalize_spec(orig[j2].url@)));
                        }
                    }
                    assert(last_match(orig, kkey, i as int) == -1) by {
                        let lm = last_match(orig, kkey, i as int);
                        if lm >= 0 {
                            assert(0 <= lm < i);
                            assert(normalize_spec(orig[lm].url@) == kkey);
                            assert(normalize_spec((orig[lm]).url@) != kkey);
                        }
                    }
                    assert(first_count(orig, i as int + 1)
                        == first_count(orig, i as int) + 1);
                }
                assert forall|k: int| 0 <= k < g.vals@.len()
                    implies page_entry_ok(orig, g.keys@[k]@, #[trigger] g.vals@[k],
                        i as int + 1) by {
                    if g.keys@[k]@ == kkey {
                        assert(g.vals@[k] == nval) by {
                            if pre.contains_key(kkey) {
                                let w = pre.key_index_spec(kkey);
                                if k != w {
                                    assert(g.keys@[k]@ != g.keys@[w]@);
                                }
                            } else {
                                if k < pre.keys@.len() {
                                    assert(pre.contains_key(kkey)) by {
                                        assert(pre.keys@[k]@ == kkey);
                                    }
                                }
                            }
                        }
                    } else {
                        assert(g.vals@[k] == pre.vals@[k]) by {
                            if pre.contains_key(kkey) {
                                let w = pre.key_index_spec(kkey);
                                assert(g.keys@[w]@ == kkey);
                                assert(k != w);
                            } else {
                                assert(k < pre.keys@.len()) by {
                                    if k == pre.keys@.len() as int {
                                        assert(g.keys@[k]@ == kkey);
                                    }
                                }
                            }
                        }
                        assert(page_entry_ok(orig, g.keys@[k]@, g.vals@[k], i as int));
                        assert(last_match(orig, g.keys@[k]@, i as int + 1)
                            == last_match(orig, g.keys@[k]@, i as int));
                    }
                }
                assert forall|j2: int| 0 <= j2 < i + 1
                    implies g.contains_key(normalize_spec(
                        (#[trigger] orig[j2]).url@)) by {
                    if j2 == i {
                        if pre.contains_key(kkey) {
                            let w = pre.key_index_spec(kkey);
                            assert(g.keys@[w]@ == normalize_spec(orig[j2].url@));
                        } else {
                            assert(g.keys@[pre.keys@.len() as int]@
                                == normalize_spec(orig[j2].url@));
                        }
                    } else {
                        assert(pre.contains_key(normalize_spec(orig[j2].url@)));
                        let w = choose|w: int| 0 <= w < pre.keys@.len()
                            && (#[trigger] pre.keys@[w])@ == normalize_spec(
                                orig[j2].url@);
                        assert(g.keys@[w]@ == normalize_spec(orig[j2].url@));
                    }
                }
            }
            i += 1;
        }
        g
    }

    /// Collapses the page graph into a domain graph.

    /// Collapses the page graph into a domain graph. Each domain node sums
    /// the scores and counts the pages of its domain, takes the least crawl
    /// depth seen, and concatenates the domains its pages link out to —
    /// excluding itself, and deliberately without deduplication: a domain
    /// linked from many pages appears that many times.
    pub fn convert_to_domains(nodes: &NodeMap) -> (d: NodeMap)
        requires
            nodes.wf(),
            sum_node_scores(nodes.vals@) <= MAX_MASS,
        ensures
            d.wf(),
            d.keys@.len() <= nodes.keys@.len(),
            sum_node_scores(d.vals@) == sum_node_scores(nodes.vals@),
            forall|k: int| 0 <= k < d.keys@.len()
                ==> key_from_pages(nodes.vals@, (#[trigger] d.keys@[k])@,
                        nodes.vals@.len() as int),
            forall|j: int| 0 <= j < nodes.vals@.len()
                ==> d.contains_key(domain_spec((#[trigger] nodes.vals@[j]).url@)),
            forall|k: int| 0 <= k < d.vals@.len()
                ==> domain_entry_ok(nodes.vals@, d.keys@[k]@, #[trigger] d.vals@[k],
                        nodes.vals@.len() as int),
    {
        let ghost pvals = nodes.vals@;
        let mut d = NodeMap::new();
        let n = nodes.len();
        let mut i: usize = 0;
        proof {
            assert(pvals.take(0) =~= Seq::<Node>::empty());
        }
        while i < n
            invariant
                nodes.wf(),
                pvals == nodes.vals@,
                sum_node_scores(pvals) <= MAX_MASS,
                i <= n,
                n == nodes.keys@.len(),
                d.wf(),
                d.keys@.len() <= i,
                sum_node_scores(d.vals@) == sum_node_scores(pvals.take(i as int)),
                forall|k: int| 0 <= k < d.keys@.len()
                    ==> key_from_pages(pvals, (#[trigger] d.keys@[k])@, i as int),
                forall|j: int| 0 <= j < i
                    ==> d.contains_key(domain_spec((#[trigger] pvals[j]).url@)),
                forall|k: int| 0 <= k < d.vals@.len()
                    ==> domain_entry_ok(pvals, d.keys@[k]@, #[trigger] d.vals@[k], i as int),
            decreases n - i,
        {
            let domain = url_to_domain(nodes.keys[i].as_str());
            let node_score = nodes.vals[i].score;
            let node_depth = nodes.vals[i].best_depth;
            proof {
                assert(domain@ == domain_spec(pvals[i as int].url@));
                lemma_sum64_elem_le(scores_of(pvals), i as int);
                assert(scores_of(pvals)[i as int] == pvals[i as int].score);
                lemma_sum_node_scores_take_succ(pvals, i as int);
            }
            match d.key_index(domain.as_str()) {
                Some(di) => {
                    let ghost dkey = d.keys@[di as int]@;
                    let ghost oldnode = d.vals@[di as int];
                    proof {
                        assert(dkey == domain@);
                        assert(domain_entry_ok(pvals, dkey, oldnode, i as int));
                        lemma_agg_bounds(pvals.take(i as int), domain@);
                        lemma_sum_node_scores_take_le(pvals, i as int);
                    }
                    let entry_id = d.vals[di].id;
                    let entry_score = d.vals[di].score;
                    let entry_depth = d.vals[di].best_depth;
                    let entry_pages = d.vals[di].individual_pages;
                    let entry_url = d.vals[di].url.clone();
                    let mut newout = clone_strings(&d.vals[di].out);
                    let ghost base = d.vals@[di as int].out@;
                    proof {
                        assert(views_of(newout@) =~= views_of(base));
                        assert(views_of(base)
                            + out_domains_excl(pvals[i as int].out@.take(0), domain@)
                            =~= views_of(base));
                    }
                    let m = nodes.vals[i].out.len();
                    let mut j: usize = 0;
                    while j < m
                        invariant
                            nodes.wf(),
                            pvals == nodes.vals@,
                            i < pvals.len(),
                            j <= m,
                            m == pvals[i as int].out@.len(),
                            domain@ == domain_spec(pvals[i as int].url@),
                            newout@.len() >= base.len(),
                            forall|e: int| 0 <= e < base.len()
                                ==> (#[trigger] newout@[e])@ == base[e]@,
                            forall|e: int| base.len() <= e < newout@.len()
                                ==> (#[trigger] newout@[e])@ != domain@,
                            views_of(newout@) == views_of(base) + out_domains_excl(
                                pvals[i as int].out@.take(j as int), domain@),
                        decreases m - j,
                    {
                        proof {
                            lemma_ode_take_succ(pvals[i as int].out@, domain@, j as int);
                        }
                        let od = url_to_domain(nodes.vals[i].out[j].as_str());
                        if !(od == domain) {
                            let ghost pre_out = newout@;
                            newout.push(od);
                            proof {
                                assert(views_of(newout@) =~= views_of(pre_out).push(od@));
                                assert(views_of(base) + out_domains_excl(
                                    pvals[i as int].out@.take(j as int), domain@).push(od@)
                                    =~= (views_of(base) + out_domains_excl(
                                        pvals[i as int].out@.take(j as int),
                                        domain@)).push(od@));
                            }
                        }
                        j += 1;
                    }
                    let ghost outseq = newout@;
                    proof {
                        assert(pvals[i as int].out@.take(m as int)
                            =~= pvals[i as int].out@);
                        assert(views_of(outseq) == views_of(base) + out_domains_excl(
                            pvals[i as int].out@, domain@));
                        assert forall|e: int| 0 <= e < outseq.len()
                            implies (#[trigger] outseq[e])@ != dkey by {
                            assert(newout@[e] == outseq[e]);
                            if e < base.len() {
                                assert(oldnode.out@[e]@ == outseq[e]@);
                                assert(oldnode.out@[e]@ != dkey);
                            }
                        }
                    }
                    let new_depth = if node_depth < entry_depth {
                        node_depth
                    } else {
                        entry_depth
                    };
                    let new_node = Node {
                        id: entry_id,
                        out: newout,
                        url: entry_url,
                        score: entry_score + node_score,
                        best_depth: new_depth,
                        individual_pages: entry_pages + 1,
                    };
                    let ghost pre = d;
                    d.vals.set(di, new_node);
                    proof {
                        lemma_sum_node_scores_update(pre.vals@, di as int, new_node);
                        lemma_agg_take_succ(pvals, domain@, i as int);
                        if node_depth < entry_depth {
                            assert(depth_from_pages(pvals, dkey, new_node.best_depth,
                                i as int + 1)) by {
                                assert(0 <= i < i + 1 && domain_spec(
                                    (pvals[i as int]).url@) == dkey
                                    && pvals[i as int].best_depth == new_node.best_depth);
                            }
                        } else {
                            lemma_depth_from_pages_extend(pvals, dkey,
                                oldnode.best_depth, i as int);
                        }
                        assert(new_node.out@ == outseq);
                        assert forall|e: int| 0 <= e < new_node.out@.len()
                            implies (#[trigger] new_node.out@[e])@ != dkey by {
                            assert(new_node.out@[e] == outseq[e]);
                            assert(outseq[e]@ != dkey);
                        }
                        assert(views_of(oldnode.out@) == agg_out(pvals, dkey, i as int));
                        assert(views_of(base) =~= views_of(oldnode.out@));
                        assert(agg_out(pvals, dkey, i as int + 1) =~= agg_out(pvals, dkey,
                            i as int) + out_domains_excl(pvals[i as int].out@, dkey));
                        assert(views_of(new_node.out@) == agg_out(pvals, dkey,
                            i as int + 1));
                        assert(domain_entry_ok(pvals, dkey, d.vals@[di as int],
                            i as int + 1));
                        assert forall|k: int| 0 <= k < d.vals@.len()
                            implies domain_entry_ok(pvals, d.keys@[k]@,
                                #[trigger] d.vals@[k], i as int + 1) by {
                            if k != di {
                                assert(domain_entry_ok(pvals, d.keys@[k]@,
                                    pre.vals@[k], i as int));
                                assert(d.keys@[k]@ != d.keys@[di as int]@);
                                lemma_entry_ok_extend(pvals, d.keys@[k]@, d.vals@[k],
                                    i as int);
                            }
                        }
                        assert forall|k: int| 0 <= k < d.keys@.len()
                            implies key_from_pages(pvals, (#[trigger] d.keys@[k])@,
                                i as int + 1) by {
                            lemma_key_from_pages_extend(pvals, d.keys@[k]@, i as int);
                        }
                        assert forall|j2: int| 0 <= j2 < i + 1
                            implies d.contains_key(
                                domain_spec((#[trigger] pvals[j2]).url@)) by {
                            if j2 == i {
                                assert(d.keys@[di as int]@ == domain@);
                            }
                        }
                    }
                },
                None => {
                    proof {
                        assert forall|j2: int| 0 <= j2 < i
                            implies domain_spec((#[trigger] pvals[j2]).url@) != domain@ by {
                            if domain_spec(pvals[j2].url@) == domain@ {
                                assert(d.contains_key(domain_spec(pvals[j2].url@)));
                            }
                        }
                        assert(forall|j2: int| 0 <= j2 < pvals.take(i as int).len()
                            ==> domain_spec((#[trigger] pvals.take(i as int)[j2]).url@)
                                != domain@);
                        lemma_agg_zero(pvals.take(i as int), domain@);
                        lemma_agg_take_succ(pvals, domain@, i as int);
                    }
                    let mut newout: Vec<String> = Vec::new();
                    proof {
                        assert(views_of(newout@) =~= Seq::<Seq<char>>::empty());
                        assert(out_domains_excl(pvals[i as int].out@.take(0), domain@)
                            =~= Seq::<Seq<char>>::empty());
                    }
                    let m = nodes.vals[i].out.len();
                    let mut j: usize = 0;
                    while j < m
                        invariant
                            nodes.wf(),
                            pvals == nodes.vals@,
                            i < pvals.len(),
                            j <= m,
                            m == pvals[i as int].out@.len(),
                            domain@ == domain_spec(pvals[i as int].url@),
                            forall|e: int| 0 <= e < newout@.len()
                                ==> (#[trigger] newout@[e])@ != domain@,
                            views_of(newout@) == out_domains_excl(
                                pvals[i as int].out@.take(j as int), domain@),
                        decreases m - j,
                    {
                        proof {
                            lemma_ode_take_succ(pvals[i as int].out@, domain@, j as int);
                        }
                        let od = url_to_domain(nodes.vals[i].out[j].as_str());
                        if !(od == domain) {
                            let ghost pre_out = newout@;
                            newout.push(od);
                            proof {
                                assert(views_of(newout@) =~= views_of(pre_out).push(od@));
                            }
                        }
                        j += 1;
                    }
                    let ghost outseq = newout@;
                    proof {
                        assert(pvals[i as int].out@.take(m as int)
                            =~= pvals[i as int].out@);
                        assert(views_of(outseq) == out_domains_excl(pvals[i as int].out@,
                            domain@));
                    }
                    let new_node = Node {
                        id: 0,
                        out: newout,
                        url: domain.clone(),
                        score: node_score,
                        best_depth: node_depth,
                        individual_pages: 1,
                    };
                    let ghost pre = d;
                    d.insert(domain, new_node);
                    proof {
                        lemma_sum_node_scores_push(pre.vals@, new_node);
                        let ghost nk = pre.keys@.len() as int;
                        assert(d.keys@[nk]@ == domain@);
                        assert(depth_from_pages(pvals, domain@, new_node.best_depth,
                            i as int + 1)) by {
                            assert(0 <= i < i + 1 && domain_spec(
                                (pvals[i as int]).url@) == domain@
                                && pvals[i as int].best_depth == new_node.best_depth);
                        }
                        assert(new_node.out@ == outseq);
                        assert forall|e: int| 0 <= e < new_node.out@.len()
                            implies (#[trigger] new_node.out@[e])@ != domain@ by {
                            assert(new_node.out@[e] == outseq[e]);
                            assert(outseq[e]@ != domain@);
                        }
                        lemma_agg_out_empty(pvals, domain@, i as int);
                        assert(agg_out(pvals, domain@, i as int + 1)
                            =~= out_domains_excl(pvals[i as int].out@, domain@));
                        assert(views_of(new_node.out@) == agg_out(pvals, domain@,
                            i as int + 1));
                        assert(domain_entry_ok(pvals, d.keys@[nk]@, d.vals@[nk],
                            i as int + 1));
                        assert forall|k: int| 0 <= k < d.vals@.len()
                            implies domain_entry_ok(pvals, d.keys@[k]@,
                                #[trigger] d.vals@[k], i as int + 1) by {
                            if k != nk {
                                assert(d.keys@[k] == pre.keys@[k]);
                                assert(d.vals@[k] == pre.vals@[k]);
                                assert(domain_entry_ok(pvals, d.keys@[k]@,
                                    pre.vals@[k], i as int));
                                assert(d.keys@[k]@ != domain@) by {
                                    if d.keys@[k]@ == domain@ {
                                        assert(pre.contains_key(domain@));
                                    }
                                }
                                lemma_entry_ok_extend(pvals, d.keys@[k]@, d.vals@[k],
                                    i as int);
                            }
                        }
                        assert forall|k: int| 0 <= k < d.keys@.len()
                            implies key_from_pages(pvals, (#[trigger] d.keys@[k])@,
                                i as int + 1) by {
                            if k == nk {
                                assert(key_from_pages(pvals, domain@, i as int + 1)) by {
                                    assert(0 <= i < i + 1 && domain_spec(
                                        (pvals[i as int]).url@) == domain@);
                                }
                            } else {
                                assert(d.keys@[k] == pre.keys@[k]);
                                assert(key_from_pages(pvals, d.keys@[k]@, i as int));
                                lemma_key_from_pages_extend(pvals, d.keys@[k]@, i as int);
                            }
                        }
                        assert forall|j2: int| 0 <= j2 < i + 1
                            implies d.contains_key(
                                domain_spec((#[trigger] pvals[j2]).url@)) by {
                            if j2 < i {
                                assert(pre.contains_key(domain_spec(pvals[j2].url@)));
                                let w = choose|w: int| 0 <= w < pre.keys@.len()
                                    && pre.keys@[w]@ == domain_spec(pvals[j2].url@);
                                assert(d.keys@[w]@ == domain_spec(pvals[j2].url@));
                            } else {
                                assert(d.keys@[nk]@ == domain@);
                            }
                        }
                    }
                },
            }
            i += 1;
        }
        proof {
            assert(pvals.take(n as int) =~= pvals);
        }
        d
    }
}

} // verus!
