//! The bounded-depth, level-synchronous crawl.
//!
//! At the mathematical level a crawl is a recursion over rounds (`expand`):
//! each round expands every URL found but not yet expanded, merges the links
//! of all those pages into the found set, and marks them expanded. The
//! executable side is a step machine (`Crawl`) that hands out one URL at a
//! time and takes back that page's document text, so that a caller doing the
//! fetching drives it; `run_crawl` drives the same machine from a fixture
//! table and is proved to compute exactly the recursion's result.

use vstd::prelude::*;
use crate::extract::{page_links, extract_links, lemma_extracted_accepted, hrefs_of};
use crate::shape::{is_accepted_url, all_accepted};
use crate::urlset::{
    strset, views, no_dups, vec_difference, merge_into, lemma_strset_index,
    lemma_strset_member, lemma_strset_push, lemma_strset_decompose, lemma_views_push,
};

verus! {

/// A deterministic fetch oracle: each URL a server answers for is mapped to
/// the set of links its page yields. A URL outside the map stands for a page
/// whose fetch fails; a failed fetch yields no links.
pub type Oracle = Map<Seq<char>, Set<Seq<char>>>;

/// The links that fetching `u` under the oracle `o` yields.
pub open spec fn oracle_links(o: Oracle, u: Seq<char>) -> Set<Seq<char>> {
    if o.dom().contains(u) {
        o[u]
    } else {
        Set::empty()
    }
}

/// The links of all pages of `fs` together.
pub open spec fn round_links(o: Oracle, fs: Set<Seq<char>>) -> Set<Seq<char>> {
    Set::new(
        |u: Seq<char>|
            exists|f: Seq<char>| #[trigger] fs.contains(f) && oracle_links(o, f).contains(u),
    )
}

/// Runs `rounds` further expansion rounds from the given found and expanded
/// sets; yields the found and expanded sets after all of them.
pub open spec fn expand(
    o: Oracle,
    found: Set<Seq<char>>,
    expanded: Set<Seq<char>>,
    rounds: nat,
) -> (Set<Seq<char>>, Set<Seq<char>>)
    decreases rounds,
{
    if rounds == 0 {
        (found, expanded)
    } else {
        let fr = found.difference(expanded);
        expand(
            o,
            found.union(round_links(o, fr)),
            expanded.union(fr),
            (rounds - 1) as nat,
        )
    }
}

/// The set of URLs a depth-`depth` crawl from `seed` discovers: the seed
/// page's own links, then `depth - 1` expansion rounds.
pub open spec fn crawl_found(o: Oracle, seed: Seq<char>, depth: nat) -> Set<Seq<char>>
    recommends
        depth >= 1,
{
    expand(o, oracle_links(o, seed), Set::empty().insert(seed), (depth - 1) as nat).0
}

/// The set of URLs such a crawl fetches (the seed included).
pub open spec fn crawl_expanded(o: Oracle, seed: Seq<char>, depth: nat) -> Set<Seq<char>>
    recommends
        depth >= 1,
{
    expand(o, oracle_links(o, seed), Set::empty().insert(seed), (depth - 1) as nat).1
}

/// No page of an empty set contributes links.
pub proof fn lemma_round_links_empty(o: Oracle)
    ensures
        round_links(o, Set::empty()) == Set::<Seq<char>>::empty(),
{
    assert(round_links(o, Set::empty()) =~= Set::<Seq<char>>::empty());
}

/// Taking one more page into a set adds exactly that page's links.
pub proof fn lemma_round_links_insert(o: Oracle, fs: Set<Seq<char>>, x: Seq<char>)
    ensures
        round_links(o, fs.insert(x)) == round_links(o, fs).union(oracle_links(o, x)),
{
    assert(round_links(o, fs.insert(x)) =~= round_links(o, fs).union(oracle_links(o, x))) by {
        assert forall|u: Seq<char>| round_links(o, fs.insert(x)).contains(u) implies
            round_links(o, fs).union(oracle_links(o, x)).contains(u) by {
            let f = choose|f: Seq<char>| #[trigger] fs.insert(x).contains(f)
                && oracle_links(o, f).contains(u);
            if f == x {
            } else {
                assert(fs.contains(f) && oracle_links(o, f).contains(u));
            }
        }
        assert forall|u: Seq<char>| round_links(o, fs).union(oracle_links(o, x)).contains(u)
            implies round_links(o, fs.insert(x)).contains(u) by {
            if round_links(o, fs).contains(u) {
                let f = choose|f: Seq<char>| #[trigger] fs.contains(f)
                    && oracle_links(o, f).contains(u);
                assert(fs.insert(x).contains(f) && oracle_links(o, f).contains(u));
            } else {
                assert(fs.insert(x).contains(x) && oracle_links(o, x).contains(u));
            }
        }
    }
}

/// Both sets only grow over the rounds.
pub proof fn lemma_expand_grows(o: Oracle, f: Set<Seq<char>>, e: Set<Seq<char>>, k: nat)
    ensures
        f.subset_of(expand(o, f, e, k).0),
        e.subset_of(expand(o, f, e, k).1),
    decreases k,
{
    if k > 0 {
        let fr = f.difference(e);
        lemma_expand_grows(o, f.union(round_links(o, fr)), e.union(fr), (k - 1) as nat);
    }
}

/// One more round can only add to the found set.
pub proof fn lemma_expand_mono(o: Oracle, f: Set<Seq<char>>, e: Set<Seq<char>>, k: nat)
    ensures
        expand(o, f, e, k).0.subset_of(expand(o, f, e, (k + 1) as nat).0),
    decreases k,
{
    let fr = f.difference(e);
    if k == 0 {
        lemma_expand_grows(o, f, e, 1);
    } else {
        lemma_expand_mono(o, f.union(round_links(o, fr)), e.union(fr), (k - 1) as nat);
    }
}

/// Deepening a crawl by one round keeps everything already found.
pub proof fn lemma_monotone_in_depth(o: Oracle, seed: Seq<char>, depth: nat)
    requires
        depth >= 1,
    ensures
        crawl_found(o, seed, depth).subset_of(crawl_found(o, seed, (depth + 1) as nat)),
{
    lemma_expand_mono(o, oracle_links(o, seed), Set::empty().insert(seed), (depth - 1) as nat);
}

/// A depth-one crawl finds exactly the seed page's own links.
pub proof fn lemma_depth_one(o: Oracle, seed: Seq<char>)
    ensures
        crawl_found(o, seed, 1) == oracle_links(o, seed),
{
}

/// Once nothing is left to expand, further rounds change nothing.
pub proof fn lemma_expand_stalled(o: Oracle, f: Set<Seq<char>>, e: Set<Seq<char>>, k: nat)
    requires
        f.difference(e) == Set::<Seq<char>>::empty(),
    ensures
        expand(o, f, e, k) == (f, e),
    decreases k,
{
    if k > 0 {
        let fr = f.difference(e);
        lemma_round_links_empty(o);
        assert(f.union(round_links(o, fr)) =~= f);
        assert(e.union(fr) =~= e);
        lemma_expand_stalled(o, f, e, (k - 1) as nat);
    }
}

/// A seed page that yields no links ends the crawl at once: nothing is found
/// and nothing beyond the seed is fetched, at any depth.
pub proof fn lemma_empty_seed(o: Oracle, seed: Seq<char>, depth: nat)
    requires
        depth >= 1,
        oracle_links(o, seed) == Set::<Seq<char>>::empty(),
    ensures
        crawl_found(o, seed, depth) == Set::<Seq<char>>::empty(),
        crawl_expanded(o, seed, depth) == Set::<Seq<char>>::empty().insert(seed),
{
    assert(Set::<Seq<char>>::empty().difference(Set::empty().insert(seed))
        =~= Set::<Seq<char>>::empty());
    lemma_expand_stalled(o, Set::empty(), Set::empty().insert(seed), (depth - 1) as nat);
}

/// Whatever gets expanded was found first, or was expanded at the start.
pub proof fn lemma_expand_within_found(o: Oracle, f: Set<Seq<char>>, e: Set<Seq<char>>, k: nat)
    ensures
        expand(o, f, e, k).1.subset_of(expand(o, f, e, k).0.union(e)),
    decreases k,
{
    if k > 0 {
        let fr = f.difference(e);
        let f2 = f.union(round_links(o, fr));
        lemma_expand_within_found(o, f2, e.union(fr), (k - 1) as nat);
        lemma_expand_grows(o, f2, e.union(fr), (k - 1) as nat);
        assert forall|u: Seq<char>| expand(o, f, e, k).1.contains(u) implies expand(
            o,
            f,
            e,
            k,
        ).0.union(e).contains(u) by {
            assert(expand(o, f2, e.union(fr), (k - 1) as nat).0.union(e.union(fr)).contains(u));
        }
    }
}

/// Only the seed is ever fetched without having been found as a link first.
pub proof fn lemma_expanded_within_found(o: Oracle, seed: Seq<char>, depth: nat)
    requires
        depth >= 1,
    ensures
        crawl_expanded(o, seed, depth).subset_of(
            crawl_found(o, seed, depth).insert(seed),
        ),
{
    lemma_expand_within_found(
        o,
        oracle_links(o, seed),
        Set::empty().insert(seed),
        (depth - 1) as nat,
    );
}

/// Two oracles that serve every URL alike drive the crawl alike.
pub proof fn lemma_expand_oracle_agree(
    o1: Oracle,
    o2: Oracle,
    f: Set<Seq<char>>,
    e: Set<Seq<char>>,
    k: nat,
)
    requires
        forall|u: Seq<char>| #[trigger] oracle_links(o1, u) == oracle_links(o2, u),
    ensures
        expand(o1, f, e, k) == expand(o2, f, e, k),
    decreases k,
{
    if k > 0 {
        let fr = f.difference(e);
        assert(round_links(o1, fr) =~= round_links(o2, fr)) by {
            assert forall|u: Seq<char>| round_links(o1, fr).contains(u) implies
                round_links(o2, fr).contains(u) by {
                let g = choose|g: Seq<char>| #[trigger] fr.contains(g)
                    && oracle_links(o1, g).contains(u);
                assert(oracle_links(o1, g) == oracle_links(o2, g));
            }
            assert forall|u: Seq<char>| round_links(o2, fr).contains(u) implies
                round_links(o1, fr).contains(u) by {
                let g = choose|g: Seq<char>| #[trigger] fr.contains(g)
                    && oracle_links(o2, g).contains(u);
                assert(oracle_links(o1, g) == oracle_links(o2, g));
            }
        }
        lemma_expand_oracle_agree(o1, o2, f.union(round_links(o1, fr)), e.union(fr), (k - 1) as nat);
    }
}

/// A page whose fetch fails contributes exactly what a page that serves no
/// links contributes: the rest of the crawl is unchanged either way.
pub proof fn lemma_failed_page_like_empty_page(o: Oracle, p: Seq<char>, seed: Seq<char>, depth: nat)
    requires
        depth >= 1,
    ensures
        crawl_found(o.remove(p), seed, depth) == crawl_found(
            o.insert(p, Set::empty()),
            seed,
            depth,
        ),
{
    let o1 = o.remove(p);
    let o2 = o.insert(p, Set::empty());
    assert forall|u: Seq<char>| #[trigger] oracle_links(o1, u) == oracle_links(o2, u) by {
        if u == p {
            assert(oracle_links(o1, p) =~= Set::<Seq<char>>::empty());
            assert(oracle_links(o2, p) =~= Set::<Seq<char>>::empty());
        }
    }
    assert(oracle_links(o1, seed) == oracle_links(o2, seed));
    lemma_expand_oracle_agree(
        o1,
        o2,
        oracle_links(o1, seed),
        Set::empty().insert(seed),
        (depth - 1) as nat,
    );
}

/// An oracle all of whose pages serve only URLs of the accepted shape.
pub open spec fn oracle_accepted(o: Oracle) -> bool {
    forall|k: Seq<char>, u: Seq<char>|
        o.dom().contains(k) && #[trigger] o[k].contains(u) ==> is_accepted_url(u)
}

/// Under such an oracle, everything the rounds add is of the accepted shape.
pub proof fn lemma_expand_accepted(o: Oracle, f: Set<Seq<char>>, e: Set<Seq<char>>, k: nat)
    requires
        oracle_accepted(o),
        forall|u: Seq<char>| #[trigger] f.contains(u) ==> is_accepted_url(u),
    ensures
        forall|u: Seq<char>| #[trigger] expand(o, f, e, k).0.contains(u) ==> is_accepted_url(u),
    decreases k,
{
    if k > 0 {
        let fr = f.difference(e);
        let f2 = f.union(round_links(o, fr));
        assert forall|u: Seq<char>| #[trigger] f2.contains(u) implies is_accepted_url(u) by {
            if round_links(o, fr).contains(u) {
                let g = choose|g: Seq<char>| #[trigger] fr.contains(g)
                    && oracle_links(o, g).contains(u);
                assert(o.dom().contains(g) && o[g].contains(u));
            }
        }
        lemma_expand_accepted(o, f2, e.union(fr), (k - 1) as nat);
        assert forall|u: Seq<char>| #[trigger] expand(o, f, e, k).0.contains(u) implies
            is_accepted_url(u) by {
            assert(expand(o, f2, e.union(fr), (k - 1) as nat).0.contains(u));
        }
    } else {
        assert forall|u: Seq<char>| #[trigger] expand(o, f, e, k).0.contains(u) implies
            is_accepted_url(u) by {
            assert(f.contains(u));
        }
    }
}

/// Every URL a crawl under such an oracle finds is of the accepted shape.
pub proof fn lemma_crawl_found_accepted(o: Oracle, seed: Seq<char>, depth: nat)
    requires
        depth >= 1,
        oracle_accepted(o),
    ensures
        forall|u: Seq<char>| #[trigger] crawl_found(o, seed, depth).contains(u)
            ==> is_accepted_url(u),
{
    assert forall|u: Seq<char>| #[trigger] oracle_links(o, seed).contains(u) implies
        is_accepted_url(u) by {
        assert(o.dom().contains(seed) && o[seed].contains(u));
    }
    lemma_expand_accepted(
        o,
        oracle_links(o, seed),
        Set::empty().insert(seed),
        (depth - 1) as nat,
    );
}

/// The crawl as a step machine. `new` schedules the seed; then, while
/// `next_url` hands out a URL, the driver fetches it and answers with
/// `deliver_page` (the document text) or `deliver_failure` (any fetch
/// error). The machine merges the page's links into the found set, marks the
/// URL expanded, and schedules the next fetch, recomputing the frontier as
/// found minus expanded between rounds.
pub struct Crawl {
    found: Vec<String>,
    expanded: Vec<String>,
    frontier: Vec<String>,
    pending: Option<String>,
    rounds: u64,
}

impl Crawl {
    /// The set of URLs found so far.
    pub closed spec fn found_set(&self) -> Set<Seq<char>> {
        strset(self.found@)
    }

    /// The found URLs in the order of first discovery.
    pub closed spec fn found_seq(&self) -> Seq<Seq<char>> {
        views(self.found@)
    }

    /// The set of URLs handed out for fetching so far (the seed included).
    pub closed spec fn expanded_set(&self) -> Set<Seq<char>> {
        strset(self.expanded@)
    }

    /// The order in which URLs were handed out for fetching.
    pub closed spec fn expanded_seq(&self) -> Seq<Seq<char>> {
        views(self.expanded@)
    }

    /// The URLs of the current round still waiting to be handed out.
    pub closed spec fn frontier_set(&self) -> Set<Seq<char>> {
        strset(self.frontier@)
    }

    /// How many URLs of the current round still wait to be handed out.
    pub closed spec fn frontier_len(&self) -> nat {
        self.frontier@.len()
    }

    /// The URL handed out and not yet answered, if any.
    pub closed spec fn pending_url(&self) -> Option<Seq<char>> {
        match self.pending {
            Some(s) => Some(s@),
            None => None,
        }
    }

    /// Expansion rounds still to run after the current round completes.
    pub closed spec fn rounds_left(&self) -> nat {
        self.rounds as nat
    }

    /// The machine's invariant: the three lists are duplicate-free, every
    /// found URL matches the accepted shape, no frontier entry was handed
    /// out yet, the pending URL has been marked expanded, and a machine with
    /// nothing pending is finished for good.
    pub closed spec fn wf(&self) -> bool {
        &&& no_dups(self.found@)
        &&& no_dups(self.expanded@)
        &&& no_dups(self.frontier@)
        &&& all_accepted(self.found@)
        &&& (forall|k: int|
            0 <= k < self.frontier@.len()
                ==> !self.expanded_set().contains(#[trigger] self.frontier@[k]@))
        &&& (self.pending_url() matches Some(p) ==> self.expanded_set().contains(p))
        &&& (self.pending_url() is None ==> self.frontier@.len() == 0 && self.rounds == 0)
    }

    /// One URL `x`, taken from the pool `from`, was handed out: it became
    /// pending, was appended to the expanded list, and the frontier holds
    /// the rest of the pool.
    pub open spec fn handed_out(pre: Crawl, post: Crawl, x: Seq<char>, from: Set<Seq<char>>) -> bool {
        &&& post.pending_url() == Some(x)
        &&& from == post.frontier_set().insert(x)
        &&& !post.frontier_set().contains(x)
        &&& !pre.expanded_set().contains(x)
        &&& post.expanded_seq() == pre.expanded_seq().push(x)
        &&& post.expanded_set() == pre.expanded_set().insert(x)
    }

    /// How one delivery changes the machine: the page's links are merged
    /// into the found set; then the next URL of the round is handed out, or,
    /// with the round over, the frontier is recomputed as found minus
    /// expanded and a fresh round starts, or the machine finishes.
    pub open spec fn step_spec(pre: Crawl, post: Crawl, links: Set<Seq<char>>) -> bool {
        let f2 = pre.found_set().union(links);
        &&& post.found_set() == f2
        &&& if pre.frontier_len() > 0 {
            &&& (post.pending_url() matches Some(x)
                && Self::handed_out(pre, post, x, pre.frontier_set()))
            &&& post.frontier_len() < pre.frontier_len()
            &&& post.rounds_left() == pre.rounds_left()
        } else if pre.rounds_left() > 0
            && f2.difference(pre.expanded_set()) != Set::<Seq<char>>::empty() {
            &&& (post.pending_url() matches Some(x)
                && Self::handed_out(pre, post, x, f2.difference(pre.expanded_set())))
            &&& post.rounds_left() == (pre.rounds_left() - 1) as nat
        } else {
            &&& post.pending_url() is None
            &&& post.frontier_len() == 0
            &&& post.expanded_seq() == pre.expanded_seq()
            &&& post.expanded_set() == pre.expanded_set()
            &&& post.rounds_left() == 0
        }
    }

    /// Starts a crawl: the seed is scheduled as the first fetch, and
    /// `depth - 1` expansion rounds follow it.
    pub fn new(seed: String, depth: u64) -> (c: Crawl)
        requires
            depth >= 1,
        ensures
            c.wf(),
            c.found_set() == Set::<Seq<char>>::empty(),
            c.expanded_seq() == Seq::<Seq<char>>::empty().push(seed@),
            c.expanded_set() == Set::<Seq<char>>::empty().insert(seed@),
            c.frontier_len() == 0,
            c.pending_url() == Some(seed@),
            c.rounds_left() == (depth - 1) as nat,
    {
        let mut expanded: Vec<String> = Vec::new();
        expanded.push(seed.clone());
        let c = Crawl {
            found: Vec::new(),
            expanded,
            frontier: Vec::new(),
            pending: Some(seed),
            rounds: depth - 1,
        };
        proof {
            lemma_strset_index(c.expanded@, 0);
            assert(c.found_set() =~= Set::<Seq<char>>::empty());
            assert(c.expanded_seq() =~= Seq::<Seq<char>>::empty().push(seed@));
            assert(c.expanded_set() =~= Set::<Seq<char>>::empty().insert(seed@)) by {
                assert forall|u: Seq<char>| c.expanded_set().contains(u) implies u == seed@ by {
                    lemma_strset_member(c.expanded@, u);
                }
            }
        }
        c
    }

    /// Whether the crawl is over.
    pub fn is_done(&self) -> (r: bool)
        ensures
            r == (self.pending_url() is None),
    {
        self.pending.is_none()
    }

    /// The URL the driver should fetch now, if any.
    pub fn next_url(&self) -> (r: Option<String>)
        ensures
            (match r {
                Some(u) => self.pending_url() == Some(u@),
                None => self.pending_url() is None,
            }),
    {
        match &self.pending {
            Some(u) => Some(u.clone()),
            None => None,
        }
    }

    /// Takes the machine apart into the found list and the fetch trace.
    pub fn into_parts(self) -> (r: (Vec<String>, Vec<String>))
        ensures
            views(r.0@) == self.found_seq(),
            views(r.1@) == self.expanded_seq(),
            strset(r.0@) == self.found_set(),
            strset(r.1@) == self.expanded_set(),
    {
        (self.found, self.expanded)
    }

    /// Answers the pending fetch with the page's document text.
    pub fn deliver_page(&mut self, body: &str)
        requires
            old(self).wf(),
            old(self).pending_url() is Some,
        ensures
            final(self).wf(),
            Self::step_spec(*old(self), *final(self), page_links(body@)),
    {
        let links = extract_links(body);
        self.absorb(links);
    }

    /// Answers the pending fetch after a failed one: the page yields no
    /// links, and the crawl goes on.
    pub fn deliver_failure(&mut self)
        requires
            old(self).wf(),
            old(self).pending_url() is Some,
        ensures
            final(self).wf(),
            Self::step_spec(*old(self), *final(self), Set::<Seq<char>>::empty()),
    {
        let links: Vec<String> = Vec::new();
        proof {
            assert(strset(links@) =~= Set::<Seq<char>>::empty()) by {
                assert forall|u: Seq<char>| !strset(links@).contains(u) by {
                    if strset(links@).contains(u) {
                        lemma_strset_member(links@, u);
                    }
                }
            }
        }
        self.absorb(links);
    }

    /// Merges the delivered links into the found set and schedules the next
    /// fetch.
    fn absorb(&mut self, links: Vec<String>)
        requires
            old(self).wf(),
            old(self).pending_url() is Some,
            no_dups(links@),
            all_accepted(links@),
        ensures
            final(self).wf(),
            Self::step_spec(*old(self), *final(self), strset(links@)),
    {
        let ghost pre = *old(self);
        merge_into(&mut self.found, &links);
        proof {
            assert forall|k: int| 0 <= k < self.found@.len() implies is_accepted_url(
                #[trigger] self.found@[k]@,
            ) by {
                if strset(pre.found@).contains(self.found@[k]@) {
                    lemma_strset_member(pre.found@, self.found@[k]@);
                } else {
                    lemma_strset_member(links@, self.found@[k]@);
                }
            }
        }
        if self.frontier.len() > 0 {
            let ghost fr0 = self.frontier@;
            let x = self.frontier.remove(0);
            let ghost xs = x;
            let xc = x.clone();
            let ghost ex0 = self.expanded@;
            self.expanded.push(xc);
            self.pending = Some(x);
            proof {
                assert(self.frontier@ =~= fr0.subrange(1, fr0.len() as int));
                lemma_strset_decompose(fr0);
                Self::lemma_take_first(pre, fr0, ex0, xs, self.frontier@, self.expanded@);
            }
        } else if self.rounds > 0 {
            self.rounds = self.rounds - 1;
            let mut nf = vec_difference(&self.found, &self.expanded);
            let ghost nf0 = nf@;
            if nf.len() > 0 {
                let x = nf.remove(0);
                let ghost xs = x;
                let xc = x.clone();
                let ghost ex0 = self.expanded@;
                self.frontier = nf;
                self.expanded.push(xc);
                self.pending = Some(x);
                proof {
                    assert(self.frontier@ =~= nf0.subrange(1, nf0.len() as int));
                    lemma_strset_decompose(nf0);
                    lemma_strset_index(nf0, 0);
                    assert forall|k: int| 0 <= k < nf0.len() implies !strset(ex0).contains(
                        #[trigger] nf0[k]@,
                    ) by {
                        lemma_strset_index(nf0, k);
                    }
                    Self::lemma_take_first(pre, nf0, ex0, xs, self.frontier@, self.expanded@);
                    assert(strset(nf0).contains(xs@));
                }
            } else {
                self.pending = None;
                self.rounds = 0;
                proof {
                    assert(strset(nf0) =~= Set::<Seq<char>>::empty()) by {
                        assert forall|u: Seq<char>| !strset(nf0).contains(u) by {
                            if strset(nf0).contains(u) {
                                lemma_strset_member(nf0, u);
                            }
                        }
                    }
                }
            }
        } else {
            self.pending = None;
        }
    }

    /// The bookkeeping shared by the two branches that hand a URL out: with
    /// `pool` the duplicate-free list the URL came from, `ex0` the expanded
    /// list before, and no pool entry expanded yet, the new frontier and
    /// expanded lists are well formed and relate to the old ones as
    /// `handed_out` asks.
    proof fn lemma_take_first(
        pre: Crawl,
        pool: Seq<String>,
        ex0: Seq<String>,
        x: String,
        fr1: Seq<String>,
        ex1: Seq<String>,
    )
        requires
            pool.len() > 0,
            no_dups(pool),
            no_dups(ex0),
            x == pool[0],
            fr1 == pool.subrange(1, pool.len() as int),
            ex1 == ex0.push(x),
            forall|k: int| 0 <= k < pool.len() ==> !strset(ex0).contains(#[trigger] pool[k]@),
        ensures
            no_dups(fr1),
            no_dups(ex1),
            strset(pool) == strset(fr1).insert(x@),
            !strset(fr1).contains(x@),
            !strset(ex0).contains(x@),
            views(ex1) == views(ex0).push(x@),
            strset(ex1) == strset(ex0).insert(x@),
            forall|k: int| 0 <= k < fr1.len() ==> !strset(ex1).contains(#[trigger] fr1[k]@),
            strset(ex1).contains(x@),
    {
        lemma_strset_decompose(pool);
        lemma_views_push(ex0, x);
        lemma_strset_push(ex0, x);
        lemma_strset_index(ex1, ex1.len() - 1);
        assert(!strset(fr1).contains(x@)) by {
            if strset(fr1).contains(x@) {
                lemma_strset_member(fr1, x@);
                let k = choose|k: int| 0 <= k < fr1.len() && fr1[k]@ == x@;
                assert(pool[k + 1]@ == pool[0]@);
                assert(false);
            }
        }
        assert(no_dups(ex1)) by {
            assert forall|p: int| 0 <= p < ex0.len() implies ex0[p]@ != x@ by {
                lemma_strset_index(ex0, p);
            }
        }
        assert forall|k: int| 0 <= k < fr1.len() implies !strset(ex1).contains(
            #[trigger] fr1[k]@,
        ) by {
            assert(fr1[k] == pool[k + 1]);
            assert(!strset(ex0).contains(pool[k + 1]@));
            assert(pool[k + 1]@ != pool[0]@);
        }
    }
}

/// One fixture entry: what the server at `url` answers. `body` is the
/// page's document text; `None` stands for a fetch that fails (a transport
/// error or an error status).
pub struct Fixture {
    pub url: String,
    pub body: Option<String>,
}

/// The document text a fixture table serves for `u`: the first entry with
/// that URL decides; a URL with no entry, or whose entry fails, serves none.
pub open spec fn table_body(t: Seq<Fixture>, u: Seq<char>) -> Option<Seq<char>>
    decreases t.len(),
{
    if t.len() == 0 {
        None
    } else if t[0].url@ == u {
        match t[0].body {
            Some(b) => Some(b@),
            None => None,
        }
    } else {
        table_body(t.drop_first(), u)
    }
}

/// The oracle a fixture table stands for.
pub open spec fn table_oracle(t: Seq<Fixture>) -> Oracle {
    Map::new(
        |u: Seq<char>| table_body(t, u) is Some,
        |u: Seq<char>| page_links(table_body(t, u)->0),
    )
}

/// The first table entry for `u`, if it holds a body.
fn table_lookup<'a>(t: &'a Vec<Fixture>, u: &String) -> (r: Option<&'a String>)
    ensures
        (match r {
            Some(b) => table_body(t@, u@) == Some(b@),
            None => table_body(t@, u@) is None,
        }),
{
    let mut i: usize = 0;
    proof {
        assert(t@.subrange(0, t@.len() as int) =~= t@);
    }
    while i < t.len()
        invariant
            i <= t@.len(),
            table_body(t@, u@) == table_body(t@.subrange(i as int, t@.len() as int), u@),
        decreases t@.len() - i,
    {
        let ghost suf = t@.subrange(i as int, t@.len() as int);
        proof {
            assert(suf[0] == t@[i as int]);
        }
        let entry = &t[i];
        if entry.url.eq(u) {
            match &entry.body {
                Some(b) => {
                    return Some(b);
                },
                None => {
                    return None;
                },
            }
        }
        proof {
            assert(suf.drop_first() =~= t@.subrange(i as int + 1, t@.len() as int));
        }
        i = i + 1;
    }
    proof {
        assert(t@.subrange(i as int, t@.len() as int).len() == 0);
    }
    None
}

/// The oracle of any fixture table serves only URLs of the accepted shape:
/// every link it answers with came out of the extractor.
pub proof fn lemma_table_oracle_accepted(t: Seq<Fixture>)
    ensures
        oracle_accepted(table_oracle(t)),
{
    let o = table_oracle(t);
    assert forall|k: Seq<char>, u: Seq<char>|
        o.dom().contains(k) && #[trigger] o[k].contains(u) implies is_accepted_url(u) by {
        lemma_extracted_accepted(hrefs_of(table_body(t, k)->0));
    }
}

/// The links the pending fetch, if any, will contribute under `o`.
pub open spec fn pending_links(o: Oracle, p: Option<Seq<char>>) -> Set<Seq<char>> {
    match p {
        Some(u) => oracle_links(o, u),
        None => Set::empty(),
    }
}

/// The found set the machine is bound to reach once the fetches in flight
/// and scheduled are answered under `o`.
pub open spec fn proj_found(o: Oracle, c: Crawl) -> Set<Seq<char>> {
    c.found_set().union(pending_links(o, c.pending_url())).union(
        round_links(o, c.frontier_set()),
    )
}

/// The expanded set the machine is bound to reach within the current round.
pub open spec fn proj_expanded(c: Crawl) -> Set<Seq<char>> {
    c.expanded_set().union(c.frontier_set())
}

/// An empty list holds the empty set.
proof fn lemma_strset_of_empty(v: Seq<String>)
    requires
        v.len() == 0,
    ensures
        strset(v) == Set::<Seq<char>>::empty(),
{
    assert(strset(v) =~= Set::<Seq<char>>::empty()) by {
        assert forall|u: Seq<char>| !strset(v).contains(u) by {
            if strset(v).contains(u) {
                lemma_strset_member(v, u);
            }
        }
    }
}

/// One delivery, answered as the oracle dictates, leaves the crawl's outcome
/// unchanged: the expansion recursion applied to the machine's projected
/// state yields the same pair before and after the step.
proof fn lemma_step_preserves(o: Oracle, pre: Crawl, post: Crawl, links: Set<Seq<char>>)
    requires
        pre.wf(),
        post.wf(),
        pre.pending_url() is Some,
        links == pending_links(o, pre.pending_url()),
        Crawl::step_spec(pre, post, links),
    ensures
        expand(o, proj_found(o, post), proj_expanded(post), post.rounds_left()) == expand(
            o,
            proj_found(o, pre),
            proj_expanded(pre),
            pre.rounds_left(),
        ),
{
    let f2 = pre.found_set().union(links);
    if pre.frontier_len() > 0 {
        let x = post.pending_url()->0;
        lemma_round_links_insert(o, post.frontier_set(), x);
        assert(proj_found(o, post) =~= proj_found(o, pre));
        assert(proj_expanded(post) =~= proj_expanded(pre));
        assert(proj_found(o, post) == proj_found(o, pre));
        assert(proj_expanded(post) == proj_expanded(pre));
    } else {
        lemma_strset_of_empty(pre.frontier@);
        lemma_round_links_empty(o);
        assert(proj_found(o, pre) =~= f2);
        assert(proj_expanded(pre) =~= pre.expanded_set());
        assert(proj_found(o, pre) == f2);
        assert(proj_expanded(pre) == pre.expanded_set());
        let nf = f2.difference(pre.expanded_set());
        if pre.rounds_left() > 0 && nf != Set::<Seq<char>>::empty() {
            let x = post.pending_url()->0;
            lemma_round_links_insert(o, post.frontier_set(), x);
            assert(proj_found(o, post) =~= f2.union(round_links(o, nf)));
            assert(proj_expanded(post) =~= pre.expanded_set().union(nf));
            assert(proj_found(o, post) == f2.union(round_links(o, nf)));
            assert(proj_expanded(post) == pre.expanded_set().union(nf));
            assert(expand(o, f2, pre.expanded_set(), pre.rounds_left()) == expand(
                o,
                f2.union(round_links(o, nf)),
                pre.expanded_set().union(nf),
                (pre.rounds_left() - 1) as nat,
            ));
        } else {
            lemma_strset_of_empty(post.frontier@);
            assert(proj_found(o, post) =~= f2);
            assert(proj_expanded(post) =~= post.expanded_set());
            assert(proj_found(o, post) == f2);
            assert(proj_expanded(post) == post.expanded_set());
            if pre.rounds_left() > 0 {
                lemma_expand_stalled(o, f2, pre.expanded_set(), pre.rounds_left());
            }
        }
    }
}

/// Runs a whole crawl against a fixture table: the driver loop of the step
/// machine, answering each handed-out URL from the table. Yields the found
/// list and the fetch trace. The found set is exactly the `depth`-round
/// closure of the table's oracle, so it is a function of the table, the
/// seed, and the depth alone; both lists are duplicate-free (no URL is
/// fetched twice), and every found URL matches the accepted shape.
pub fn run_crawl(table: &Vec<Fixture>, seed: &str, depth: u64) -> (r: (Vec<String>, Vec<String>))
    requires
        depth >= 1,
    ensures
        no_dups(r.0@),
        no_dups(r.1@),
        all_accepted(r.0@),
        strset(r.0@) == crawl_found(table_oracle(table@), seed@, depth as nat),
        strset(r.1@) == crawl_expanded(table_oracle(table@), seed@, depth as nat),
{
    let ghost o = table_oracle(table@);
    let mut c = Crawl::new(seed.to_owned(), depth);
    proof {
        lemma_strset_of_empty(c.frontier@);
        lemma_round_links_empty(o);
        assert(proj_found(o, c) =~= oracle_links(o, seed@));
        assert(proj_found(o, c) == oracle_links(o, seed@));
        assert(proj_expanded(c) =~= Set::<Seq<char>>::empty().insert(seed@));
        assert(proj_expanded(c) == Set::<Seq<char>>::empty().insert(seed@));
    }
    loop
        invariant
            c.wf(),
            o == table_oracle(table@),
            depth >= 1,
            expand(o, proj_found(o, c), proj_expanded(c), c.rounds_left()) == (
                crawl_found(o, seed@, depth as nat),
                crawl_expanded(o, seed@, depth as nat),
            ),
        ensures
            c.wf(),
            c.pending_url() is None,
            expand(o, proj_found(o, c), proj_expanded(c), c.rounds_left()) == (
                crawl_found(o, seed@, depth as nat),
                crawl_expanded(o, seed@, depth as nat),
            ),
        decreases
            c.rounds_left(),
            c.frontier_len(),
            (if c.pending_url() is Some { 1int } else { 0int }),
    {
        let target = c.next_url();
        match target {
            None => {
                break;
            },
            Some(u) => {
                let ghost pre = c;
                let ghost links = pending_links(o, pre.pending_url());
                match table_lookup(table, &u) {
                    Some(b) => {
                        proof {
                            assert(o.dom().contains(u@));
                            assert(oracle_links(o, u@) == page_links(b@));
                        }
                        c.deliver_page(b.as_str());
                    },
                    None => {
                        proof {
                            assert(!o.dom().contains(u@));
                            assert(oracle_links(o, u@) =~= Set::<Seq<char>>::empty());
                        }
                        c.deliver_failure();
                    },
                }
                proof {
                    lemma_step_preserves(o, pre, c, links);
                }
            },
        }
    }
    proof {
        lemma_strset_of_empty(c.frontier@);
        lemma_round_links_empty(o);
        assert(proj_found(o, c) =~= c.found_set());
        assert(proj_found(o, c) == c.found_set());
        assert(proj_expanded(c) =~= c.expanded_set());
        assert(proj_expanded(c) == c.expanded_set());
    }
    let Crawl { found, expanded, frontier: _, pending: _, rounds: _ } = c;
    (found, expanded)
}

} // verus!
