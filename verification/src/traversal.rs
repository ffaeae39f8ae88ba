//! The frontier controller: owns the traversal queue and the accumulated
//! results, and exposes the decisions of the fetch→extract→classify→enqueue
//! loop. Fetching itself is left to the caller, which feeds each document
//! (or nothing, on a fetch failure) back into the controller.

use vstd::prelude::*;

use crate::classify::Classification;
use crate::classify::classify;
use crate::classify::nested_of;
use crate::classify::pages_of;
use crate::extract::extract;
use crate::extract::locs_of;

verus! {

/// The state of one sitemap traversal: a FIFO frontier of pending sitemap
/// references, and the page URLs collected so far, in discovery order.
///
/// The frontier keeps no visited-set and the results are not deduplicated:
/// a cycle among sitemap documents (one referencing an ancestor) keeps the
/// frontier non-empty forever, so a caller that must guard against cycles
/// has to bound the number of iterations itself.
pub struct Traversal {
    queue: Vec<Vec<u8>>,
    pages: Vec<Vec<u8>>,
}

impl Traversal {
    /// The frontier: pending sitemap references, front first.
    pub closed spec fn frontier(&self) -> Seq<Seq<u8>> {
        crate::views_of(self.queue@)
    }

    /// The page URLs collected so far, in discovery order.
    pub closed spec fn results(&self) -> Seq<Seq<u8>> {
        crate::views_of(self.pages@)
    }

    /// Starts a traversal whose frontier holds exactly the root reference
    /// and whose result list is empty.
    pub fn new(root: Vec<u8>) -> (t: Traversal)
        ensures
            t.frontier() == seq![root@],
            t.results() == Seq::<Seq<u8>>::empty(),
    {
        let mut queue: Vec<Vec<u8>> = Vec::new();
        queue.push(root);
        let t = Traversal { queue, pages: Vec::new() };
        proof {
            assert(t.frontier() =~= seq![root@]);
            assert(t.results() =~= Seq::<Seq<u8>>::empty());
        }
        t
    }

    /// True when the frontier is exhausted and the traversal is finished.
    pub fn is_done(&self) -> (r: bool)
        ensures
            r == (self.frontier().len() == 0),
    {
        self.queue.len() == 0
    }

    /// Removes and returns the front of the frontier — the next document to
    /// fetch — or `None` when the traversal is finished. The results are
    /// never touched.
    pub fn next_reference(&mut self) -> (r: Option<Vec<u8>>)
        ensures
            final(self).results() == old(self).results(),
            old(self).frontier().len() == 0 ==> r is None && final(self).frontier() == old(
                self,
            ).frontier(),
            old(self).frontier().len() > 0 ==> (r matches Some(u) && u@ == old(self).frontier()[0])
                && final(self).frontier() == old(self).frontier().drop_first(),
    {
        if self.queue.len() == 0 {
            Option::None
        } else {
            let u = self.queue.remove(0);
            proof {
                assert(self.frontier() =~= old(self).frontier().drop_first());
            }
            Option::Some(u)
        }
    }

    /// Feeds one successfully fetched document to the traversal: each
    /// extracted `<loc>` entry is classified; nested sitemap references join
    /// the back of the frontier in document order, and page URLs are
    /// appended to the results in document order.
    pub fn process_document(&mut self, text: &Vec<u8>)
        ensures
            final(self).frontier() == old(self).frontier() + nested_of(locs_of(text@)),
            final(self).results() == old(self).results() + pages_of(locs_of(text@)),
    {
        let mut locs = extract(text);
        let ghost ls = locs_of(text@);
        let ghost mut done: int = 0;
        proof {
            assert(crate::views_of(locs@).skip(0) =~= crate::views_of(locs@));
            assert(ls.take(0) =~= Seq::<Seq<u8>>::empty());
            assert(self.frontier() + nested_of(ls.take(0)) =~= self.frontier());
            assert(self.results() + pages_of(ls.take(0)) =~= self.results());
        }
        while locs.len() > 0
            invariant
                0 <= done <= ls.len(),
                crate::views_of(locs@) == ls.skip(done),
                self.frontier() == old(self).frontier() + nested_of(ls.take(done)),
                self.results() == old(self).results() + pages_of(ls.take(done)),
            decreases locs.len(),
        {
            let ghost locs_pre = locs@;
            let loc = locs.remove(0);
            proof {
                assert(crate::views_of(locs@) =~= crate::views_of(locs_pre).drop_first());
                assert(crate::views_of(locs_pre).drop_first() =~= ls.skip(done + 1));
                assert(crate::views_of(locs_pre)[0] == locs_pre[0]@);
                assert(loc@ == ls[done]);
                assert(ls.take(done + 1).drop_last() =~= ls.take(done));
                assert(ls.take(done + 1).last() == ls[done]);
            }
            match classify(loc) {
                Classification::NestedSitemap(url) => {
                    let ghost queue_pre = self.queue@;
                    self.queue.push(url);
                    proof {
                        assert(crate::views_of(self.queue@) =~= crate::views_of(queue_pre).push(
                            url@,
                        ));
                        assert(nested_of(ls.take(done + 1)) =~= nested_of(ls.take(done)).push(
                            ls[done],
                        ));
                        assert(pages_of(ls.take(done + 1)) =~= pages_of(ls.take(done)));
                        assert(self.frontier() =~= old(self).frontier() + nested_of(
                            ls.take(done + 1),
                        ));
                    }
                }
                Classification::PageUrl(url) => {
                    let ghost pages_pre = self.pages@;
                    self.pages.push(url);
                    proof {
                        assert(crate::views_of(self.pages@) =~= crate::views_of(pages_pre).push(
                            url@,
                        ));
                        assert(pages_of(ls.take(done + 1)) =~= pages_of(ls.take(done)).push(
                            ls[done],
                        ));
                        assert(nested_of(ls.take(done + 1)) =~= nested_of(ls.take(done)));
                        assert(self.results() =~= old(self).results() + pages_of(
                            ls.take(done + 1),
                        ));
                    }
                }
            }
            proof {
                done = done + 1;
            }
        }
        proof {
            assert(done == ls.len());
            assert(ls.take(done) =~= ls);
        }
    }

    /// Hands over the collected page URLs, in discovery order; the traversal
    /// is consumed.
    pub fn into_results(self) -> (r: Vec<Vec<u8>>)
        ensures
            crate::views_of(r@) == self.results(),
    {
        self.pages
    }
}

/// One whole traversal against a fixed tree of remote documents, modeled as
/// a map from reference to document bytes; a reference outside the map is a
/// fetch failure. From the given frontier and results, runs at most `fuel`
/// iterations of the fetch→extract→classify→enqueue loop and returns the
/// frontier and results it stops with.
pub open spec fn run_from(
    docs: Map<Seq<u8>, Seq<u8>>,
    frontier: Seq<Seq<u8>>,
    results: Seq<Seq<u8>>,
    fuel: nat,
) -> (Seq<Seq<u8>>, Seq<Seq<u8>>)
    decreases fuel,
{
    if fuel == 0 || frontier.len() == 0 {
        (frontier, results)
    } else {
        let u = frontier[0];
        if docs.contains_key(u) {
            let ls = locs_of(docs[u]);
            run_from(
                docs,
                frontier.drop_first() + nested_of(ls),
                results + pages_of(ls),
                (fuel - 1) as nat,
            )
        } else {
            run_from(docs, frontier.drop_first(), results, (fuel - 1) as nat)
        }
    }
}

/// One iteration of the driving loop, as the controller's operations carry
/// it out — pop the front reference, feed the fetched document on success,
/// feed nothing on a fetch failure — is exactly one step of `run_from`.
pub proof fn lemma_run_unfolds_one_step(
    docs: Map<Seq<u8>, Seq<u8>>,
    frontier: Seq<Seq<u8>>,
    results: Seq<Seq<u8>>,
    fuel: nat,
)
    requires
        frontier.len() > 0,
        fuel > 0,
    ensures
        docs.contains_key(frontier[0]) ==> run_from(docs, frontier, results, fuel) == run_from(
            docs,
            frontier.drop_first() + nested_of(locs_of(docs[frontier[0]])),
            results + pages_of(locs_of(docs[frontier[0]])),
            (fuel - 1) as nat,
        ),
        !docs.contains_key(frontier[0]) ==> run_from(docs, frontier, results, fuel) == run_from(
            docs,
            frontier.drop_first(),
            results,
            (fuel - 1) as nat,
        ),
{
}

/// Against an unchanged document tree the traversal is a function of the
/// root alone: once a run has exhausted its frontier within `n` iterations,
/// any run given at least that many iterations stops in the very same state,
/// so repeated runs collect the very same result list.
pub proof fn lemma_run_fuel_stable(
    docs: Map<Seq<u8>, Seq<u8>>,
    frontier: Seq<Seq<u8>>,
    results: Seq<Seq<u8>>,
    n: nat,
    m: nat,
)
    requires
        n <= m,
        run_from(docs, frontier, results, n).0.len() == 0,
    ensures
        run_from(docs, frontier, results, m) == run_from(docs, frontier, results, n),
    decreases n,
{
    if frontier.len() == 0 {
    } else {
        assert(n > 0);
        let u = frontier[0];
        if docs.contains_key(u) {
            let ls = locs_of(docs[u]);
            lemma_run_fuel_stable(
                docs,
                frontier.drop_first() + nested_of(ls),
                results + pages_of(ls),
                (n - 1) as nat,
                (m - 1) as nat,
            );
        } else {
            lemma_run_fuel_stable(
                docs,
                frontier.drop_first(),
                results,
                (n - 1) as nat,
                (m - 1) as nat,
            );
        }
    }
}

/// Partial-failure isolation: a reference whose fetch fails costs nothing
/// but itself — the remaining frontier is traversed exactly as if the failed
/// reference had never been queued, and every page URL found there is still
/// collected.
pub proof fn lemma_failed_fetch_isolated(
    docs: Map<Seq<u8>, Seq<u8>>,
    front: Seq<u8>,
    rest: Seq<Seq<u8>>,
    results: Seq<Seq<u8>>,
    fuel: nat,
)
    requires
        !docs.contains_key(front),
    ensures
        run_from(docs, seq![front] + rest, results, fuel + 1) == run_from(
            docs,
            rest,
            results,
            fuel,
        ),
{
    let f = seq![front] + rest;
    assert(f[0] == front);
    assert(f.drop_first() =~= rest);
}

} // verus!
