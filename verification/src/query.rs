//! The query processor: owns the configuration and the checker chain, and
//! composes walker, cache manager, framing and the matcher into the public
//! query operation.
//!
//! A query runs two branches and concatenates their byte streams in fixed
//! order, cached branch first.  The cached branch reads the cache; on a
//! miss it walks every cached root and persists the result before
//! filtering.  The updated branch walks every updated root fresh on every
//! query.  The branches are independent: neither observes the other's
//! intermediate state, and the output order is fixed by position, so
//! running them one after the other gives the same response a concurrent
//! schedule would.

use vstd::prelude::*;
use crate::cache::{service_paths, CacheManager};
use crate::checkers::Checker;
use crate::framing::{
    all_fit, decode_all, decode_bytes, records_bytes, serialize_all, DecodeError, EncodeError,
};
use crate::fs_tree::FsNode;
use crate::matcher::Matcher;
use crate::service::Service;
use crate::walker::{walk, walk_paths};

verus! {

/// Static query-time settings, passed in by the caller at construction.
pub struct Config {
    /// Paths excluded exactly (no glob expansion) during any walk.
    pub ignore_paths: Vec<Vec<u8>>,
    /// Roots assumed stable enough to snapshot into the persisted cache.
    pub cached_roots: Vec<Vec<u8>>,
    /// Roots walked fresh on every query.
    pub updated_roots: Vec<Vec<u8>>,
}

/// A query failure: a record could not be framed, or the cache blob could
/// not be decoded.
#[derive(PartialEq, Eq, Structural, Debug)]
pub enum QueryError {
    Encode(EncodeError),
    Decode(DecodeError),
}

/// The walk results of a list of root snapshots, concatenated in order.
pub open spec fn roots_walk_paths(cond: Checker, terms: Seq<Checker>, roots: Seq<FsNode>) -> Seq<
    Seq<u8>,
>
    decreases roots.len(),
{
    if roots.len() == 0 {
        Seq::empty()
    } else {
        walk_paths(cond, terms, roots[0]) + roots_walk_paths(cond, terms, roots.drop_first())
    }
}

pub proof fn lemma_roots_concat(cond: Checker, terms: Seq<Checker>, a: Seq<FsNode>, b: Seq<FsNode>)
    ensures
        roots_walk_paths(cond, terms, a + b) == roots_walk_paths(cond, terms, a) + roots_walk_paths(
            cond,
            terms,
            b,
        ),
    decreases a.len(),
{
    if a.len() == 0 {
        assert(a + b =~= b);
        assert(roots_walk_paths(cond, terms, a) + roots_walk_paths(cond, terms, b)
            =~= roots_walk_paths(cond, terms, b));
    } else {
        assert((a + b)[0] == a[0]);
        assert((a + b).drop_first() =~= a.drop_first() + b);
        lemma_roots_concat(cond, terms, a.drop_first(), b);
        assert(roots_walk_paths(cond, terms, a + b) =~= roots_walk_paths(cond, terms, a)
            + roots_walk_paths(cond, terms, b));
    }
}

/// The candidate paths that answer a query, kept in order.
pub open spec fn matched_paths<M: Matcher>(m: M, req: Seq<u8>, ps: Seq<Seq<u8>>) -> Seq<Seq<u8>>
    decreases ps.len(),
{
    if ps.len() == 0 {
        Seq::empty()
    } else {
        (if m.matches_spec(req, ps[0]) {
            seq![ps[0]]
        } else {
            Seq::empty()
        }) + matched_paths(m, req, ps.drop_first())
    }
}

pub proof fn lemma_matched_concat<M: Matcher>(m: M, req: Seq<u8>, a: Seq<Seq<u8>>, b: Seq<Seq<u8>>)
    ensures
        matched_paths(m, req, a + b) == matched_paths(m, req, a) + matched_paths(m, req, b),
    decreases a.len(),
{
    if a.len() == 0 {
        assert(a + b =~= b);
        assert(matched_paths(m, req, a) + matched_paths(m, req, b) =~= matched_paths(m, req, b));
    } else {
        assert((a + b)[0] == a[0]);
        assert((a + b).drop_first() =~= a.drop_first() + b);
        lemma_matched_concat(m, req, a.drop_first(), b);
        assert(matched_paths(m, req, a + b) =~= matched_paths(m, req, a) + matched_paths(
            m,
            req,
            b,
        ));
    }
}

/// Filtering keeps only candidates, so every kept path still fits a record.
pub proof fn lemma_matched_fit<M: Matcher>(m: M, req: Seq<u8>, ps: Seq<Seq<u8>>)
    requires
        all_fit(ps),
    ensures
        all_fit(matched_paths(m, req, ps)),
    decreases ps.len(),
{
    if ps.len() == 0 {
    } else {
        assert(all_fit(ps.drop_first()));
        lemma_matched_fit(m, req, ps.drop_first());
        let head = if m.matches_spec(req, ps[0]) {
            seq![ps[0]]
        } else {
            Seq::<Seq<u8>>::empty()
        };
        let rest = matched_paths(m, req, ps.drop_first());
        assert forall|i: int|
            0 <= i < matched_paths(m, req, ps).len() implies crate::framing::fits_record(
            #[trigger] matched_paths(m, req, ps)[i],
        ) by {
            if i < head.len() {
                assert(matched_paths(m, req, ps)[i] == head[0]);
                assert(head[0] == ps[0]);
            } else {
                assert(matched_paths(m, req, ps)[i] == rest[i - head.len()]);
            }
        }
    }
}

/// The query processor: configuration, the condition checker and the
/// ordered terminate-checker chain, built once and read-only afterwards.
pub struct QueryProcessor {
    pub config: Config,
    pub condition_checker: Checker,
    pub terminate_checkers: Vec<Checker>,
}

impl QueryProcessor {
    /// The condition checker the walks use.
    pub open spec fn cond(self) -> Checker {
        self.condition_checker
    }

    /// The terminate checkers the walks use, in evaluation order.
    pub open spec fn terms(self) -> Seq<Checker> {
        self.terminate_checkers@
    }

    /// Whether the processor carries the standard chain built from the
    /// given configuration: the bundle condition checker, and as terminate
    /// checkers the hidden checker alone when no path is ignored, else the
    /// hidden, ignore and symlink checkers in that order.
    pub open spec fn standard_chain(self, config: Config) -> bool {
        &&& self.cond() == Checker::Bundle
        &&& (if config.ignore_paths@.len() == 0 {
            self.terms() == seq![Checker::Hidden]
        } else {
            &&& self.terms().len() == 3
            &&& self.terms()[0] == Checker::Hidden
            &&& (self.terms()[1] matches Checker::Ignore { paths } && paths.deep_view()
                == config.ignore_paths.deep_view())
            &&& self.terms()[2] == Checker::Symlink
        })
    }

    /// Builds a processor over the given configuration.
    pub fn new(config: Config) -> (qp: QueryProcessor)
        ensures
            qp.config == config,
            qp.standard_chain(config),
    {
        let ignore_paths = clone_path_list(&config.ignore_paths);
        let terminate_checkers: Vec<Checker> = if ignore_paths.len() == 0 {
            let mut v: Vec<Checker> = Vec::new();
            v.push(Checker::Hidden);
            proof {
                assert(v@ =~= seq![Checker::Hidden]);
            }
            v
        } else {
            let mut v: Vec<Checker> = Vec::new();
            v.push(Checker::Hidden);
            v.push(Checker::Ignore { paths: ignore_paths });
            v.push(Checker::Symlink);
            v
        };
        QueryProcessor { config, condition_checker: Checker::Bundle, terminate_checkers }
    }

    /// Walks one snapshot with the processor's checker chain.
    pub fn recursively_iterate(&self, entry: FsNode) -> (res: Vec<Vec<u8>>)
        ensures
            res.deep_view() == walk_paths(self.cond(), self.terms(), entry),
    {
        walk(&self.condition_checker, &self.terminate_checkers, entry)
    }

    /// Walks every given root in order and concatenates the results.
    fn walk_roots(&self, roots: Vec<FsNode>) -> (res: Vec<Vec<u8>>)
        ensures
            res.deep_view() == roots_walk_paths(self.cond(), self.terms(), roots@),
    {
        let ghost orig = roots@;
        let mut roots = roots;
        let mut res: Vec<Vec<u8>> = Vec::new();
        let ghost k: int = 0;
        proof {
            assert(orig.take(0) =~= Seq::<FsNode>::empty());
            assert(res.deep_view() =~= roots_walk_paths(self.cond(), self.terms(), orig.take(0)));
            assert(roots@ =~= orig.skip(0));
        }
        while roots.len() > 0
            invariant
                0 <= k <= orig.len(),
                roots@ == orig.skip(k),
                res.deep_view() == roots_walk_paths(self.cond(), self.terms(), orig.take(k)),
            decreases roots@.len(),
        {
            let root = roots.remove(0);
            proof {
                assert(root == orig[k]);
                assert(roots@ =~= orig.skip(k + 1));
            }
            let mut walked = self.recursively_iterate(root);
            let ghost wv = walked.deep_view();
            let ghost resprev = res.deep_view();
            let ghost reslen = res@.len();
            res.append(&mut walked);
            proof {
                assert(res.deep_view() =~~= resprev + wv);
                let single = seq![orig[k]];
                assert(single.drop_first() =~= Seq::<FsNode>::empty());
                assert(roots_walk_paths(self.cond(), self.terms(), Seq::<FsNode>::empty())
                    == Seq::<Seq<u8>>::empty());
                assert(roots_walk_paths(self.cond(), self.terms(), single) =~= walk_paths(
                    self.cond(),
                    self.terms(),
                    orig[k],
                ));
                lemma_roots_concat(self.cond(), self.terms(), orig.take(k), single);
                assert(orig.take(k + 1) =~= orig.take(k) + single);
                assert(res.deep_view() =~= roots_walk_paths(
                    self.cond(),
                    self.terms(),
                    orig.take(k + 1),
                ));
            }
            proof {
                k = k + 1;
            }
        }
        proof {
            assert(orig.skip(k).len() == 0);
            assert(orig.take(k) =~= orig);
        }
        res
    }

    /// The candidate path set of the cached branch: the decoded cache blob
    /// when one is present, else the fresh walk of the cached roots.
    pub open spec fn cached_candidates(self, blob: Seq<u8>, roots: Seq<FsNode>) -> Result<
        Seq<Seq<u8>>,
        DecodeError,
    > {
        if blob.len() == 0 {
            Ok(roots_walk_paths(self.cond(), self.terms(), roots))
        } else {
            decode_bytes(blob)
        }
    }

    /// The cached branch: read the cache; on a miss walk every cached root
    /// and persist the aggregate before proceeding; filter the candidates
    /// by the matcher and frame the survivors.
    pub fn query_cached_services<M: Matcher>(
        &self,
        req: &Vec<u8>,
        matcher: &M,
        cached_roots: Vec<FsNode>,
        cache: &mut CacheManager,
    ) -> (r: Result<Vec<u8>, QueryError>)
        ensures
            ({
                let blob0 = old(cache)@;
                let walked = roots_walk_paths(self.cond(), self.terms(), cached_roots@);
                if blob0.len() == 0 {
                    if all_fit(walked) {
                        &&& final(cache)@ == records_bytes(walked)
                        &&& (r matches Ok(b) && b@ == records_bytes(
                            matched_paths(*matcher, req@, walked),
                        ))
                    } else {
                        &&& final(cache)@ == blob0
                        &&& r == Err::<Vec<u8>, QueryError>(QueryError::Encode(EncodeError::TooLong))
                    }
                } else {
                    match decode_bytes(blob0) {
                        Ok(cand) => {
                            &&& final(cache)@ == blob0
                            &&& (r matches Ok(b) && b@ == records_bytes(
                                matched_paths(*matcher, req@, cand),
                            ))
                        },
                        Err(e) => {
                            &&& final(cache)@ == blob0
                            &&& r == Err::<Vec<u8>, QueryError>(QueryError::Decode(e))
                        },
                    }
                }
            }),
    {
        let blob = cache.read_all();
        let candidates: Vec<Vec<u8>> = if blob.len() == 0 {
            let paths = self.walk_roots(cached_roots);
            let services = services_from_paths(&paths);
            match cache.write_all(&services) {
                Ok(_) => {},
                Err(_) => {
                    return Err(QueryError::Encode(EncodeError::TooLong));
                },
            }
            paths
        } else {
            match decode_all(&blob) {
                Ok(v) => v,
                Err(e) => {
                    return Err(QueryError::Decode(e));
                },
            }
        };
        proof {
            if old(cache)@.len() != 0 {
                crate::framing::lemma_decoded_all_fit(old(cache)@);
            }
            lemma_matched_fit(*matcher, req@, candidates.deep_view());
        }
        let matched = filter_matched(matcher, req, candidates);
        match serialize_all(&matched) {
            Ok(b) => Ok(b),
            Err(_) => {
                proof {
                    assert(false);
                }
                Err(QueryError::Encode(EncodeError::TooLong))
            },
        }
    }

    /// The updated branch: walk every updated root fresh, filter by the
    /// matcher, frame the survivors.
    pub fn query_updated_services<M: Matcher>(
        &self,
        req: &Vec<u8>,
        matcher: &M,
        updated_roots: Vec<FsNode>,
    ) -> (r: Result<Vec<u8>, EncodeError>)
        ensures
            ({
                let mu = matched_paths(
                    *matcher,
                    req@,
                    roots_walk_paths(self.cond(), self.terms(), updated_roots@),
                );
                if all_fit(mu) {
                    r matches Ok(b) && b@ == records_bytes(mu)
                } else {
                    r == Err::<Vec<u8>, EncodeError>(EncodeError::TooLong)
                }
            }),
    {
        let paths = self.walk_roots(updated_roots);
        let matched = filter_matched(matcher, req, paths);
        serialize_all(&matched)
    }

    /// The public query operation: runs the cached branch, then the
    /// updated branch, and returns the cached-branch bytes followed by the
    /// updated-branch bytes.  On a cache miss the cache is populated with
    /// the whole walk of the cached roots, unfiltered, before the response
    /// is built; on a hit no cached root is walked.  An oversized path is
    /// an encode error and a malformed cache blob a decode error, each
    /// propagated, never truncated or ignored.
    pub fn query<M: Matcher>(
        &self,
        req: &Vec<u8>,
        matcher: &M,
        cached_roots: Vec<FsNode>,
        updated_roots: Vec<FsNode>,
        cache: &mut CacheManager,
    ) -> (r: Result<Vec<u8>, QueryError>)
        ensures
            ({
                let blob0 = old(cache)@;
                let walked_c = roots_walk_paths(self.cond(), self.terms(), cached_roots@);
                let walked_u = roots_walk_paths(self.cond(), self.terms(), updated_roots@);
                let mu = matched_paths(*matcher, req@, walked_u);
                if blob0.len() == 0 {
                    if all_fit(walked_c) {
                        &&& final(cache)@ == records_bytes(walked_c)
                        &&& (if all_fit(mu) {
                            r matches Ok(b) && b@ == records_bytes(
                                matched_paths(*matcher, req@, walked_c),
                            ) + records_bytes(mu)
                        } else {
                            r == Err::<Vec<u8>, QueryError>(QueryError::Encode(EncodeError::TooLong))
                        })
                    } else {
                        &&& final(cache)@ == blob0
                        &&& r == Err::<Vec<u8>, QueryError>(QueryError::Encode(EncodeError::TooLong))
                    }
                } else {
                    match decode_bytes(blob0) {
                        Ok(cand) => {
                            &&& final(cache)@ == blob0
                            &&& (if all_fit(mu) {
                                r matches Ok(b) && b@ == records_bytes(
                                    matched_paths(*matcher, req@, cand),
                                ) + records_bytes(mu)
                            } else {
                                r == Err::<Vec<u8>, QueryError>(
                                    QueryError::Encode(EncodeError::TooLong),
                                )
                            })
                        },
                        Err(e) => {
                            &&& final(cache)@ == blob0
                            &&& r == Err::<Vec<u8>, QueryError>(QueryError::Decode(e))
                        },
                    }
                }
            }),
    {
        let cached_bytes = match self.query_cached_services(req, matcher, cached_roots, cache) {
            Ok(b) => b,
            Err(e) => {
                return Err(e);
            },
        };
        let updated_bytes = match self.query_updated_services(req, matcher, updated_roots) {
            Ok(b) => b,
            Err(e) => {
                return Err(QueryError::Encode(e));
            },
        };
        let mut res = cached_bytes;
        let mut updated_bytes = updated_bytes;
        res.append(&mut updated_bytes);
        Ok(res)
    }
}

/// With a populated cache the cached branch takes its candidates from the
/// blob alone: they are the same whatever roots a walk would have seen, so
/// no cached root is re-walked.
pub proof fn lemma_populated_cache_skips_walk(
    qp: QueryProcessor,
    blob: Seq<u8>,
    roots_then: Seq<FsNode>,
    roots_now: Seq<FsNode>,
)
    requires
        blob.len() > 0,
    ensures
        qp.cached_candidates(blob, roots_then) == qp.cached_candidates(blob, roots_now),
{
}

/// Cache population round trip: a miss persists exactly the framed walk of
/// the cached roots, and as long as that blob is non-empty a later query
/// decodes exactly the walked paths back out of it.
pub proof fn lemma_cache_population_round_trip(
    qp: QueryProcessor,
    roots: Seq<FsNode>,
    roots_later: Seq<FsNode>,
)
    requires
        all_fit(roots_walk_paths(qp.cond(), qp.terms(), roots)),
        records_bytes(roots_walk_paths(qp.cond(), qp.terms(), roots)).len() > 0,
    ensures
        qp.cached_candidates(records_bytes(roots_walk_paths(qp.cond(), qp.terms(), roots)), roots_later)
            == Ok::<Seq<Seq<u8>>, DecodeError>(roots_walk_paths(qp.cond(), qp.terms(), roots)),
{
    crate::framing::lemma_decode_records(roots_walk_paths(qp.cond(), qp.terms(), roots));
}

/// Copies a list of paths.
fn clone_path_list(list: &Vec<Vec<u8>>) -> (r: Vec<Vec<u8>>)
    ensures
        r.deep_view() == list.deep_view(),
        r@.len() == list@.len(),
{
    let mut r: Vec<Vec<u8>> = Vec::new();
    let mut i: usize = 0;
    while i < list.len()
        invariant
            i <= list@.len(),
            r@.len() == i,
            forall|j: int| 0 <= j < i ==> r.deep_view()[j] == list.deep_view()[j],
        decreases list@.len() - i,
    {
        let ghost prev = r.deep_view();
        let p = crate::framing::copy_bytes(&list[i]);
        let ghost pv = p@;
        r.push(p);
        i = i + 1;
        proof {
            assert forall|j: int| 0 <= j < i implies r.deep_view()[j] == list.deep_view()[j] by {
                if j < i - 1 {
                    assert(r.deep_view()[j] == prev[j]);
                } else {
                    assert(r.deep_view()[j] == p.deep_view());
                    assert(p.deep_view() =~= pv);
                    assert(list.deep_view()[j] =~= list@[j]@);
                }
            }
        }
    }
    proof {
        assert(r.deep_view() =~= list.deep_view());
    }
    r
}

/// Wraps each walked path as a service.
fn services_from_paths(paths: &Vec<Vec<u8>>) -> (ss: Vec<Service>)
    ensures
        service_paths(ss@) == paths.deep_view(),
{
    let mut ss: Vec<Service> = Vec::new();
    let mut i: usize = 0;
    while i < paths.len()
        invariant
            i <= paths@.len(),
            ss@.len() == i,
            forall|j: int| 0 <= j < i ==> service_paths(ss@)[j] == paths.deep_view()[j],
        decreases paths@.len() - i,
    {
        let ghost prev = ss@;
        let p = crate::framing::copy_bytes(&paths[i]);
        let ghost pv = p@;
        ss.push(Service::new(p));
        i = i + 1;
        proof {
            assert forall|j: int| 0 <= j < i implies service_paths(ss@)[j] == paths.deep_view()[j] by {
                assert(service_paths(ss@)[j] == ss@[j].path@);
                if j < i - 1 {
                    assert(ss@[j] == prev[j]);
                    assert(service_paths(prev)[j] == prev[j].path@);
                } else {
                    assert(ss@[j].path@ == pv);
                    assert(paths.deep_view()[j] =~= paths@[j]@);
                }
            }
        }
    }
    proof {
        assert(service_paths(ss@) =~= paths.deep_view());
    }
    ss
}

/// Keeps, in order, the candidate paths the matcher accepts for `req`.
fn filter_matched<M: Matcher>(matcher: &M, req: &Vec<u8>, paths: Vec<Vec<u8>>) -> (res: Vec<
    Vec<u8>,
>)
    ensures
        res.deep_view() == matched_paths(*matcher, req@, paths.deep_view()),
{
    let ghost orig = paths.deep_view();
    let mut paths = paths;
    let mut res: Vec<Vec<u8>> = Vec::new();
    let ghost k: int = 0;
    proof {
        assert(orig.take(0) =~= Seq::<Seq<u8>>::empty());
        assert(res.deep_view() =~= matched_paths(*matcher, req@, orig.take(0)));
        assert(paths.deep_view() =~~= orig.skip(0));
    }
    while paths.len() > 0
        invariant
            0 <= k <= orig.len(),
            paths.deep_view() == orig.skip(k),
            res.deep_view() == matched_paths(*matcher, req@, orig.take(k)),
        decreases paths@.len(),
    {
        proof {
            assert(paths.deep_view().len() == paths@.len());
            assert(orig.skip(k).len() == orig.len() - k);
            assert(k < orig.len());
        }
        let ghost oldv = paths@;
        let ghost dv0 = paths.deep_view();
        let p = paths.remove(0);
        let ghost pv = p@;
        proof {
            assert(p == oldv[0]);
            assert(dv0[0] == oldv[0].deep_view());
            assert(p.deep_view() =~= pv);
            assert(pv =~= orig[k]);
            assert(paths@ =~= oldv.drop_first());
            assert forall|j: int| 0 <= j < paths@.len() implies paths.deep_view()[j] == orig.skip(
                k + 1,
            )[j] by {
                assert(paths.deep_view()[j] == paths@[j].deep_view());
                assert(paths@[j] == oldv[j + 1]);
                assert(dv0[j + 1] == oldv[j + 1].deep_view());
                assert(dv0[j + 1] == orig.skip(k)[j + 1]);
                assert(orig.skip(k)[j + 1] == orig[k + 1 + j]);
                assert(orig.skip(k + 1)[j] == orig[k + 1 + j]);
            }
            assert(paths.deep_view() =~= orig.skip(k + 1));
        }
        let keep = matcher.match_query(req, &p);
        let ghost resprev = res.deep_view();
        if keep {
            res.push(p);
        }
        proof {
            let single = seq![orig[k]];
            assert(single.drop_first() =~= Seq::<Seq<u8>>::empty());
            assert(matched_paths(*matcher, req@, Seq::<Seq<u8>>::empty()) == Seq::<Seq<u8>>::empty());
            if keep {
                assert(res.deep_view() =~~= resprev.push(pv));
                assert(matched_paths(*matcher, req@, single) =~= seq![orig[k]]);
            } else {
                assert(matched_paths(*matcher, req@, single) =~= Seq::<Seq<u8>>::empty());
            }
            lemma_matched_concat(*matcher, req@, orig.take(k), single);
            assert(orig.take(k + 1) =~= orig.take(k) + single);
            assert(res.deep_view() =~= matched_paths(*matcher, req@, orig.take(k + 1)));
        }
        proof {
            k = k + 1;
        }
    }
    proof {
        assert(orig.skip(k).len() == 0);
        assert(orig.take(k) =~= orig);
    }
    res
}

} // verus!
