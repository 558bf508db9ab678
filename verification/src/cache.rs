//! The cache manager: owns the single whole-index byte blob that persists
//! the walk of the cached roots between queries.
//!
//! An empty blob is a cache miss (cold start).  Writing is whole-snapshot
//! replace: the blob is set only after every record framed without error,
//! so a reader observes either the old snapshot or the fully written new
//! one, never a partial write.  The persistence backend underneath is the
//! caller's affair: it loads a blob in at construction and stores the
//! returned bytes out.

use vstd::prelude::*;
use crate::framing::{all_fit, copy_bytes, records_bytes, serialize_all, EncodeError};
use crate::service::Service;

verus! {

/// The paths of a batch of services, in order.
pub open spec fn service_paths(ss: Seq<Service>) -> Seq<Seq<u8>> {
    ss.map_values(|s: Service| s.path@)
}

/// Owner of the persisted whole-index snapshot.
pub struct CacheManager {
    blob: Vec<u8>,
}

impl View for CacheManager {
    type V = Seq<u8>;

    closed spec fn view(&self) -> Seq<u8> {
        self.blob@
    }
}

impl CacheManager {
    /// A cold cache: the empty blob.
    pub fn new() -> (c: CacheManager)
        ensures
            c@ == Seq::<u8>::empty(),
    {
        let c = CacheManager { blob: Vec::new() };
        proof {
            assert(c@ =~= Seq::<u8>::empty());
        }
        c
    }

    /// A cache restored from a previously persisted blob.
    pub fn from_blob(blob: Vec<u8>) -> (c: CacheManager)
        ensures
            c@ == blob@,
    {
        CacheManager { blob }
    }

    /// Reads the whole snapshot; an empty result is a cache miss.
    pub fn read_all(&self) -> (b: Vec<u8>)
        ensures
            b@ == self@,
    {
        copy_bytes(&self.blob)
    }

    /// Persists the serialized form of `services` as the new snapshot and
    /// returns the same bytes, so the caller can reuse them without
    /// re-reading storage.  When any path is too long to frame, nothing is
    /// written at all and the old snapshot stays visible.
    pub fn write_all(&mut self, services: &Vec<Service>) -> (r: Result<Vec<u8>, EncodeError>)
        ensures
            all_fit(service_paths(services@)) ==> (r matches Ok(b) && b@ == records_bytes(
                service_paths(services@),
            ) && final(self)@ == b@),
            !all_fit(service_paths(services@)) ==> (r matches Err(e) && e == EncodeError::TooLong
                && final(self)@ == old(self)@),
    {
        let mut ps: Vec<Vec<u8>> = Vec::new();
        let mut i: usize = 0;
        proof {
            assert(ps.deep_view() =~~= service_paths(services@.take(0)));
        }
        while i < services.len()
            invariant
                i <= services@.len(),
                ps@.len() == i,
                ps.deep_view() == service_paths(services@.take(i as int)),
            decreases services@.len() - i,
        {
            let ghost prev = ps.deep_view();
            let p = copy_bytes(&services[i].path);
            let ghost pview = p@;
            ps.push(p);
            i = i + 1;
            proof {
                let spv = service_paths(services@.take(i as int));
                assert(spv.len() == i);
                assert forall|j: int| 0 <= j < i implies ps.deep_view()[j] == spv[j] by {
                    assert(spv[j] == services@.take(i as int)[j].path@);
                    if j < i - 1 {
                        assert(prev[j] == service_paths(services@.take(i as int - 1))[j]);
                        assert(services@.take(i as int - 1)[j] == services@[j]);
                        assert(ps.deep_view()[j] == ps@[j].deep_view());
                        assert(ps.deep_view()[j] == prev[j]);
                    } else {
                        assert(ps@[j] == p);
                        assert(ps.deep_view()[j] == p.deep_view());
                        assert(p.deep_view() =~= pview);
                        assert(pview == services@[j].path@);
                    }
                }
                assert(ps.deep_view() =~= spv);
            }
        }
        proof {
            assert(services@.take(i as int) =~= services@);
            assert(ps.deep_view() =~~= service_paths(services@));
        }
        match serialize_all(&ps) {
            Ok(b) => {
                self.blob = copy_bytes(&b);
                Ok(b)
            },
            Err(e) => Err(e),
        }
    }
}

} // verus!
