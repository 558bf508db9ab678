//! A service: one discovered, matchable unit on disk, wrapping the path
//! the walker emitted for it.  Service identity is the path alone.

use vstd::prelude::*;
use crate::framing::{encode_record, fits_record, record_bytes, DecodeError, Deserializable, EncodeError};

verus! {

/// One emitted result: a legitimate path.
pub struct Service {
    /// The path of the discovered unit, as bytes.
    pub path: Vec<u8>,
}

impl Service {
    /// Wraps one walked path.
    pub fn new(path: Vec<u8>) -> (s: Service)
        ensures
            s.path == path,
    {
        Service { path }
    }
}

impl Deserializable for Service {
    /// A record payload is taken whole as the service's path: always
    /// accepted, never altered.
    open spec fn deserialized_as(bytes: Seq<u8>, r: Result<Service, DecodeError>) -> bool {
        r matches Ok(s) && s.path@ == bytes
    }

    fn deserialize(bytes: Vec<u8>) -> (r: Result<Self, DecodeError>) {
        Ok(Service { path: bytes })
    }
}

/// Frames one service as a record; rejects a path longer than the prefix
/// can state.
pub fn serialize_to_bytes(service: &Service) -> (r: Result<Vec<u8>, EncodeError>)
    ensures
        fits_record(service.path@) ==> (r matches Ok(b) && b@ == record_bytes(service.path@)),
        !fits_record(service.path@) ==> (r matches Err(e) && e == EncodeError::TooLong),
{
    encode_record(&service.path)
}

} // verus!
