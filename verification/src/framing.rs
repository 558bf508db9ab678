//! Length-prefixed record framing.
//!
//! A record is a 2-byte big-endian length prefix `N` followed by exactly `N`
//! payload bytes.  A response (and the cache blob) is a flat sequence of
//! back-to-back records with no outer envelope: a consumer decodes records
//! until the buffer is exhausted, and a truncated buffer is a framing error.

use vstd::prelude::*;

verus! {

/// Largest payload one record can carry: the length prefix is a `u16`.
pub const MAX_RECORD_LEN: usize = 65535;

/// Error returned when a payload is too long for the 2-byte length prefix.
#[derive(PartialEq, Eq, Structural, Debug)]
pub enum EncodeError {
    TooLong,
}

/// Error returned when a buffer cannot be decoded as a record stream.
#[derive(PartialEq, Eq, Structural, Debug)]
pub enum DecodeError {
    /// Fewer than 2 bytes remain for a length prefix, or fewer bytes remain
    /// than the decoded prefix demands.
    Truncated,
    /// A payload that must be text is not valid UTF-8.
    InvalidUtf8,
}

/// Whether one payload fits in a single record.
pub open spec fn fits_record(p: Seq<u8>) -> bool {
    p.len() <= 65535
}

/// Whether every payload of a batch fits in a record of its own.
pub open spec fn all_fit(ps: Seq<Seq<u8>>) -> bool {
    forall|i: int| 0 <= i < ps.len() ==> fits_record(#[trigger] ps[i])
}

/// The two length-prefix bytes followed by the payload.
pub open spec fn record_bytes(p: Seq<u8>) -> Seq<u8> {
    seq![(p.len() / 256) as u8, (p.len() % 256) as u8] + p
}

/// The byte stream framing each payload in turn.
pub open spec fn records_bytes(ps: Seq<Seq<u8>>) -> Seq<u8>
    decreases ps.len(),
{
    if ps.len() == 0 {
        Seq::empty()
    } else {
        record_bytes(ps[0]) + records_bytes(ps.drop_first())
    }
}

/// The payloads encoded in a byte stream, record by record, or the framing
/// error hit first.
pub open spec fn decode_bytes(b: Seq<u8>) -> Result<Seq<Seq<u8>>, DecodeError>
    decreases b.len(),
{
    if b.len() == 0 {
        Ok(Seq::empty())
    } else if b.len() < 2 {
        Err(DecodeError::Truncated)
    } else {
        let n = b[0] as int * 256 + b[1] as int;
        if b.len() < 2 + n {
            Err(DecodeError::Truncated)
        } else {
            match decode_bytes(b.skip(2 + n)) {
                Ok(rest) => Ok(seq![b.subrange(2, 2 + n)] + rest),
                Err(e) => Err(e),
            }
        }
    }
}

/// Appending one framed payload at the back of a batch appends its record
/// bytes at the back of the stream.
pub proof fn lemma_records_bytes_push(ps: Seq<Seq<u8>>, p: Seq<u8>)
    ensures
        records_bytes(ps.push(p)) == records_bytes(ps) + record_bytes(p),
    decreases ps.len(),
{
    if ps.len() == 0 {
        assert(ps.push(p)[0] == p);
        assert(records_bytes(Seq::<Seq<u8>>::empty()) == Seq::<u8>::empty());
        assert(ps.push(p).drop_first() =~~= Seq::<Seq<u8>>::empty());
        assert(records_bytes(ps.push(p).drop_first()) == Seq::<u8>::empty());
        assert(records_bytes(ps.push(p)) =~= record_bytes(p) + Seq::<u8>::empty());
        assert(record_bytes(p) + Seq::<u8>::empty() =~= record_bytes(p));
        assert(records_bytes(ps) + record_bytes(p) =~= record_bytes(p));
    } else {
        assert(ps.push(p)[0] == ps[0]);
        assert(ps.push(p).drop_first() =~~= ps.drop_first().push(p));
        lemma_records_bytes_push(ps.drop_first(), p);
        assert(records_bytes(ps.push(p)) =~= records_bytes(ps) + record_bytes(p));
    }
}

/// Round trip: decoding the framed form of a batch whose payloads all fit
/// yields exactly that batch.
pub proof fn lemma_decode_records(ps: Seq<Seq<u8>>)
    requires
        all_fit(ps),
    ensures
        decode_bytes(records_bytes(ps)) == Ok::<Seq<Seq<u8>>, DecodeError>(ps),
    decreases ps.len(),
{
    if ps.len() == 0 {
        assert(ps =~~= Seq::<Seq<u8>>::empty());
        assert(records_bytes(ps) == Seq::<u8>::empty());
    } else {
        let p = ps[0];
        let b = records_bytes(ps);
        assert(fits_record(p));
        assert(b =~= record_bytes(p) + records_bytes(ps.drop_first()));
        assert(b.len() >= 2 + p.len());
        assert(b[0] == (p.len() / 256) as u8);
        assert(b[1] == (p.len() % 256) as u8);
        assert(p.len() / 256 <= 255);
        assert(b[0] as int * 256 + b[1] as int == p.len());
        let n = p.len() as int;
        assert(b.len() >= 2);
        assert(b.len() >= 2 + n);
        assert(b.subrange(2, 2 + n) =~= p);
        assert(b.skip(2 + n) =~= records_bytes(ps.drop_first()));
        assert(all_fit(ps.drop_first()));
        lemma_decode_records(ps.drop_first());
        assert(decode_bytes(b.skip(2 + n)) == Ok::<Seq<Seq<u8>>, DecodeError>(ps.drop_first()));
        assert(decode_bytes(b) == Ok::<Seq<Seq<u8>>, DecodeError>(
            seq![b.subrange(2, 2 + n)] + ps.drop_first(),
        ));
        assert(seq![b.subrange(2, 2 + n)] + ps.drop_first() =~~= ps);
    }
}

/// Every payload decoded from a record stream fits in a record: its length
/// was read from a 2-byte prefix.
pub proof fn lemma_decoded_all_fit(b: Seq<u8>)
    requires
        decode_bytes(b) is Ok,
    ensures
        all_fit(decode_bytes(b)->Ok_0),
    decreases b.len(),
{
    if b.len() == 0 {
    } else {
        let n = b[0] as int * 256 + b[1] as int;
        lemma_decoded_all_fit(b.skip(2 + n));
    }
}

/// A value a record payload can be turned into.
pub trait Deserializable where Self: core::marker::Sized {
    /// What building the value from a given payload returns, stated over
    /// the views of the values involved.
    spec fn deserialized_as(bytes: Seq<u8>, r: Result<Self, DecodeError>) -> bool;

    /// Build the value from the payload of one record.
    fn deserialize(bytes: Vec<u8>) -> (r: Result<Self, DecodeError>)
        ensures
            Self::deserialized_as(bytes@, r),
    ;
}

/// Reads the 2-byte big-endian length prefix at the front of `bytes` and
/// drains it.
pub fn read_len(bytes: &mut Vec<u8>) -> (n: u16)
    requires
        old(bytes)@.len() >= 2,
    ensures
        n as int == old(bytes)@[0] as int * 256 + old(bytes)@[1] as int,
        final(bytes)@ == old(bytes)@.skip(2),
{
    let b0 = bytes[0];
    let b1 = bytes[1];
    bytes.remove(0);
    bytes.remove(0);
    proof {
        assert(bytes@ =~= old(bytes)@.skip(2));
    }
    (b0 as u16) * 256 + (b1 as u16)
}

/// Drains the first `count` bytes of `bytes` and returns them.
fn take_front(bytes: &mut Vec<u8>, count: usize) -> (front: Vec<u8>)
    requires
        count <= old(bytes)@.len(),
    ensures
        front@ == old(bytes)@.take(count as int),
        final(bytes)@ == old(bytes)@.skip(count as int),
{
    let mut front: Vec<u8> = Vec::new();
    let mut i: usize = 0;
    while i < count
        invariant
            i <= count,
            count <= old(bytes)@.len(),
            front@ == old(bytes)@.take(i as int),
            bytes@ == old(bytes)@.skip(i as int),
        decreases count - i,
    {
        let b = bytes.remove(0);
        front.push(b);
        i = i + 1;
        proof {
            assert(front@ =~= old(bytes)@.take(i as int));
            assert(bytes@ =~= old(bytes)@.skip(i as int));
        }
    }
    front
}

/// Decodes the first record of `bytes` into a `D`, draining the record.
/// A buffer shorter than two bytes, or shorter than its declared length
/// prefix, is a framing error and leaves `bytes` unchanged.
pub fn deserialize_from_bytes<D: Deserializable>(bytes: &mut Vec<u8>) -> (r: Result<
    D,
    DecodeError,
>)
    ensures
        old(bytes)@.len() < 2 ==> (r matches Err(e) && e == DecodeError::Truncated && final(bytes)@
            == old(bytes)@),
        old(bytes)@.len() >= 2 ==> {
            let n = old(bytes)@[0] as int * 256 + old(bytes)@[1] as int;
            if old(bytes)@.len() < 2 + n {
                r matches Err(e) && e == DecodeError::Truncated && final(bytes)@ == old(bytes)@
            } else {
                final(bytes)@ == old(bytes)@.skip(2 + n) && D::deserialized_as(
                    old(bytes)@.subrange(2, 2 + n),
                    r,
                )
            }
        },
{
    if bytes.len() < 2 {
        return Err(DecodeError::Truncated);
    }
    let declared: usize = (bytes[0] as usize) * 256 + (bytes[1] as usize);
    if bytes.len() - 2 < declared {
        return Err(DecodeError::Truncated);
    }
    let n = read_len(bytes);
    let payload = take_front(bytes, n as usize);
    proof {
        assert(bytes@ =~= old(bytes)@.skip(2 + n as int));
        assert(payload@ =~= old(bytes)@.subrange(2, 2 + n as int));
    }
    D::deserialize(payload)
}

/// Frames one payload as a record; rejects a payload longer than the prefix
/// can state.
pub fn encode_record(p: &Vec<u8>) -> (r: Result<Vec<u8>, EncodeError>)
    ensures
        fits_record(p@) ==> (r matches Ok(b) && b@ == record_bytes(p@)),
        !fits_record(p@) ==> (r matches Err(e) && e == EncodeError::TooLong),
{
    if p.len() > MAX_RECORD_LEN {
        return Err(EncodeError::TooLong);
    }
    let mut out: Vec<u8> = Vec::new();
    out.push((p.len() / 256) as u8);
    out.push((p.len() % 256) as u8);
    let mut i: usize = 0;
    while i < p.len()
        invariant
            i <= p@.len(),
            p@.len() <= 65535,
            out@ == seq![(p@.len() / 256) as u8, (p@.len() % 256) as u8] + p@.take(i as int),
        decreases p@.len() - i,
    {
        let b = p[i];
        out.push(b);
        i = i + 1;
        proof {
            assert(out@ =~= seq![(p@.len() / 256) as u8, (p@.len() % 256) as u8] + p@.take(
                i as int,
            ));
        }
    }
    proof {
        assert(p@.take(p@.len() as int) =~= p@);
        assert(out@ =~= record_bytes(p@));
    }
    Ok(out)
}

/// Decodes a whole buffer as back-to-back records.
pub fn decode_all(bytes: &Vec<u8>) -> (r: Result<Vec<Vec<u8>>, DecodeError>)
    ensures
        r matches Ok(v) ==> decode_bytes(bytes@) == Ok::<Seq<Seq<u8>>, DecodeError>(v.deep_view()),
        r matches Err(e) ==> decode_bytes(bytes@) == Err::<Seq<Seq<u8>>, DecodeError>(e),
{
    let mut out: Vec<Vec<u8>> = Vec::new();
    let mut i: usize = 0;
    proof {
        assert(bytes@.skip(0) =~= bytes@);
        assert forall|rest: Seq<Seq<u8>>|
            decode_bytes(bytes@.skip(0)) == Ok::<Seq<Seq<u8>>, DecodeError>(rest)
                implies decode_bytes(bytes@) == Ok::<Seq<Seq<u8>>, DecodeError>(
            out.deep_view() + rest,
        ) by {
            assert(out.deep_view() + rest =~= rest);
        }
    }
    while i < bytes.len()
        invariant
            i <= bytes@.len(),
            forall|rest: Seq<Seq<u8>>|
                decode_bytes(bytes@.skip(i as int)) == Ok::<Seq<Seq<u8>>, DecodeError>(rest)
                    ==> decode_bytes(bytes@) == Ok::<Seq<Seq<u8>>, DecodeError>(
                    out.deep_view() + rest,
                ),
            forall|e: DecodeError|
                decode_bytes(bytes@.skip(i as int)) == Err::<Seq<Seq<u8>>, DecodeError>(e)
                    ==> decode_bytes(bytes@) == Err::<Seq<Seq<u8>>, DecodeError>(e),
        decreases bytes@.len() - i,
    {
        let remaining = bytes.len() - i;
        if remaining < 2 {
            proof {
                assert(bytes@.skip(i as int).len() == remaining);
                assert(decode_bytes(bytes@.skip(i as int)) == Err::<Seq<Seq<u8>>, DecodeError>(
                    DecodeError::Truncated,
                ));
            }
            return Err(DecodeError::Truncated);
        }
        let n: usize = (bytes[i] as usize) * 256 + (bytes[i + 1] as usize);
        let ghost tail = bytes@.skip(i as int);
        proof {
            assert(tail[0] == bytes@[i as int]);
            assert(tail[1] == bytes@[i as int + 1]);
        }
        if remaining - 2 < n {
            proof {
                assert(tail.len() < 2 + n);
                assert(decode_bytes(tail) == Err::<Seq<Seq<u8>>, DecodeError>(
                    DecodeError::Truncated,
                ));
            }
            return Err(DecodeError::Truncated);
        }
        let mut payload: Vec<u8> = Vec::new();
        let end: usize = i + 2 + n;
        let mut j: usize = i + 2;
        while j < end
            invariant
                i + 2 <= j <= end,
                end == i + 2 + n,
                end <= bytes@.len(),
                payload@ == bytes@.subrange(i as int + 2, j as int),
            decreases end - j,
        {
            let b = bytes[j];
            payload.push(b);
            j = j + 1;
            proof {
                assert(payload@ =~= bytes@.subrange(i as int + 2, j as int));
            }
        }
        proof {
            assert(tail.subrange(2, 2 + n as int) =~= payload@);
            assert(tail.skip(2 + n as int) =~= bytes@.skip(i as int + 2 + n as int));
            assert(decode_bytes(tail) == (match decode_bytes(tail.skip(2 + n as int)) {
                Ok(rest) => Ok::<Seq<Seq<u8>>, DecodeError>(seq![payload@] + rest),
                Err(e) => Err::<Seq<Seq<u8>>, DecodeError>(e),
            }));
        }
        let ghost out_before = out.deep_view();
        let ghost payload_v = payload@;
        let ghost tail2 = bytes@.skip(i as int + 2 + n as int);
        out.push(payload);
        proof {
            assert(out.deep_view() =~~= out_before.push(payload_v));
            assert forall|rest: Seq<Seq<u8>>|
                decode_bytes(tail2) == Ok::<Seq<Seq<u8>>, DecodeError>(
                    rest,
                ) implies decode_bytes(bytes@) == Ok::<Seq<Seq<u8>>, DecodeError>(
                out.deep_view() + rest,
            ) by {
                assert(decode_bytes(tail) == Ok::<Seq<Seq<u8>>, DecodeError>(
                    seq![payload_v] + rest,
                ));
                assert(out_before + (seq![payload_v] + rest) =~~= out.deep_view() + rest);
            }
        }
        i = end;
    }
    proof {
        assert(bytes@.skip(i as int).len() == 0);
        assert(decode_bytes(bytes@.skip(i as int)) == Ok::<Seq<Seq<u8>>, DecodeError>(
            Seq::<Seq<u8>>::empty(),
        ));
        assert(out.deep_view() + Seq::<Seq<u8>>::empty() =~= out.deep_view());
    }
    Ok(out)
}


/// Copies a byte vector.
pub fn copy_bytes(src: &Vec<u8>) -> (r: Vec<u8>)
    ensures
        r@ == src@,
{
    let mut r: Vec<u8> = Vec::new();
    let mut i: usize = 0;
    while i < src.len()
        invariant
            i <= src@.len(),
            r@ == src@.take(i as int),
        decreases src@.len() - i,
    {
        let b = src[i];
        r.push(b);
        i = i + 1;
        proof {
            assert(r@ =~= src@.take(i as int));
        }
    }
    proof {
        assert(src@.take(i as int) =~= src@);
    }
    r
}

/// Frames a whole batch of payloads as back-to-back records; rejects the
/// batch when any payload is too long for a record.
pub fn serialize_all(paths: &Vec<Vec<u8>>) -> (r: Result<Vec<u8>, EncodeError>)
    ensures
        all_fit(paths.deep_view()) ==> (r matches Ok(b) && b@ == records_bytes(paths.deep_view())),
        !all_fit(paths.deep_view()) ==> (r matches Err(e) && e == EncodeError::TooLong),
{
    let ghost pv = paths.deep_view();
    let mut out: Vec<u8> = Vec::new();
    let mut i: usize = 0;
    proof {
        assert(pv.take(0) =~= Seq::<Seq<u8>>::empty());
        assert(out@ =~= records_bytes(pv.take(0)));
    }
    while i < paths.len()
        invariant
            i <= paths@.len(),
            pv == paths.deep_view(),
            pv.len() == paths@.len(),
            out@ == records_bytes(pv.take(i as int)),
            forall|j: int| 0 <= j < i ==> fits_record(#[trigger] pv[j]),
        decreases paths@.len() - i,
    {
        proof {
            assert(pv[i as int] =~= paths@[i as int]@);
        }
        let mut rec = match encode_record(&paths[i]) {
            Ok(b) => b,
            Err(_) => {
                proof {
                    assert(!fits_record(pv[i as int]));
                }
                return Err(EncodeError::TooLong);
            },
        };
        out.append(&mut rec);
        proof {
            lemma_records_bytes_push(pv.take(i as int), pv[i as int]);
            assert(pv.take(i as int + 1) =~= pv.take(i as int).push(pv[i as int]));
            assert(out@ =~= records_bytes(pv.take(i as int + 1)));
        }
        i = i + 1;
    }
    proof {
        assert(pv.take(i as int) =~= pv);
    }
    Ok(out)
}

} // verus!
