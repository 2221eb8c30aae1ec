//! The source-iterator capability that the merge cursor consumes, and a
//! concrete in-memory source over a vector of records.

use vstd::prelude::*;
use crate::order::Record;

verus! {

/// The error a source may report when it is advanced. Relies on
/// `anyhow::Error` only as an opaque carrier: the cursor neither builds nor
/// inspects such a value, it hands the first failure back unchanged.
#[verifier::external_type_specification]
#[verifier::external_body]
pub struct ExAnyhowError(anyhow::Error);

/// Ordered key/value access over one underlying sorted data layer.
///
/// A source is modelled by `entries()`: the sequence of key/value pairs it
/// still has to produce, the currently exposed one first. The source is valid
/// exactly while that sequence is non-empty. Advancing may fail; after a
/// failure nothing is promised about the source's state.
pub trait StorageIterator: Sized {
    /// Internal well-formedness of the source.
    spec fn inv(&self) -> bool;

    /// The key/value pairs still to be produced, the exposed one first.
    spec fn entries(&self) -> Seq<(Seq<u8>, Seq<u8>)>;

    /// Whether a record is currently exposed.
    fn is_valid(&self) -> (b: bool)
        requires
            self.inv(),
        ensures
            b == (self.entries().len() > 0),
    ;

    /// The key of the exposed record. Defined only while valid.
    fn key(&self) -> (k: Vec<u8>)
        requires
            self.inv(),
            self.entries().len() > 0,
        ensures
            k@ == self.entries()[0].0,
    ;

    /// The value of the exposed record. Defined only while valid.
    fn value(&self) -> (v: Vec<u8>)
        requires
            self.inv(),
            self.entries().len() > 0,
        ensures
            v@ == self.entries()[0].1,
    ;

    /// Move to the following record. On success exactly the exposed record is
    /// consumed; on failure the source's subsequent state is undefined.
    fn next(&mut self) -> (r: Result<(), anyhow::Error>)
        requires
            old(self).inv(),
            old(self).entries().len() > 0,
        ensures
            r is Ok ==> final(self).inv() && final(self).entries()
                == old(self).entries().drop_first(),
    ;
}

/// Copy the bytes of a key or value into a fresh vector.
pub fn copy_bytes(src: &Vec<u8>) -> (out: Vec<u8>)
    ensures
        out@ == src@,
{
    let mut out: Vec<u8> = Vec::new();
    let mut i: usize = 0;
    while i < src.len()
        invariant
            i <= src@.len(),
            out@ == src@.take(i as int),
        decreases src@.len() - i,
    {
        out.push(src[i]);
        i = i + 1;
        proof {
            assert(out@ =~= src@.take(i as int));
        }
    }
    proof {
        assert(src@.take(src@.len() as int) =~= src@);
    }
    out
}

/// An in-memory source: a vector of records walked front to back.
pub struct RecordIterator {
    records: Vec<Record>,
    pos: usize,
}

impl RecordIterator {
    /// Build a source over `records`, positioned on the first one.
    pub fn new(records: Vec<Record>) -> (s: Self)
        ensures
            s.inv(),
            s.entries() == records@.map_values(|r: Record| r.view_pair()),
    {
        let s = RecordIterator { records, pos: 0 };
        proof {
            assert(s.entries() =~= s.records@.map_values(|r: Record| r.view_pair()));
        }
        s
    }
}

impl StorageIterator for RecordIterator {
    closed spec fn inv(&self) -> bool {
        self.pos <= self.records@.len()
    }

    closed spec fn entries(&self) -> Seq<(Seq<u8>, Seq<u8>)> {
        self.records@.map_values(|r: Record| r.view_pair()).skip(self.pos as int)
    }

    fn is_valid(&self) -> (b: bool) {
        self.pos < self.records.len()
    }

    fn key(&self) -> (k: Vec<u8>) {
        copy_bytes(&self.records[self.pos].key)
    }

    fn value(&self) -> (v: Vec<u8>) {
        copy_bytes(&self.records[self.pos].value)
    }

    fn next(&mut self) -> (r: Result<(), anyhow::Error>) {
        let n = self.records.len();
        proof {
            assert(self.entries().len() == self.records@.len() - self.pos);
            assert(self.pos < n);
        }
        self.pos = self.pos + 1;
        proof {
            assert(self.entries() =~= old(self).entries().drop_first());
        }
        Ok(())
    }
}

} // verus!
