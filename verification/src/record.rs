//! The record contract: what a type must provide so that a
//! [`Database`](crate::Database) can deduplicate it and persist it.
//!
//! A record type supplies an equality decider (`same`) that agrees with
//! equality of its abstract view, and a symmetric binary encoding:
//! `decode` recovers, from `encode`'s output, a record with the very view
//! that was encoded.  The module also provides [`Person`], a small concrete
//! record type used by the tests and by embedding hosts that need nothing
//! fancier.

use vstd::prelude::*;

use vstd::bytes::lemma_auto_spec_u32_to_from_le_bytes;
use vstd::bytes::lemma_auto_spec_u64_to_from_le_bytes;
use vstd::bytes::spec_u32_to_le_bytes;
use vstd::bytes::spec_u64_to_le_bytes;
use vstd::bytes::u32_from_le_bytes;
use vstd::bytes::u32_to_le_bytes;
use vstd::bytes::u64_from_le_bytes;
use vstd::bytes::u64_to_le_bytes;
use vstd::slice::slice_subrange;
use vstd::slice::slice_to_vec;

verus! {

/// The capability set a stored type must provide: decidable equality of
/// views, and an injective, symmetric binary encoding.  Uniqueness in a
/// [`Database`](crate::Database) is judged on views (`a@`), so `same` must
/// decide exactly that relation.
pub trait Record: View + Sized {
    /// The byte encoding of a record with view `v`.  Every executable
    /// encoder and decoder of the implementing type is held to this one
    /// specification, which is what makes the persistence round trip a
    /// theorem rather than a convention.
    spec fn spec_enc(v: <Self as View>::V) -> Seq<u8>;

    /// Decides equality of views: the relation under which the table
    /// deduplicates.
    fn same(&self, other: &Self) -> (r: bool)
        ensures
            r == (self@ == other@),
    ;

    /// Encodes this record, producing exactly `spec_enc(self@)`.
    fn encode(&self) -> (out: Vec<u8>)
        ensures
            out@ == Self::spec_enc(self@),
    ;

    /// Decodes a record from bytes.  Sound: a successful decode returns a
    /// record whose view encodes to exactly the input.  Complete: if the
    /// input is the encoding of any view, decoding succeeds and returns a
    /// record with that view.
    fn decode(bytes: &[u8]) -> (r: Option<Self>)
        ensures
            r matches Some(y) ==> Self::spec_enc(y@) == bytes@,
            forall|v: <Self as View>::V| bytes@ == Self::spec_enc(v)
                ==> (r matches Some(y) && y@ == v),
    ;

    /// The encoding is injective on views: two views with the same encoding
    /// are the same view.  Together with `decode`'s contract this makes the
    /// persisted payload an unambiguous description of the collection.
    proof fn lemma_enc_injective(v1: <Self as View>::V, v2: <Self as View>::V)
        requires
            Self::spec_enc(v1) == Self::spec_enc(v2),
        ensures
            v1 == v2,
    ;
}

/// The abstract view of a [`Person`]: the name as a byte sequence and the
/// age.
pub ghost struct PersonV {
    pub name: Seq<u8>,
    pub age: i32,
}

/// A ready-made record type: a named person with an age.  The name is held
/// as raw bytes (a host handing over text passes `name.into_bytes()`), so
/// that the encoding is exact without committing to a text encoding.
#[derive(Debug, Clone)]
pub struct Person {
    pub name: Vec<u8>,
    pub age: i32,
}

impl View for Person {
    type V = PersonV;

    open spec fn view(&self) -> PersonV {
        PersonV { name: self.name@, age: self.age }
    }
}

/// Compares two byte vectors for view equality.
fn bytes_eq(a: &Vec<u8>, b: &Vec<u8>) -> (r: bool)
    ensures
        r == (a@ == b@),
{
    if a.len() != b.len() {
        return false;
    }
    let mut i: usize = 0;
    while i < a.len()
        invariant
            i <= a.len(),
            a@.len() == b@.len(),
            forall|j: int| 0 <= j < i ==> a@[j] == b@[j],
        decreases a.len() - i,
    {
        if a[i] != b[i] {
            return false;
        }
        i = i + 1;
    }
    proof {
        assert(a@ =~= b@);
    }
    true
}

impl Record for Person {
    open spec fn spec_enc(v: PersonV) -> Seq<u8> {
        spec_u64_to_le_bytes(v.name.len() as u64) + v.name + spec_u32_to_le_bytes(v.age as u32)
    }

    fn same(&self, other: &Self) -> (r: bool)
        ensures
            r == (self@ == other@),
    {
        bytes_eq(&self.name, &other.name) && self.age == other.age
    }

    fn encode(&self) -> (out: Vec<u8>)
        ensures
            out@ == Self::spec_enc(self@),
    {
        let mut out = u64_to_le_bytes(self.name.len() as u64);
        let mut name = self.name.clone();
        out.append(&mut name);
        let mut age = u32_to_le_bytes(self.age as u32);
        out.append(&mut age);
        out
    }

    fn decode(bytes: &[u8]) -> (r: Option<Self>)
        ensures
            r matches Some(y) ==> Self::spec_enc(y@) == bytes@,
            forall|v: PersonV| bytes@ == Self::spec_enc(v) ==> (r matches Some(y) && y@ == v),
    {
        proof {
            lemma_auto_spec_u64_to_from_le_bytes();
            lemma_auto_spec_u32_to_from_le_bytes();
        }
        if bytes.len() < 12 {
            return None;
        }
        let name_len = u64_from_le_bytes(slice_subrange(bytes, 0, 8));
        if name_len != (bytes.len() - 12) as u64 {
            proof {
                assert forall|v: PersonV| bytes@ != Self::spec_enc(v) by {
                    if bytes@ == Self::spec_enc(v) {
                        assert(v.name.len() == bytes@.len() - 12);
                        assert(bytes@.subrange(0, 8) =~= spec_u64_to_le_bytes(
                            v.name.len() as u64,
                        ));
                    }
                }
            }
            return None;
        }
        let nl = bytes.len() - 12;
        let name = slice_to_vec(slice_subrange(bytes, 8, 8 + nl));
        let age_u = u32_from_le_bytes(slice_subrange(bytes, 8 + nl, 12 + nl));
        let age = #[verifier::truncate] (age_u as i32);
        let y = Person { name, age };
        proof {
            lemma_i32_u32_round_trip();
            assert forall|v: PersonV| bytes@ == Self::spec_enc(v) implies y@ == v by {
                assert(v.name.len() == bytes@.len() - 12);
                assert(bytes@.subrange(0, 8) =~= spec_u64_to_le_bytes(v.name.len() as u64));
                assert(bytes@.subrange(8, 8 + nl as int) =~= v.name);
                assert(bytes@.subrange(8 + nl as int, 12 + nl as int) =~= spec_u32_to_le_bytes(
                    v.age as u32,
                ));
                assert(age_u == v.age as u32);
                assert((v.age as u32) as i32 == v.age);
            }
            assert(Self::spec_enc(y@) =~= bytes@) by {
                assert(y@.name =~= bytes@.subrange(8, 8 + nl as int));
                assert((age as u32) == age_u);
                assert(spec_u32_to_le_bytes(age_u) =~= bytes@.subrange(
                    8 + nl as int,
                    12 + nl as int,
                ));
                assert(spec_u64_to_le_bytes(nl as u64) =~= bytes@.subrange(0, 8));
            }
        }
        Some(y)
    }

    proof fn lemma_enc_injective(v1: PersonV, v2: PersonV) {
        lemma_auto_spec_u64_to_from_le_bytes();
        lemma_auto_spec_u32_to_from_le_bytes();
        let e1 = Self::spec_enc(v1);
        let e2 = Self::spec_enc(v2);
        assert(e1.subrange(0, 8) =~= spec_u64_to_le_bytes(v1.name.len() as u64));
        assert(e2.subrange(0, 8) =~= spec_u64_to_le_bytes(v2.name.len() as u64));
        assert(e1.len() == e2.len());
        assert(v1.name.len() == v2.name.len());
        let n = v1.name.len() as int;
        assert(v1.name =~= e1.subrange(8, 8 + n));
        assert(v2.name =~= e2.subrange(8, 8 + n));
        assert(spec_u32_to_le_bytes(v1.age as u32) =~= e1.subrange(8 + n, 12 + n));
        assert(spec_u32_to_le_bytes(v2.age as u32) =~= e2.subrange(8 + n, 12 + n));
        assert(v1.age as u32 == v2.age as u32);
        lemma_i32_u32_round_trip();
        assert(v1 =~= v2);
    }
}

/// Casting an `i32` through `u32` and back is the identity, so a 4-byte
/// little-endian encoding of the age loses nothing.
proof fn lemma_i32_u32_round_trip()
    ensures
        forall|x: i32| #![trigger (x as u32)] ((x as u32) as i32) == x,
        forall|x: u32| #![trigger (x as i32)] ((x as i32) as u32) == x,
{
    assert(forall|x: i32| #![trigger (x as u32)] ((x as u32) as i32) == x) by (bit_vector);
    assert(forall|x: u32| #![trigger (x as i32)] ((x as i32) as u32) == x) by (bit_vector);
}

} // verus!
