//! The table: an in-memory, deduplicated collection of records with a
//! persistence identity (label and optional save path) and a
//! duplicate-handling policy.
//!
//! The collection is modelled by the sequence of stored record views
//! ([`Database::recs`]) and, since order carries no meaning, by the set of
//! those views ([`Database::rec_set`]).  The standing invariant
//! ([`Database::wf`]) is the set invariant: no two stored records compare
//! equal.  Every operation states over that model exactly when it succeeds,
//! which error it returns otherwise, and that a failed operation leaves the
//! table untouched.

use vstd::prelude::*;

use crate::codec::encode_payload;
use crate::codec::parse_payload;
use crate::codec::seq_views;
use crate::codec::spec_payload;
use crate::errors::DatabaseError;
use crate::record::Record;

verus! {

/// The primary database structure, allowing storage of a given generic.
///
/// The stored type must implement the [`Record`] contract: decidable
/// equality of views (used only to determine uniqueness) and a symmetric
/// binary encoding (used only by persistence).
pub struct Database<T: Record> {
    /// A human-readable identifier.  The embedding host may use it to
    /// derive a default persistence file name; the table itself never
    /// falls back to it silently.
    pub label: String,
    /// The explicit persistence path.  While `None`, every persistence
    /// operation fails with [`DatabaseError::SavePathRequired`].
    pub save_path: Option<String>,
    /// When true, adding a record equal to a stored one is a reported
    /// error; when false it is a silent no-op.
    pub strict_dupes: bool,
    /// The backing store.  Hosts should go through the table's operations,
    /// which keep the set invariant [`Database::wf`]; every contract here
    /// assumes it.
    pub items: Vec<T>,
}

impl<T: Record> Database<T> {
    /// The views of the stored records, in storage order.
    pub closed spec fn recs(&self) -> Seq<<T as View>::V> {
        seq_views(self.items@)
    }

    /// The collection as a set of record views: the table's abstract value.
    pub open spec fn rec_set(&self) -> Set<<T as View>::V> {
        self.recs().to_set()
    }

    /// The set invariant: no two stored records compare equal.  Established
    /// by [`Database::new`] and preserved by every operation, so it holds
    /// after any sequence of adds, removes and loads.
    pub open spec fn wf(&self) -> bool {
        self.recs().no_duplicates()
    }

    /// Creates a new, empty database instance.
    pub fn new(label: String, save_path: Option<String>, strict_dupes: bool) -> (db: Database<T>)
        ensures
            db.label == label,
            db.save_path == save_path,
            db.strict_dupes == strict_dupes,
            db.recs() == Seq::<<T as View>::V>::empty(),
            db.wf(),
    {
        let db = Database { label, save_path, strict_dupes, items: Vec::new() };
        proof {
            assert(db.recs() =~= Seq::<<T as View>::V>::empty());
        }
        db
    }

    /// The number of records currently stored.
    pub fn len(&self) -> (n: usize)
        ensures
            n == self.recs().len(),
    {
        self.items.len()
    }

    /// Adds a new item to the in-memory database.
    ///
    /// Under the strict-duplicate policy, adding an item equal to a stored
    /// one fails with [`DatabaseError::DupeFound`] and changes nothing — in
    /// particular the cardinality stays the same.  Under the lax policy the
    /// same call is a silent no-op keeping the stored instance.  Adding an
    /// absent item appends it.  No disk access either way.
    pub fn add_item(&mut self, item: T) -> (r: Result<(), DatabaseError>)
        requires
            old(self).wf(),
        ensures
            final(self).wf(),
            final(self).label == old(self).label,
            final(self).save_path == old(self).save_path,
            final(self).strict_dupes == old(self).strict_dupes,
            old(self).strict_dupes && old(self).rec_set().contains(item@) ==> (r matches Err(
                DatabaseError::DupeFound,
            ) && *final(self) == *old(self)),
            !old(self).strict_dupes && old(self).rec_set().contains(item@) ==> (r matches Ok(())
                && *final(self) == *old(self)),
            !old(self).rec_set().contains(item@) ==> (r matches Ok(()) && final(self).recs()
                == old(self).recs().push(item@)),
            r matches Ok(()) ==> final(self).rec_set() == old(self).rec_set().insert(item@),
    {
        match find_index(&self.items, &item) {
            Some(_) => {
                proof {
                    lemma_view_index_contains::<T>(self.items@, item@);
                    assert(self.rec_set().insert(item@) =~= self.rec_set());
                }
                if self.strict_dupes {
                    Err(DatabaseError::DupeFound)
                } else {
                    Ok(())
                }
            },
            None => {
                proof {
                    lemma_view_index_contains::<T>(self.items@, item@);
                }
                let ghost oldrv = self.recs();
                self.items.push(item);
                proof {
                    assert(self.recs() =~= oldrv.push(item@));
                    lemma_push_not_contained_no_dup(oldrv, item@);
                    oldrv.lemma_push_to_set_commute(item@);
                }
                Ok(())
            },
        }
    }

    /// Removes an item from the database.
    ///
    /// Fails with [`DatabaseError::ItemNotFound`], and changes nothing, if
    /// no stored record equals the argument.  Otherwise removes exactly one
    /// entry — by the set invariant there is at most one — so the
    /// cardinality drops by exactly one.
    pub fn remove_item(&mut self, item: T) -> (r: Result<(), DatabaseError>)
        requires
            old(self).wf(),
        ensures
            final(self).wf(),
            final(self).label == old(self).label,
            final(self).save_path == old(self).save_path,
            final(self).strict_dupes == old(self).strict_dupes,
            !old(self).rec_set().contains(item@) ==> (r matches Err(DatabaseError::ItemNotFound)
                && *final(self) == *old(self)),
            old(self).rec_set().contains(item@) ==> (r matches Ok(()) && final(self).rec_set()
                == old(self).rec_set().remove(item@) && final(self).recs().len() + 1 == old(
                self,
            ).recs().len()),
    {
        match find_index(&self.items, &item) {
            None => {
                proof {
                    lemma_view_index_contains::<T>(self.items@, item@);
                }
                Err(DatabaseError::ItemNotFound)
            },
            Some(j) => {
                let ghost oldrv = self.recs();
                let ghost olditems = self.items@;
                proof {
                    lemma_view_index_contains::<T>(self.items@, item@);
                }
                self.items.remove(j);
                proof {
                    olditems.remove_ensures(j as int);
                    oldrv.remove_ensures(j as int);
                    assert(self.recs() =~= oldrv.remove(j as int));
                    lemma_unique_remove_to_set(oldrv, j as int);
                    assert(oldrv[j as int] == item@);
                }
                Ok(())
            },
        }
    }

    /// Query the database for a specific item.
    ///
    /// Looks up by equality of views and returns a reference to the stored
    /// instance when one is present (the stored instance, not the
    /// argument), or `None` exactly when no stored record equals the
    /// argument.  Read-only.
    pub fn query_item(&mut self, item: T) -> (r: Option<&T>)
        ensures
            *final(self) == *old(self),
            r matches Some(x) ==> x@ == item@ && old(self).rec_set().contains(item@),
            r is None <==> !old(self).rec_set().contains(item@),
    {
        match find_index(&self.items, &item) {
            Some(j) => {
                proof {
                    lemma_view_index_contains::<T>(self.items@, item@);
                }
                Some(&self.items[j])
            },
            None => {
                proof {
                    lemma_view_index_contains::<T>(self.items@, item@);
                }
                None
            },
        }
    }

    /// Dumps/saves the database to a complete binary payload.
    ///
    /// Resolves the target path first: while [`Database::save_path`] is
    /// absent the call fails with [`DatabaseError::SavePathRequired`] and
    /// produces nothing (the table never silently derives a dump path from
    /// its label).  Otherwise the returned bytes are the full payload of
    /// the current collection, for the host to write — atomically, stage
    /// and rename — to the resolved path.
    pub fn dump_db(&self) -> (r: Result<Vec<u8>, DatabaseError>)
        ensures
            self.save_path is None ==> r matches Err(DatabaseError::SavePathRequired),
            self.save_path is Some ==> (r matches Ok(b) && b@ == spec_payload::<T>(self.recs())),
    {
        match &self.save_path {
            None => Err(DatabaseError::SavePathRequired),
            Some(_) => Ok(encode_payload(&self.items)),
        }
    }

    /// Loads the whole collection from a persistence payload, **erasing any
    /// current in-memory data** on success.
    ///
    /// All-or-nothing: if the bytes do not form a valid payload for the
    /// current record type the call fails with
    /// [`DatabaseError::DecodeError`] and the in-memory collection is left
    /// completely unchanged.  On success the collection equals, as a set,
    /// the record sequence the payload encodes (deduplicated, order not
    /// preserved).  Label, path and policy are never touched.  The host
    /// reads the file at the resolved path and hands the bytes in.
    pub fn load_db(&mut self, bytes: &Vec<u8>) -> (r: Result<(), DatabaseError>)
        requires
            old(self).wf(),
        ensures
            final(self).wf(),
            final(self).label == old(self).label,
            final(self).save_path == old(self).save_path,
            final(self).strict_dupes == old(self).strict_dupes,
            r matches Err(e) ==> (e matches DatabaseError::DecodeError && *final(self) == *old(
                self,
            )),
            r matches Ok(()) ==> exists|s: Seq<<T as View>::V>|
                bytes@ == spec_payload::<T>(s) && final(self).rec_set() == s.to_set(),
            forall|s: Seq<<T as View>::V>| bytes@ == spec_payload::<T>(s) ==> (r matches Ok(())
                && final(self).rec_set() == s.to_set()),
    {
        match parse_payload::<T>(bytes) {
            None => Err(DatabaseError::DecodeError),
            Some(v) => {
                let ghost decoded = seq_views(v@);
                let deduped = dedup_records(v);
                self.items = deduped;
                proof {
                    assert(bytes@ == spec_payload::<T>(decoded));
                    assert(self.rec_set() == decoded.to_set());
                }
                Ok(())
            },
        }
    }
}

/// Finds the index of the first stored record whose view equals the
/// needle's, if any.
fn find_index<T: Record>(items: &Vec<T>, needle: &T) -> (r: Option<usize>)
    ensures
        r matches Some(j) ==> j < items@.len() && items@[j as int]@ == needle@,
        r is None ==> forall|k: int| 0 <= k < items@.len() ==> items@[k]@ != needle@,
{
    let mut j: usize = 0;
    while j < items.len()
        invariant
            j <= items@.len(),
            forall|k: int| 0 <= k < j ==> items@[k]@ != needle@,
        decreases items@.len() - j,
    {
        if items[j].same(needle) {
            return Some(j);
        }
        j = j + 1;
    }
    None
}

/// Rebuilds a decoded record sequence as a deduplicated collection: same
/// views as a set, no two equal.
fn dedup_records<T: Record>(v: Vec<T>) -> (out: Vec<T>)
    ensures
        seq_views(out@).no_duplicates(),
        seq_views(out@).to_set() == seq_views(v@).to_set(),
{
    let ghost orig = v@;
    let mut rest = v;
    let mut out: Vec<T> = Vec::new();
    proof {
        assert(seq_views(out@) =~= Seq::<<T as View>::V>::empty());
        assert(rest@ =~= orig.skip(0));
        assert(seq_views(orig.take(0)) =~= Seq::<<T as View>::V>::empty());
        assert(seq_views(out@).to_set() =~= seq_views(orig.take(0)).to_set());
    }
    while rest.len() > 0
        invariant
            rest@.len() <= orig.len(),
            rest@ == orig.skip(orig.len() - rest@.len()),
            seq_views(out@).no_duplicates(),
            seq_views(out@).to_set() == seq_views(orig.take(orig.len() - rest@.len())).to_set(),
        decreases rest@.len(),
    {
        let ghost j = orig.len() - rest@.len();
        let x = rest.remove(0);
        proof {
            assert(x == orig.skip(j as int)[0]);
            assert(x == orig[j as int]);
            assert(rest@ =~= orig.skip(j as int + 1));
            assert(seq_views(orig.take(j as int + 1)) =~= seq_views(orig.take(j as int)).push(
                x@,
            ));
            seq_views(orig.take(j as int)).lemma_push_to_set_commute(x@);
        }
        match find_index(&out, &x) {
            Some(_) => {
                proof {
                    lemma_view_index_contains::<T>(out@, x@);
                    assert(seq_views(out@).to_set().insert(x@) =~= seq_views(out@).to_set());
                }
            },
            None => {
                proof {
                    lemma_view_index_contains::<T>(out@, x@);
                }
                let ghost oldov = seq_views(out@);
                out.push(x);
                proof {
                    assert(seq_views(out@) =~= oldov.push(x@));
                    lemma_push_not_contained_no_dup(oldov, x@);
                    oldov.lemma_push_to_set_commute(x@);
                }
            },
        }
    }
    proof {
        assert(orig.take(orig.len() as int) =~= orig);
    }
    out
}

/// A sequence of records contains one with view `v` exactly when some index
/// holds it; bridges the executable search to set membership.
proof fn lemma_view_index_contains<T: Record>(s: Seq<T>, v: <T as View>::V)
    ensures
        seq_views(s).to_set().contains(v) <==> exists|k: int|
            0 <= k < s.len() && #[trigger] s[k]@ == v,
{
    if seq_views(s).to_set().contains(v) {
        let k = choose|k: int| 0 <= k < seq_views(s).len() && seq_views(s)[k] == v;
        assert(s[k]@ == v);
    }
    if exists|k: int| 0 <= k < s.len() && #[trigger] s[k]@ == v {
        let k = choose|k: int| 0 <= k < s.len() && #[trigger] s[k]@ == v;
        assert(seq_views(s)[k] == v);
        assert(seq_views(s).contains(v));
    }
}

/// Pushing a view not yet present preserves the set invariant.
proof fn lemma_push_not_contained_no_dup<A>(s: Seq<A>, v: A)
    requires
        s.no_duplicates(),
        !s.contains(v),
    ensures
        s.push(v).no_duplicates(),
{
    assert forall|p: int, q: int|
        0 <= p < s.push(v).len() && 0 <= q < s.push(v).len() && p != q implies s.push(v)[p]
        != s.push(v)[q] by {
        if p < s.len() && q < s.len() {
            assert(s.push(v)[p] == s[p]);
            assert(s.push(v)[q] == s[q]);
        } else if q == s.len() {
            assert(s.push(v)[p] == s[p]);
            assert(!s.contains(v));
        } else {
            assert(s.push(v)[q] == s[q]);
            assert(!s.contains(v));
        }
    }
}

/// Removing the one index holding a view removes exactly that view from
/// the abstract set and keeps the collection duplicate-free.
proof fn lemma_unique_remove_to_set<A>(s: Seq<A>, i: int)
    requires
        s.no_duplicates(),
        0 <= i < s.len(),
    ensures
        s.remove(i).no_duplicates(),
        s.remove(i).to_set() == s.to_set().remove(s[i]),
{
    s.remove_ensures(i);
    let t = s.remove(i);
    assert forall|p: int, q: int| 0 <= p < t.len() && 0 <= q < t.len() && p != q implies t[p]
        != t[q] by {
        let op = if p < i { p } else { p + 1 };
        let oq = if q < i { q } else { q + 1 };
        assert(t[p] == s[op]);
        assert(t[q] == s[oq]);
    }
    assert forall|x: A| t.to_set().contains(x) <==> s.to_set().remove(s[i]).contains(x) by {
        if t.contains(x) {
            let k = choose|k: int| 0 <= k < t.len() && t[k] == x;
            let ok = if k < i { k } else { k + 1 };
            assert(s[ok] == x);
            assert(s.contains(x));
            assert(x != s[i]);
        }
        if s.contains(x) && x != s[i] {
            let k = choose|k: int| 0 <= k < s.len() && s[k] == x;
            let nk = if k < i { k } else { k - 1 };
            assert(t[nk] == x);
            assert(t.contains(x));
        }
    }
    assert(t.to_set() =~= s.to_set().remove(s[i]));
}

/// Remove-correctness law: taking a present record view out of the
/// collection's abstract set makes it absent — a subsequent query finds
/// nothing — and drops the cardinality by exactly one.
pub proof fn lemma_remove_then_absent<A>(s: Set<A>, v: A)
    requires
        s.finite(),
        s.contains(v),
    ensures
        !s.remove(v).contains(v),
        s.remove(v).len() + 1 == s.len(),
{
}

/// Round-trip law: a payload byte-equal to the one a well-formed table
/// dumps describes record views set-equal to that table's collection — so
/// loading a dump into a fresh table of the same record type reproduces
/// the collection, whatever order the records were laid out in.  The
/// bounds only restate machine limits, as in
/// [`lemma_payload_injective`](crate::lemma_payload_injective).
pub proof fn lemma_dump_load_round_trip<T: Record>(db: Database<T>, s: Seq<<T as View>::V>)
    requires
        db.wf(),
        spec_payload::<T>(s) == spec_payload::<T>(db.recs()),
        s.len() <= u64::MAX,
        db.recs().len() <= u64::MAX,
        forall|i: int| 0 <= i < s.len() ==> #[trigger] T::spec_enc(s[i]).len() <= u64::MAX,
        forall|i: int| 0 <= i < db.recs().len() ==> #[trigger] T::spec_enc(
            db.recs()[i],
        ).len() <= u64::MAX,
    ensures
        s.to_set() == db.rec_set(),
{
    crate::codec::lemma_payload_injective::<T>(s, db.recs());
}

/// Dedup-invariant law: in a well-formed table the stored count equals the
/// cardinality of the abstract set, so no two stored records compare equal
/// and re-adding a duplicate under the strict policy (which leaves the
/// table untouched) keeps the cardinality unchanged.
pub proof fn lemma_wf_cardinality<T: Record>(db: Database<T>)
    requires
        db.wf(),
    ensures
        db.rec_set().finite(),
        db.rec_set().len() == db.recs().len(),
{
    broadcast use vstd::seq_lib::seq_to_set_is_finite;

    db.recs().unique_seq_to_set();
}

} // verus!
