//! The store: checkpointed, undoable storage of objects, with lazy
//! collections over queries and pre-materialised cached mappings.

use vstd::prelude::*;

use crate::model::{
    cp_add, cp_commit, cp_delete, cp_open, cp_set, cp_wf, delete_entries, first_gt, has_row,
    insert_row, last_cp_id, last_log_serial, lemma_cp_add_wf, lemma_cp_commit_wf,
    lemma_cp_delete_wf, lemma_cp_open_wf, lemma_cp_set_wf, lemma_first_gt, lemma_insert_row_between,
    lemma_remove_row_between, lemma_revert_concat, lemma_store_init_wf, lemma_store_undo_wf,
    matching_rows, next_pending_serial, patched_rows, remove_row, revert_one,
    revert_seq, rows_where, store_init, store_undo, store_wf, update_entries, update_row, CkV,
    ChangeType, ChangeV, CpV, RowV, StoreV,
};
use crate::object::{Object, PropV, PropValue};
use crate::query::{id_key, QnV, QueryNode};
use crate::query_builder::{IntoQueryNode, QueryBuilder};

verus! {

/// All errors that may be returned from a [`Store`].
#[derive(Debug)]
pub enum StoreError {
    /// A shape conversion failed.
    Conversion(ConversionError),
    /// Encoding or decoding a persisted value failed.
    Serialization(String),
    /// The backing storage cannot take the operation; in this store that is
    /// an exhausted identity, serial or checkpoint counter.
    Storage(String),
    /// The caller violated a precondition.
    Usage(String),
    /// `one` was called on a collection that did not hold exactly one object.
    NotOne(usize),
}

/// All errors that may come from converting an [`Object`] into a shape.
#[derive(Debug)]
pub enum ConversionError {
    /// A necessary field is missing.
    FieldMissing(String),
    /// A field cannot be converted to the necessary type.
    FieldWrongType(String, String),
    /// A fixed field holds a value other than its declared one.
    FixedFieldWrongValue(String, PropValue, PropValue),
}

/// One stored row: an object's identity and its properties.
pub(crate) struct Row {
    pub(crate) id: i64,
    pub(crate) props: Object,
}

impl View for Row {
    type V = RowV;

    closed spec fn view(&self) -> RowV {
        RowV { id: self.id as int, props: self.props@ }
    }
}

impl Clone for Row {
    fn clone(&self) -> (r: Self)
        ensures
            r@ == self@,
    {
        let r = Row { id: self.id, props: self.props.clone() };
        proof {
            assert(r@ =~~= self@);
        }
        r
    }
}

/// The mathematical rows a row vector stands for.
spec fn rows_view(rows: Seq<Row>) -> Seq<RowV> {
    Seq::new(rows.len(), |i: int| rows[i]@)
}

/// One change-log entry.
pub(crate) struct Change {
    pub(crate) serial: i64,
    pub(crate) kind: ChangeType,
    pub(crate) object_id: i64,
    pub(crate) previous: Object,
}

impl View for Change {
    type V = ChangeV;

    closed spec fn view(&self) -> ChangeV {
        ChangeV {
            serial: self.serial as int,
            kind: self.kind,
            object_id: self.object_id as int,
            previous: self.previous@,
        }
    }
}

/// The mathematical log a change vector stands for.
spec fn log_view(log: Seq<Change>) -> Seq<ChangeV> {
    Seq::new(log.len(), |i: int| log[i]@)
}

/// One checkpoint row.
pub(crate) struct Cp {
    pub(crate) checkpoint_id: i64,
    pub(crate) serial: i64,
    pub(crate) description: String,
}

impl View for Cp {
    type V = CpV;

    closed spec fn view(&self) -> CpV {
        CpV {
            checkpoint_id: self.checkpoint_id as int,
            serial: self.serial as int,
            description: self.description@,
        }
    }
}

/// The mathematical checkpoint stack a vector stands for.
spec fn cps_view(cps: Seq<Cp>) -> Seq<CpV> {
    Seq::new(cps.len(), |i: int| cps[i]@)
}

/// A set of objects with a checkpointed, undoable history.
pub struct Store {
    rows: Vec<Row>,
    log: Vec<Change>,
    cps: Vec<Cp>,
    next_object_id: i64,
}

impl View for Store {
    type V = StoreV;

    closed spec fn view(&self) -> StoreV {
        StoreV {
            rows: rows_view(self.rows@),
            log: log_view(self.log@),
            cps: cps_view(self.cps@),
            next_id: self.next_object_id as int,
        }
    }
}

impl Store {
    #[verifier::type_invariant]
    spec fn inv(&self) -> bool {
        store_wf(self@)
    }

    /// A new, empty store.
    pub fn new() -> (s: Store)
        ensures
            s@ == store_init(),
    {
        let rows: Vec<Row> = Vec::new();
        let log: Vec<Change> = Vec::new();
        let cps: Vec<Cp> = Vec::new();
        proof {
            lemma_store_init_wf();
            assert(StoreV {
                rows: rows_view(rows@),
                log: log_view(log@),
                cps: cps_view(cps@),
                next_id: 1int,
            } =~~= store_init());
        }
        let s = Store { rows, log, cps, next_object_id: 1 };
        proof {
            assert(s@ =~~= store_init());
        }
        s
    }

    /// A [`Collection`] of all objects.
    pub fn all(&self) -> (c: Collection)
        ensures
            c.rows_v() == self@.rows,
            c.query_v() == QnV::Empty,
    {
        Collection { rows: &self.rows, query: QueryNode::Empty }
    }

    /// A [`Collection`] of the objects matching the given query; it takes a
    /// [`QueryNode`] or a [`QueryBuilder`].
    pub fn query<Q: IntoQueryNode>(&self, query: Q) -> (c: Collection)
        ensures
            c.rows_v() == self@.rows,
            c.query_v() == query.query_view(),
    {
        Collection { rows: &self.rows, query: query.into_query() }
    }

    /// The id of the newest checkpoint, or 0 if none exist.
    pub fn last_checkpoint_id(&self) -> (r: Result<i64, StoreError>)
        ensures
            r matches Ok(id) && id as int == last_cp_id(self@.cps),
    {
        proof {
            use_type_invariant(self);
        }
        if self.cps.len() == 0 {
            Ok(0)
        } else {
            let id = self.cps[self.cps.len() - 1].checkpoint_id;
            proof {
                assert(self@.cps.last() == self.cps@[self.cps@.len() - 1]@);
            }
            Ok(id)
        }
    }

    /// Whether the store has changed since the given checkpoint id was the
    /// newest.
    pub fn modified_since(&self, a: i64) -> (r: Result<bool, StoreError>)
        ensures
            r matches Ok(m) && m == (a as int != last_cp_id(self@.cps)),
    {
        let b = match self.last_checkpoint_id() {
            Ok(b) => b,
            Err(e) => {
                return Err(e);
            },
        };
        Ok(a != b)
    }
}

/// How many of the rows match the query.
fn count_matching(rows: &Vec<Row>, query: &QueryNode) -> (n: usize)
    ensures
        n as int == matching_rows(rows_view(rows@), query@).len(),
        n <= rows@.len(),
{
    let ghost rv = rows_view(rows@);
    let len = rows.len();
    let mut n: usize = 0;
    let mut i: usize = 0;
    while i < len
        invariant
            i <= len,
            len == rows@.len(),
            rv == rows_view(rows@),
            n as int == rows_where(rv.take(i as int), query@, true).len(),
            n <= i,
        decreases len - i,
    {
        let ghost pre = rv.take(i as int);
        let ghost now = rv.take(i + 1 as int);
        proof {
            assert(now.drop_last() =~= pre);
            assert(now.last() == rv[i as int]);
            assert(rv[i as int] == rows@[i as int]@);
        }
        if rows[i].props.len() >= 0 && query.matches_object(rows[i].id, &rows[i].props) {
            n = n + 1;
        }
        i = i + 1;
    }
    proof {
        assert(rv.take(len as int) =~= rv);
    }
    n
}

/// The matching rows, each materialised as an object with its identity
/// injected under the reserved name.
fn collect_matching(rows: &Vec<Row>, query: &QueryNode) -> (v: Vec<Object>)
    ensures
        v@.len() == matching_rows(rows_view(rows@), query@).len(),
        forall|k: int|
            0 <= k < v@.len() ==> (#[trigger] v@[k])@ == matching_rows(
                rows_view(rows@),
                query@,
            )[k].props.insert(id_key(), PropV::Num(matching_rows(rows_view(rows@), query@)[k].id)),
    decreases rows@.len(),
{
    let ghost rv = rows_view(rows@);
    let len = rows.len();
    let mut v: Vec<Object> = Vec::new();
    let mut i: usize = 0;
    while i < len
        invariant
            i <= len,
            len == rows@.len(),
            rv == rows_view(rows@),
            v@.len() == rows_where(rv.take(i as int), query@, true).len(),
            forall|k: int|
                0 <= k < v@.len() ==> (#[trigger] v@[k])@ == rows_where(
                    rv.take(i as int),
                    query@,
                    true,
                )[k].props.insert(
                    id_key(),
                    PropV::Num(rows_where(rv.take(i as int), query@, true)[k].id),
                ),
        decreases len - i,
    {
        let ghost pre = rv.take(i as int);
        let ghost now = rv.take(i + 1 as int);
        proof {
            assert(now.drop_last() =~= pre);
            assert(now.last() == rv[i as int]);
            assert(rv[i as int] == rows@[i as int]@);
        }
        if query.matches_object(rows[i].id, &rows[i].props) {
            let mut obj = rows[i].props.clone();
            obj.insert("object_id", rows[i].id);
            v.push(obj);
            proof {
                assert(forall|k: int|
                    0 <= k < rows_where(pre, query@, true).len() ==> rows_where(
                        now,
                        query@,
                        true,
                    )[k] == rows_where(pre, query@, true)[k]);
                assert(rows_where(now, query@, true).last() == rv[i as int]);
            }
        }
        i = i + 1;
    }
    proof {
        assert(rv.take(len as int) =~= rv);
    }
    v
}

/// The object a matching row materialises to: its properties with its
/// identity injected under the reserved name.
pub open spec fn materialized(rows: Seq<RowV>, q: QnV, k: int) -> Map<Seq<char>, PropV> {
    matching_rows(rows, q)[k].props.insert(id_key(), PropV::Num(matching_rows(rows, q)[k].id))
}

/// Whether `t` is an output the shape conversion can give for the `k`-th
/// materialised object.
pub open spec fn converted_from<T: ObjectShapePlain>(
    rows: Seq<RowV>,
    q: QnV,
    k: int,
    t: T,
) -> bool {
    exists|o: Object|
        o@ == materialized(rows, q, k) && call_ensures(
            T::try_from_object,
            (o,),
            Ok::<T, ConversionError>(t),
        )
}

/// Whether `t` is an output the store-aware shape conversion can give for
/// the `k`-th materialised object.
pub open spec fn converted_with_store<T: ObjectShape>(
    rows: Seq<RowV>,
    q: QnV,
    k: int,
    store: &Store,
    t: T,
) -> bool {
    exists|o: Object|
        o@ == materialized(rows, q, k) && call_ensures(
            T::try_convert,
            (o, store),
            Ok::<T, StoreError>(t),
        )
}

/// Whether `out` is an output the mapping function can give for the `k`-th
/// materialised object.
pub open spec fn mapped_from<F: Fn(Object, &Store) -> Result<O, StoreError>, O>(
    f: F,
    rows: Seq<RowV>,
    q: QnV,
    k: int,
    store: &Store,
    out: O,
) -> bool {
    exists|o: Object|
        o@ == materialized(rows, q, k) && call_ensures(f, (o, store), Ok::<O, StoreError>(out))
}

/// Whether `ce` is a failure the shape conversion can give for the `k`-th
/// materialised object.
pub open spec fn conversion_failed<T: ObjectShapePlain>(
    rows: Seq<RowV>,
    q: QnV,
    k: int,
    ce: ConversionError,
) -> bool {
    exists|o: Object|
        o@ == materialized(rows, q, k) && call_ensures(
            T::try_from_object,
            (o,),
            Err::<T, ConversionError>(ce),
        )
}

/// Whether `e` is a failure the store-aware shape conversion can give for
/// the `k`-th materialised object.
pub open spec fn store_conversion_failed<T: ObjectShape>(
    rows: Seq<RowV>,
    q: QnV,
    k: int,
    store: &Store,
    e: StoreError,
) -> bool {
    exists|o: Object|
        o@ == materialized(rows, q, k) && call_ensures(
            T::try_convert,
            (o, store),
            Err::<T, StoreError>(e),
        )
}

/// Whether `n` more change entries can still receive serials.
pub open spec fn serials_fit(c: CkV, n: int) -> bool {
    n == 0 || next_pending_serial(c) + n - 1 <= i64::MAX
}

/// A set of not-yet-committed changes to a [`Store`], as created by
/// [`Store::checkpoint`]. The store moves into the checkpoint, which enforces
/// at most one open checkpoint at a time; [`commit`](Checkpoint::commit)
/// hands the changed store back, [`rollback`](Checkpoint::rollback) the
/// untouched one.
pub struct Checkpoint {
    orig: Store,
    rows: Vec<Row>,
    next_object_id: i64,
    pending: Vec<Change>,
}

impl View for Checkpoint {
    type V = CkV;

    closed spec fn view(&self) -> CkV {
        CkV {
            orig: self.orig@,
            rows: rows_view(self.rows@),
            next_id: self.next_object_id as int,
            pending: log_view(self.pending@),
        }
    }
}

impl Store {
    /// Start a [`Checkpoint`] on the store. All modifications go through a
    /// checkpoint; the store moves into it and comes back at commit or
    /// rollback, so only one checkpoint can be open at a time.
    pub fn checkpoint(self) -> (r: Result<Checkpoint, StoreError>)
        ensures
            r matches Ok(cp) && cp@ == cp_open(self@),
    {
        proof {
            use_type_invariant(&self);
            lemma_cp_open_wf(self@);
        }
        let mut rows2: Vec<Row> = Vec::new();
        let len = self.rows.len();
        let mut i: usize = 0;
        while i < len
            invariant
                i <= len,
                len == self.rows@.len(),
                rows2@.len() == i,
                forall|k: int| 0 <= k < i ==> (#[trigger] rows2@[k])@ == self.rows@[k]@,
            decreases len - i,
        {
            rows2.push(self.rows[i].clone());
            i = i + 1;
        }
        proof {
            assert(rows_view(rows2@) =~= rows_view(self.rows@));
        }
        let nid = self.next_object_id;
        let cp = Checkpoint { orig: self, rows: rows2, next_object_id: nid, pending: Vec::new() };
        proof {
            assert(log_view(cp.pending@) =~= Seq::<ChangeV>::empty());
            assert(cp@ =~~= cp_open(cp.orig@));
        }
        Ok(cp)
    }
}

impl Checkpoint {
    #[verifier::type_invariant]
    spec fn inv(&self) -> bool {
        cp_wf(self@)
    }

    /// A placeholder checkpoint used while a real one is being rebuilt.
    fn blank() -> (r: Checkpoint)
        ensures
            r@ == cp_open(store_init()),
    {
        let orig = Store::new();
        let rows: Vec<Row> = Vec::new();
        let pending: Vec<Change> = Vec::new();
        proof {
            lemma_store_init_wf();
            lemma_cp_open_wf(store_init());
            assert(CkV {
                orig: orig@,
                rows: rows_view(rows@),
                next_id: 1int,
                pending: log_view(pending@),
            } =~~= cp_open(store_init()));
        }
        let cp = Checkpoint { orig, rows, next_object_id: 1, pending };
        proof {
            assert(cp@ =~~= cp_open(store_init()));
        }
        cp
    }

    /// The serial the next recorded change would get, minus one.
    fn last_serial(&self) -> (s: i64)
        ensures
            s as int + 1 == next_pending_serial(self@),
            s >= 0,
    {
        proof {
            use_type_invariant(self);
            use_type_invariant(&self.orig);
        }
        if self.pending.len() > 0 {
            let s = self.pending[self.pending.len() - 1].serial;
            proof {
                assert(self@.pending.last() == self.pending@[self.pending@.len() - 1]@);
                assert(self@.pending[self.pending@.len() - 1].serial >= 1);
            }
            s
        } else if self.orig.log.len() > 0 {
            let s = self.orig.log[self.orig.log.len() - 1].serial;
            proof {
                assert(self@.orig.log.last() == self.orig.log@[self.orig.log@.len() - 1]@);
                assert(self@.orig.log[self.orig.log@.len() - 1].serial >= 1);
            }
            s
        } else {
            0
        }
    }

    /// Add an object to the store; returns the identity of the newly created
    /// object. The object must not carry the reserved identity property, and
    /// the identity and serial counters must not be exhausted.
    pub fn add(&mut self, object: Object) -> (r: Result<i64, StoreError>)
        ensures
            object@.contains_key(id_key()) ==> (r matches Err(e) && e is Usage && *final(self)
                == *old(self)),
            !object@.contains_key(id_key()) && (old(self)@.next_id == i64::MAX
                || next_pending_serial(old(self)@) > i64::MAX) ==> (r matches Err(e) && e
                is Storage && *final(self) == *old(self)),
            !object@.contains_key(id_key()) && old(self)@.next_id < i64::MAX
                && next_pending_serial(old(self)@) <= i64::MAX ==> (r matches Ok(k) && k as int
                == cp_add(old(self)@, object@).1 && final(self)@ == cp_add(
                old(self)@,
                object@,
            ).0),
    {
        proof {
            use_type_invariant(&*self);
        }
        if object.contains_key("object_id") {
            return Err(
                StoreError::Usage(
                    String::from_str("objects passed to add must not carry object_id"),
                ),
            );
        }
        let s_last = self.last_serial();
        if self.next_object_id == i64::MAX || s_last == i64::MAX {
            return Err(StoreError::Storage(String::from_str("store counters exhausted")));
        }
        let mut tmp = Checkpoint::blank();
        core::mem::swap(self, &mut tmp);
        let Checkpoint { orig, mut rows, next_object_id, mut pending } = tmp;
        let id = next_object_id;
        let ghost old_rows_v = rows_view(rows@);
        let ghost old_pending_v = log_view(pending@);
        rows.push(Row { id, props: object });
        pending.push(
            Change {
                serial: s_last + 1,
                kind: ChangeType::Add,
                object_id: id,
                previous: Object::new(),
            },
        );
        let ghost target = cp_add(old(self)@, object@).0;
        proof {
            lemma_cp_add_wf(old(self)@, object@);
            let row = RowV { id: old(self)@.next_id, props: object@ };
            assert(rows_view(rows@) =~= old_rows_v.push(row));
            assert(target.rows == old(self)@.rows.push(row));
            assert(log_view(pending@) =~= old_pending_v.push(
                ChangeV {
                    serial: next_pending_serial(old(self)@),
                    kind: ChangeType::Add,
                    object_id: old(self)@.next_id,
                    previous: Map::empty(),
                },
            ));
        }
        let cp = Checkpoint { orig, rows, next_object_id: id + 1, pending };
        proof {
            assert(cp@ =~~= target);
        }
        *self = cp;
        Ok(id)
    }

    /// Commit this checkpoint with the given description, handing the
    /// changed store back. The checkpoint-id counter must not be exhausted.
    pub fn commit(self, description: &str) -> (r: Result<Store, StoreError>)
        ensures
            last_cp_id(self@.orig.cps) < i64::MAX ==> (r matches Ok(st) && st@ == cp_commit(
                self@,
                description@,
            )),
            last_cp_id(self@.orig.cps) == i64::MAX ==> (r matches Err(e) && e is Storage),
    {
        proof {
            use_type_invariant(&self);
            use_type_invariant(&self.orig);
            lemma_cp_commit_wf(self@, description@);
        }
        let ghost cv = self@;
        let last_id: i64 = if self.orig.cps.len() > 0 {
            let v = self.orig.cps[self.orig.cps.len() - 1].checkpoint_id;
            proof {
                assert(cv.orig.cps.last() == self.orig.cps@[self.orig.cps@.len() - 1]@);
                assert(cv.orig.cps[cv.orig.cps.len() - 1].checkpoint_id >= 1);
            }
            v
        } else {
            0
        };
        if last_id == i64::MAX {
            return Err(StoreError::Storage(String::from_str("checkpoint ids exhausted")));
        }
        let s_last = self.last_serial();
        let Checkpoint { orig, rows, next_object_id, mut pending } = self;
        let Store { rows: _old_rows, mut log, mut cps, next_object_id: _orig_next } = orig;
        let serial: i64 = if pending.len() > 0 {
            let v = pending[pending.len() - 1].serial;
            proof {
                assert(cv.pending.last() == pending@[pending@.len() - 1]@);
            }
            v
        } else if log.len() > 0 {
            let v = log[log.len() - 1].serial;
            proof {
                assert(cv.orig.log.last() == log@[log@.len() - 1]@);
            }
            v
        } else {
            0
        };
        let ghost old_log_v = log_view(log@);
        let ghost old_pending_v = log_view(pending@);
        log.append(&mut pending);
        cps.push(
            Cp { checkpoint_id: last_id + 1, serial, description: description.to_owned() },
        );
        proof {
            let target = cp_commit(cv, description@);
            assert(log_view(log@) =~= old_log_v + old_pending_v);
            assert(serial as int == last_log_serial(cv.orig.log + cv.pending)) by {
                if cv.pending.len() > 0 {
                    assert((cv.orig.log + cv.pending).last() == cv.pending.last());
                } else if cv.orig.log.len() > 0 {
                    assert(cv.orig.log + cv.pending =~= cv.orig.log);
                } else {
                    assert(cv.orig.log + cv.pending =~= Seq::<ChangeV>::empty());
                }
            }
            assert(cps_view(cps@) =~= cv.orig.cps.push(target.cps.last()));
        }
        let st = Store { rows, log, cps, next_object_id };
        proof {
            assert(st@ =~~= cp_commit(cv, description@));
        }
        Ok(st)
    }

    /// Discard every change of this checkpoint and hand the untouched store
    /// back.
    pub fn rollback(self) -> (s: Store)
        ensures
            s@ == self@.orig,
    {
        let Checkpoint { orig, rows: _r, next_object_id: _n, pending: _p } = self;
        orig
    }
}

/// A reference to the set of objects matching a given query, as returned by
/// [`Store::all`] or [`Store::query`].
///
/// All actions on a collection are lazy; nothing is fetched until a method is
/// called, and a collection may be used many times.
pub struct Collection<'a> {
    rows: &'a Vec<Row>,
    query: QueryNode,
}

impl<'a> Collection<'a> {
    /// The rows this collection ranges over.
    pub closed spec fn rows_v(&self) -> Seq<RowV> {
        rows_view(self.rows@)
    }

    /// The query this collection holds.
    pub closed spec fn query_v(&self) -> QnV {
        self.query@
    }

    /// The number of objects in the collection.
    pub fn len(&self) -> (r: Result<usize, StoreError>)
        ensures
            r matches Ok(n) && n as int == matching_rows(self.rows_v(), self.query_v()).len(),
    {
        Ok(count_matching(self.rows, &self.query))
    }

    /// Whether the collection holds any object at all.
    pub fn has_any(&self) -> (r: Result<bool, StoreError>)
        ensures
            r matches Ok(e) && e == (matching_rows(self.rows_v(), self.query_v()).len() != 0),
    {
        let n = count_matching(self.rows, &self.query);
        Ok(n != 0)
    }

    /// All objects in the collection, in identity order, each with its
    /// identity injected under the reserved property name.
    pub fn iter(&self) -> (r: Result<Vec<Object>, StoreError>)
        ensures
            r matches Ok(v) && v@.len() == matching_rows(self.rows_v(), self.query_v()).len()
                && forall|k: int|
                0 <= k < v@.len() ==> (#[trigger] v@[k])@ == matching_rows(
                    self.rows_v(),
                    self.query_v(),
                )[k].props.insert(
                id_key(),
                PropV::Num(matching_rows(self.rows_v(), self.query_v())[k].id),
            ),
    {
        Ok(collect_matching(self.rows, &self.query))
    }

    /// The one and only object in the collection; an error names the actual
    /// count when it is not exactly one.
    pub fn one(&self) -> (r: Result<Object, StoreError>)
        ensures
            matching_rows(self.rows_v(), self.query_v()).len() == 1 ==> (r matches Ok(o) && o@
                == matching_rows(self.rows_v(), self.query_v())[0].props.insert(
                id_key(),
                PropV::Num(matching_rows(self.rows_v(), self.query_v())[0].id),
            )),
            matching_rows(self.rows_v(), self.query_v()).len() != 1 ==> (r matches Err(e)
                && e matches StoreError::NotOne(n) && n as int == matching_rows(
                self.rows_v(),
                self.query_v(),
            ).len()),
    {
        let mut results = collect_matching(self.rows, &self.query);
        if results.len() != 1 {
            return Err(StoreError::NotOne(results.len()));
        }
        match results.pop() {
            Some(o) => Ok(o),
            None => Err(StoreError::NotOne(0)),
        }
    }
}

impl Checkpoint {
    /// A prefix of the selection is never longer than the whole selection.
    proof fn lemma_rows_where_take_le(rows: Seq<RowV>, q: QnV, want: bool, i: int)
        requires
            0 <= i <= rows.len(),
        ensures
            rows_where(rows.take(i), q, want).len() <= rows_where(rows, q, want).len(),
        decreases rows.len() - i,
    {
        if i == rows.len() {
            assert(rows.take(i) =~= rows);
        } else {
            Self::lemma_rows_where_take_le(rows.drop_last(), q, want, i);
            assert(rows.drop_last().take(i) =~= rows.take(i));
        }
    }

    /// Delete every row matching the query, recording one `Delete` entry per
    /// row; returns how many went away. The serial counter must have room
    /// for one entry per deleted row.
    fn delete_by(&mut self, query: &QueryNode) -> (r: Result<usize, StoreError>)
        ensures
            serials_fit(old(self)@, matching_rows(old(self)@.rows, query@).len() as int) ==> (
            r matches Ok(n) && n as int == cp_delete(old(self)@, query@).1 && final(self)@
                == cp_delete(old(self)@, query@).0),
            !serials_fit(old(self)@, matching_rows(old(self)@.rows, query@).len() as int) ==> (
            r matches Err(e) && e is Storage && *final(self) == *old(self)),
    {
        proof {
            use_type_invariant(&*self);
        }
        let total = count_matching(&self.rows, query);
        let s_last = self.last_serial();
        if total > 0 && (total as u64) > ((i64::MAX - s_last) as u64) {
            proof {
                assert(!serials_fit(old(self)@, matching_rows(old(self)@.rows, query@).len() as int));
            }
            return Err(StoreError::Storage(String::from_str("store counters exhausted")));
        }
        proof {
            assert(serials_fit(old(self)@, matching_rows(old(self)@.rows, query@).len() as int));
        }
        let mut tmp = Checkpoint::blank();
        core::mem::swap(self, &mut tmp);
        let Checkpoint { orig, rows, next_object_id, mut pending } = tmp;
        let ghost rv = rows_view(rows@);
        let ghost qv = query@;
        let ghost s0 = next_pending_serial(old(self)@);
        let ghost old_pending_v = log_view(pending@);
        let len = rows.len();
        let mut kept: Vec<Row> = Vec::new();
        let mut entries: Vec<Change> = Vec::new();
        let mut removed: usize = 0;
        let mut i: usize = 0;
        while i < len
            invariant
                i <= len,
                len == rows@.len(),
                rv == rows_view(rows@),
                qv == query@,
                s_last >= 0,
                s_last as int + 1 == s0,
                removed as int == rows_where(rv.take(i as int), qv, true).len(),
                removed <= i,
                removed as int <= rows_where(rv, qv, true).len(),
                rows_where(rv, qv, true).len() == 0 || s0 + rows_where(rv, qv, true).len() - 1
                    <= i64::MAX,
                rows_view(kept@) == rows_where(rv.take(i as int), qv, false),
                log_view(entries@) == delete_entries(rows_where(rv.take(i as int), qv, true), s0),
            decreases len - i,
        {
            let ghost pre = rv.take(i as int);
            let ghost now = rv.take(i + 1 as int);
            proof {
                assert(now.drop_last() =~= pre);
                assert(now.last() == rv[i as int]);
                assert(rv[i as int] == rows@[i as int]@);
                Self::lemma_rows_where_take_le(rv, qv, true, i + 1 as int);
            }
            if query.matches_object(rows[i].id, &rows[i].props) {
                let ghost old_entries_v = log_view(entries@);
                proof {
                    assert(rows_where(now, qv, true) == rows_where(pre, qv, true).push(
                        rv[i as int],
                    ));
                    assert(removed as int + 1 == rows_where(now, qv, true).len());
                    assert(removed as int + 1 <= rows_where(rv, qv, true).len());
                    assert(s0 + removed <= i64::MAX);
                    assert(s_last as int + 1 + removed as int <= i64::MAX);
                }
                entries.push(
                    Change {
                        serial: s_last + 1 + (removed as i64),
                        kind: ChangeType::Delete,
                        object_id: rows[i].id,
                        previous: rows[i].props.clone(),
                    },
                );
                removed = removed + 1;
                proof {
                    assert(log_view(entries@) =~= old_entries_v.push(
                        ChangeV {
                            serial: s0 + rows_where(pre, qv, true).len(),
                            kind: ChangeType::Delete,
                            object_id: rv[i as int].id,
                            previous: rv[i as int].props,
                        },
                    ));
                    assert(log_view(entries@) =~= delete_entries(rows_where(now, qv, true), s0));
                    assert(rows_view(kept@) =~= rows_where(now, qv, false));
                }
            } else {
                let ghost old_kept_v = rows_view(kept@);
                kept.push(rows[i].clone());
                proof {
                    assert(rows_view(kept@) =~= old_kept_v.push(rv[i as int]));
                    assert(rows_view(kept@) =~= rows_where(now, qv, false));
                    assert(log_view(entries@) =~= delete_entries(rows_where(now, qv, true), s0));
                }
            }
            i = i + 1;
        }
        proof {
            assert(rv.take(len as int) =~= rv);
            lemma_cp_delete_wf(old(self)@, qv);
        }
        pending.append(&mut entries);
        proof {
            assert(log_view(pending@) =~= old_pending_v + delete_entries(
                rows_where(rv, qv, true),
                s0,
            ));
        }
        let cp = Checkpoint { orig, rows: kept, next_object_id, pending };
        proof {
            assert(cp@ =~~= cp_delete(old(self)@, qv).0);
        }
        *self = cp;
        Ok(total)
    }

    /// Merge the given fields into every row matching the query, recording
    /// one `Update` entry per row with its previous properties; returns how
    /// many rows changed. An empty patch is a no-op; a patch carrying the
    /// reserved identity property is refused, since the identity never
    /// stands among the stored properties. The serial counter must have room
    /// for one entry per changed row.
    fn set_by(&mut self, query: &QueryNode, fields: &Object) -> (r: Result<usize, StoreError>)
        ensures
            fields@.contains_key(id_key()) ==> (r matches Err(e) && e is Usage && *final(self)
                == *old(self)),
            !fields@.contains_key(id_key()) && (fields@.dom() =~= Set::<Seq<char>>::empty())
                ==> (r matches Ok(n) && n == 0 && *final(self) == *old(self)),
            !fields@.contains_key(id_key()) && !(fields@.dom() =~= Set::<Seq<char>>::empty())
                && serials_fit(
                old(self)@,
                matching_rows(old(self)@.rows, query@).len() as int,
            ) ==> (r matches Ok(n) && n as int == cp_set(old(self)@, query@, fields@).1
                && final(self)@ == cp_set(old(self)@, query@, fields@).0),
            !fields@.contains_key(id_key()) && !(fields@.dom() =~= Set::<Seq<char>>::empty())
                && !serials_fit(
                old(self)@,
                matching_rows(old(self)@.rows, query@).len() as int,
            ) ==> (r matches Err(e) && e is Storage && *final(self) == *old(self)),
    {
        proof {
            use_type_invariant(&*self);
        }
        if fields.contains_key("object_id") {
            return Err(
                StoreError::Usage(
                    String::from_str("patches passed to set must not carry object_id"),
                ),
            );
        }
        if fields.is_empty() {
            proof {
                fields@.dom().lemma_len0_is_empty();
            }
            return Ok(0);
        }
        proof {
            if fields@.dom() =~= Set::<Seq<char>>::empty() {
                assert(fields@.dom().len() == 0);
            }
        }
        let total = count_matching(&self.rows, query);
        let s_last = self.last_serial();
        if total > 0 && (total as u64) > ((i64::MAX - s_last) as u64) {
            proof {
                assert(!serials_fit(old(self)@, matching_rows(old(self)@.rows, query@).len() as int));
            }
            return Err(StoreError::Storage(String::from_str("store counters exhausted")));
        }
        proof {
            assert(serials_fit(old(self)@, matching_rows(old(self)@.rows, query@).len() as int));
        }
        let mut tmp = Checkpoint::blank();
        core::mem::swap(self, &mut tmp);
        let Checkpoint { orig, rows, next_object_id, mut pending } = tmp;
        let ghost rv = rows_view(rows@);
        let ghost qv = query@;
        let ghost s0 = next_pending_serial(old(self)@);
        let ghost old_pending_v = log_view(pending@);
        let len = rows.len();
        let mut out: Vec<Row> = Vec::new();
        let mut entries: Vec<Change> = Vec::new();
        let mut changed: usize = 0;
        let mut i: usize = 0;
        while i < len
            invariant
                i <= len,
                len == rows@.len(),
                rv == rows_view(rows@),
                qv == query@,
                s_last >= 0,
                s_last as int + 1 == s0,
                changed as int == rows_where(rv.take(i as int), qv, true).len(),
                changed <= i,
                changed as int <= rows_where(rv, qv, true).len(),
                rows_where(rv, qv, true).len() == 0 || s0 + rows_where(rv, qv, true).len() - 1
                    <= i64::MAX,
                out@.len() == i,
                rows_view(out@) == patched_rows(rv.take(i as int), qv, fields@),
                log_view(entries@) == update_entries(rows_where(rv.take(i as int), qv, true), s0),
            decreases len - i,
        {
            let ghost pre = rv.take(i as int);
            let ghost now = rv.take(i + 1 as int);
            proof {
                assert(now.drop_last() =~= pre);
                assert(now.last() == rv[i as int]);
                assert(rv[i as int] == rows@[i as int]@);
                Self::lemma_rows_where_take_le(rv, qv, true, i + 1 as int);
                assert(patched_rows(pre, qv, fields@) =~= patched_rows(now, qv, fields@).take(
                    i as int,
                ));
            }
            if query.matches_object(rows[i].id, &rows[i].props) {
                let ghost old_entries_v = log_view(entries@);
                let ghost old_out_v = rows_view(out@);
                proof {
                    assert(rows_where(now, qv, true) == rows_where(pre, qv, true).push(
                        rv[i as int],
                    ));
                    assert(changed as int + 1 == rows_where(now, qv, true).len());
                    assert(changed as int + 1 <= rows_where(rv, qv, true).len());
                    assert(s0 + changed <= i64::MAX);
                    assert(s_last as int + 1 + changed as int <= i64::MAX);
                }
                entries.push(
                    Change {
                        serial: s_last + 1 + (changed as i64),
                        kind: ChangeType::Update,
                        object_id: rows[i].id,
                        previous: rows[i].props.clone(),
                    },
                );
                changed = changed + 1;
                let mut props2 = rows[i].props.clone();
                props2.merge_from(fields);
                out.push(Row { id: rows[i].id, props: props2 });
                proof {
                    assert(log_view(entries@) =~= old_entries_v.push(
                        ChangeV {
                            serial: s0 + rows_where(pre, qv, true).len(),
                            kind: ChangeType::Update,
                            object_id: rv[i as int].id,
                            previous: rv[i as int].props,
                        },
                    ));
                    assert(log_view(entries@) =~= update_entries(rows_where(now, qv, true), s0));
                    assert(out@.len() == i + 1);
                    assert(patched_rows(now, qv, fields@).len() == i + 1);
                    assert forall|k: int|
                        0 <= k < i implies (#[trigger] out@[k])@ == patched_rows(
                        now,
                        qv,
                        fields@,
                    )[k] by {
                        assert(out@[k]@ == old_out_v[k]);
                        assert(old_out_v[k] == patched_rows(pre, qv, fields@)[k]);
                        assert(patched_rows(now, qv, fields@).take(i as int)[k] == patched_rows(
                            now,
                            qv,
                            fields@,
                        )[k]);
                    }
                    assert(out@[i as int]@ =~~= patched_rows(now, qv, fields@)[i as int]);
                    assert(rows_view(out@) =~~= patched_rows(now, qv, fields@));
                }
            } else {
                let ghost old_out_v = rows_view(out@);
                out.push(rows[i].clone());
                proof {
                    assert(out@.len() == i + 1);
                    assert(patched_rows(now, qv, fields@).len() == i + 1);
                    assert forall|k: int|
                        0 <= k < i implies (#[trigger] out@[k])@ == patched_rows(
                        now,
                        qv,
                        fields@,
                    )[k] by {
                        assert(out@[k]@ == old_out_v[k]);
                        assert(old_out_v[k] == patched_rows(pre, qv, fields@)[k]);
                        assert(patched_rows(now, qv, fields@).take(i as int)[k] == patched_rows(
                            now,
                            qv,
                            fields@,
                        )[k]);
                    }
                    assert(out@[i as int]@ =~~= patched_rows(now, qv, fields@)[i as int]);
                    assert(rows_view(out@) =~~= patched_rows(now, qv, fields@));
                    assert(log_view(entries@) =~= update_entries(rows_where(now, qv, true), s0));
                }
            }
            i = i + 1;
        }
        proof {
            assert(rv.take(len as int) =~= rv);
            lemma_cp_set_wf(old(self)@, qv, fields@);
        }
        pending.append(&mut entries);
        proof {
            assert(log_view(pending@) =~= old_pending_v + update_entries(
                rows_where(rv, qv, true),
                s0,
            ));
        }
        let cp = Checkpoint { orig, rows: out, next_object_id, pending };
        proof {
            assert(cp@ =~~= cp_set(old(self)@, qv, fields@).0);
        }
        *self = cp;
        Ok(total)
    }

    /// A [`MutableCollection`] of the objects matching the given query; it
    /// takes a [`QueryNode`] or a [`QueryBuilder`].
    pub fn query<'a, Q: IntoQueryNode>(&'a mut self, query: Q) -> (mc: MutableCollection<'a>)
        ensures
            mc.query@ == query.query_view(),
            *mc.cp == *old(self),
            *final(self) == *final(mc.cp),
    {
        MutableCollection { cp: self, query: query.into_query() }
    }
}

/// A modifiable set of objects matching a given query, as returned by
/// [`Checkpoint::query`]. Besides reading, it can delete its objects or set
/// properties on them, recording undoable change entries.
pub struct MutableCollection<'a> {
    pub cp: &'a mut Checkpoint,
    pub query: QueryNode,
}

impl<'a> MutableCollection<'a> {
    /// The number of objects in the collection.
    pub fn len(&self) -> (r: Result<usize, StoreError>)
        ensures
            r matches Ok(n) && n as int == matching_rows((*old(self.cp))@.rows, self.query@).len(),
    {
        Ok(count_matching(&self.cp.rows, &self.query))
    }

    /// Whether the collection holds any object at all.
    pub fn has_any(&self) -> (r: Result<bool, StoreError>)
        ensures
            r matches Ok(e) && e == (matching_rows((*old(self.cp))@.rows, self.query@).len() != 0),
    {
        let n = count_matching(&self.cp.rows, &self.query);
        Ok(n != 0)
    }

    /// All objects in the collection, in identity order, each with its
    /// identity injected under the reserved property name.
    pub fn iter(&self) -> (r: Result<Vec<Object>, StoreError>)
        ensures
            r matches Ok(v) && v@.len() == matching_rows((*old(self.cp))@.rows, self.query@).len()
                && forall|k: int|
                0 <= k < v@.len() ==> (#[trigger] v@[k])@ == matching_rows(
                    (*old(self.cp))@.rows,
                    self.query@,
                )[k].props.insert(
                id_key(),
                PropV::Num(matching_rows((*old(self.cp))@.rows, self.query@)[k].id),
            ),
    {
        Ok(collect_matching(&self.cp.rows, &self.query))
    }

    /// Delete all objects in the collection; returns how many went away.
    pub fn delete(self) -> (r: Result<usize, StoreError>)
        ensures
            serials_fit(
                (*old(self.cp))@,
                matching_rows((*old(self.cp))@.rows, self.query@).len() as int,
            ) ==> (r matches Ok(n) && n as int == cp_delete((*old(self.cp))@, self.query@).1
                && final(self.cp)@ == cp_delete((*old(self.cp))@, self.query@).0),
            !serials_fit(
                (*old(self.cp))@,
                matching_rows((*old(self.cp))@.rows, self.query@).len() as int,
            ) ==> (r matches Err(e) && e is Storage && *final(self.cp) == *old(self.cp)),
    {
        let MutableCollection { cp, query } = self;
        cp.delete_by(&query)
    }

    /// Set the given fields on every object in the collection; returns how
    /// many objects changed. An empty patch is a no-op, and a patch carrying
    /// the reserved identity property is refused.
    pub fn set(self, fields: Object) -> (r: Result<usize, StoreError>)
        ensures
            fields@.contains_key(id_key()) ==> (r matches Err(e) && e is Usage && *final(self.cp)
                == *old(self.cp)),
            !fields@.contains_key(id_key()) && (fields@.dom() =~= Set::<Seq<char>>::empty())
                ==> (r matches Ok(n) && n == 0 && *final(self.cp) == *old(self.cp)),
            !fields@.contains_key(id_key()) && !(fields@.dom() =~= Set::<Seq<char>>::empty())
                && serials_fit(
                (*old(self.cp))@,
                matching_rows((*old(self.cp))@.rows, self.query@).len() as int,
            ) ==> (r matches Ok(n) && n as int == cp_set((*old(self.cp))@, self.query@, fields@).1
                && final(self.cp)@ == cp_set((*old(self.cp))@, self.query@, fields@).0),
            !fields@.contains_key(id_key()) && !(fields@.dom() =~= Set::<Seq<char>>::empty())
                && !serials_fit(
                (*old(self.cp))@,
                matching_rows((*old(self.cp))@.rows, self.query@).len() as int,
            ) ==> (r matches Err(e) && e is Storage && *final(self.cp) == *old(self.cp)),
    {
        let MutableCollection { cp, query } = self;
        cp.set_by(&query, &fields)
    }
}

/// The index of the row with the given id, if present.
fn find_row_index(rows: &Vec<Row>, id: i64) -> (r: Option<usize>)
    ensures
        match r {
            Some(i) => i < rows@.len() && rows_view(rows@)[i as int].id == id as int,
            None => !has_row(rows_view(rows@), id as int),
        },
{
    let ghost rv = rows_view(rows@);
    let len = rows.len();
    let mut i: usize = 0;
    while i < len
        invariant
            i <= len,
            len == rows@.len(),
            rv == rows_view(rows@),
            forall|j: int| 0 <= j < i ==> (#[trigger] rv[j]).id != id as int,
        decreases len - i,
    {
        if rows[i].id == id {
            proof {
                assert(rv[i as int] == rows@[i as int]@);
            }
            return Some(i);
        }
        proof {
            assert(rv[i as int] == rows@[i as int]@);
        }
        i = i + 1;
    }
    proof {
        if has_row(rv, id as int) {
            let j = choose|j: int| 0 <= j < rv.len() && rv[j].id == id as int;
            assert(rv[j].id != id as int);
        }
    }
    None
}

/// The place where a fresh id belongs among rows in ascending id order.
fn find_insert_pos(rows: &Vec<Row>, id: i64) -> (p: usize)
    requires
        forall|i: int, j: int|
            0 <= i < j < rows_view(rows@).len() ==> rows_view(rows@)[i].id < rows_view(
                rows@,
            )[j].id,
        !has_row(rows_view(rows@), id as int),
    ensures
        p <= rows@.len(),
        forall|j: int| 0 <= j < p ==> (#[trigger] rows_view(rows@)[j]).id < id as int,
        forall|j: int|
            p <= j < rows@.len() ==> (#[trigger] rows_view(rows@)[j]).id > id as int,
{
    let ghost rv = rows_view(rows@);
    let len = rows.len();
    let mut i: usize = 0;
    while i < len
        invariant
            i <= len,
            len == rows@.len(),
            rv == rows_view(rows@),
            !has_row(rv, id as int),
            forall|a: int, b: int| 0 <= a < b < rv.len() ==> rv[a].id < rv[b].id,
            forall|j: int| 0 <= j < i ==> (#[trigger] rv[j]).id < id as int,
        decreases len - i,
    {
        proof {
            assert(rv[i as int] == rows@[i as int]@);
        }
        if rows[i].id > id {
            proof {
                assert forall|j: int| i <= j < rv.len() implies (#[trigger] rv[j]).id > id as int by {
                    if j > i {
                        assert(rv[i as int].id < rv[j].id);
                    }
                }
            }
            return i;
        }
        proof {
            if rv[i as int].id == id as int {
                assert(has_row(rv, id as int));
            }
        }
        i = i + 1;
    }
    len
}

impl Store {
    /// Undo all changes of the newest committed checkpoint, removing its
    /// change entries and its checkpoint row; returns its description, or
    /// nothing when no checkpoint exists.
    #[verifier::rlimit(50)]
    pub fn undo(&mut self) -> (r: Result<Option<String>, StoreError>)
        ensures
            final(self)@ == store_undo(old(self)@).0,
            r matches Ok(d) && (match d {
                Some(ds) => store_undo(old(self)@).1 == Some(ds@),
                None => store_undo(old(self)@).1 is None,
            }),
    {
        proof {
            use_type_invariant(&*self);
            lemma_store_undo_wf(old(self)@);
        }
        if self.cps.len() == 0 {
            return Ok(None);
        }
        let ghost sv = old(self)@;
        let prev: i64 = if self.cps.len() >= 2 {
            let v = self.cps[self.cps.len() - 2].serial;
            proof {
                assert(sv.cps[sv.cps.len() - 2] == self.cps@[self.cps@.len() - 2]@);
            }
            v
        } else {
            0
        };
        proof {
            assert(prev as int == crate::model::undo_prev_serial(sv.cps));
        }
        let loglen = self.log.len();
        let mut k: usize = 0;
        while k < loglen && self.log[k].serial <= prev
            invariant
                k <= loglen,
                loglen == self.log@.len(),
                *self == *old(self),
                sv == old(self)@,
                forall|j: int| 0 <= j < k ==> (#[trigger] sv.log[j]).serial <= prev as int,
            decreases loglen - k,
        {
            proof {
                assert(sv.log[k as int] == self.log@[k as int]@);
            }
            k = k + 1;
        }
        proof {
            assert(k < loglen ==> sv.log[k as int].serial > prev as int) by {
                if k < loglen {
                    assert(sv.log[k as int] == self.log@[k as int]@);
                }
            }
            lemma_first_gt(sv.log, prev as int);
            let k0 = first_gt(sv.log, prev as int);
            assert(k as int == k0) by {
                if (k as int) < k0 {
                    assert(sv.log[k as int].serial <= prev as int);
                    assert(sv.log[k as int].serial > prev as int);
                }
                if (k as int) > k0 {
                    assert(sv.log[k0].serial > prev as int);
                    assert(sv.log[k0].serial <= prev as int);
                }
            }
        }
        let ghost group = sv.log.subrange(k as int, sv.log.len() as int);
        proof {
            // the whole history reverts, so the newest group does too
            assert(sv.log =~= sv.log.subrange(0, k as int) + group);
            lemma_revert_concat(sv.rows, sv.log.subrange(0, k as int), group);
            assert(revert_seq(sv.rows, group) is Some);
        }
        let mut tmp = Store::new();
        core::mem::swap(self, &mut tmp);
        let Store { mut rows, mut log, mut cps, next_object_id } = tmp;
        let mut i = loglen;
        while i > k
            invariant
                k <= i <= loglen,
                loglen == log@.len(),
                log_view(log@) == sv.log,
                prev as int == crate::model::undo_prev_serial(sv.cps),
                group == sv.log.subrange(k as int, sv.log.len() as int),
                next_object_id as int == sv.next_id,
                store_wf(sv),
                revert_seq(sv.rows, group) is Some,
                revert_seq(sv.rows, sv.log.subrange(i as int, loglen as int)) is Some,
                rows_view(rows@) == revert_seq(
                    sv.rows,
                    sv.log.subrange(i as int, loglen as int),
                )->Some_0,
                crate::model::rows_ok(rows_view(rows@), sv.next_id),
            decreases i,
        {
            let ghost cur = rows_view(rows@);
            let ghost suffix = sv.log.subrange(i as int, loglen as int);
            let ghost nsuffix = sv.log.subrange(i - 1, loglen as int);
            let ghost e = sv.log[i - 1];
            proof {
                assert(e == log@[i - 1]@);
                // one more entry reverts, and the result is still defined
                assert(nsuffix =~= seq![e] + suffix);
                lemma_revert_concat(sv.rows, seq![e], suffix);
                assert(group =~= sv.log.subrange(k as int, i - 1) + nsuffix);
                lemma_revert_concat(sv.rows, sv.log.subrange(k as int, i - 1), nsuffix);
                assert(revert_seq(sv.rows, nsuffix) is Some);
                assert(seq![e].last() == e);
                assert(seq![e].drop_last() =~= Seq::<ChangeV>::empty());
                assert(revert_one(cur, e) is Some);
                assert(revert_seq(sv.rows, suffix) == Some(cur));
                assert(revert_seq(sv.rows, nsuffix) == revert_seq(cur, seq![e]));
                let m = revert_one(cur, e)->Some_0;
                assert(revert_seq(cur, seq![e]) == revert_seq(m, seq![e].drop_last()));
                assert(revert_seq(m, seq![e].drop_last()) == Some(m));
                assert(revert_seq(sv.rows, nsuffix)->Some_0 == revert_one(cur, e)->Some_0);
                assert(1 <= e.object_id < sv.next_id);
                crate::model::lemma_revert_one_rows_ok(cur, e, sv.next_id);
            }
            let entry_id = log[i - 1].object_id;
            let kind = log[i - 1].kind;
            match kind {
                ChangeType::Add => {
                    proof {
                        assert(has_row(cur, e.object_id));
                    }
                    match find_row_index(&rows, entry_id) {
                        Some(idx) => {
                            let ghost a = cur.subrange(0, idx as int);
                            let ghost b = cur.subrange(idx + 1, cur.len() as int);
                            proof {
                                assert(cur =~= a + seq![cur[idx as int]] + b);
                                assert(forall|j: int|
                                    0 <= j < a.len() ==> (#[trigger] a[j]).id != e.object_id);
                                assert(forall|j: int|
                                    0 <= j < b.len() ==> (#[trigger] b[j]).id != e.object_id);
                                lemma_remove_row_between(a, b, cur[idx as int]);
                            }
                            let _removed = rows.remove(idx);
                            proof {
                                assert(rows_view(rows@) =~= a + b);
                                assert(rows_view(rows@) =~= remove_row(cur, e.object_id));
                            }
                        },
                        None => {
                            proof {
                                assert(false);
                            }
                        },
                    }
                },
                ChangeType::Delete => {
                    proof {
                        assert(!has_row(cur, e.object_id));
                    }
                    let pos = find_insert_pos(&rows, entry_id);
                    let new_row = Row { id: entry_id, props: log[i - 1].previous.clone() };
                    rows.insert(pos, new_row);
                    proof {
                        let a = cur.subrange(0, pos as int);
                        let b = cur.subrange(pos as int, cur.len() as int);
                        assert(cur =~= a + b);
                        assert(forall|j: int|
                            0 <= j < a.len() ==> (#[trigger] a[j]).id < e.object_id);
                        assert(forall|j: int|
                            0 <= j < b.len() ==> (#[trigger] b[j]).id > e.object_id);
                        let rv = RowV { id: e.object_id, props: e.previous };
                        lemma_insert_row_between(a, b, rv);
                        assert(rows_view(rows@) =~= a + seq![rv] + b);
                        assert(rows_view(rows@) =~= insert_row(cur, rv));
                    }
                },
                ChangeType::Update => {
                    match find_row_index(&rows, entry_id) {
                        Some(idx) => {
                            let new_row = Row { id: entry_id, props: log[i - 1].previous.clone() };
                            rows.set(idx, new_row);
                            proof {
                                assert(rows_view(rows@) =~~= update_row(
                                    cur,
                                    e.object_id,
                                    e.previous,
                                ));
                            }
                        },
                        None => {
                            proof {
                                assert(has_row(cur, e.object_id));
                                assert(false);
                            }
                        },
                    }
                },
            }
            i = i - 1;
        }
        proof {
            assert(sv.log.subrange(k as int, loglen as int) == group);
            assert(rows_view(rows@) == revert_seq(sv.rows, group)->Some_0);
        }
        log.truncate(k);
        let description = match cps.pop() {
            Some(cp) => cp.description,
            None => String::new(),
        };
        proof {
            assert(log_view(log@) =~= sv.log.subrange(0, k as int));
            assert(cps_view(cps@) =~= sv.cps.drop_last());
            assert(description@ == sv.cps.last().description) by {
                assert(sv.cps[sv.cps.len() - 1] == old(self).cps@[old(self).cps@.len() - 1]@);
            }
        }
        let st = Store { rows, log, cps, next_object_id };
        proof {
            assert(st@ =~~= store_undo(sv).0);
        }
        *self = st;
        Ok(Some(description))
    }
}

/// A type with a query that matches every stored object of its shape.
pub trait Queryable {
    /// A query builder preloaded with this shape's fixed criteria.
    fn q() -> QueryBuilder;
}

/// A type that can be converted to and from an [`Object`].
pub trait ObjectShape: Queryable + Sized {
    /// The object form of this value.
    fn to_object(&self) -> Object;

    /// Try to convert the given object into this shape, retrieving any
    /// referenced objects from the given store.
    fn try_convert(object: Object, store: &Store) -> Result<Self, StoreError>;
}

/// A type that can be converted to and from an [`Object`] without needing a
/// store.
pub trait ObjectShapePlain: ObjectShape {
    /// Try to convert the given object into this shape.
    fn try_from_object(object: Object) -> Result<Self, ConversionError>;
}

/// A type that can be converted to and from an [`Object`], carrying its
/// identity.
pub trait ObjectShapeWithId: ObjectShape {
    /// The object's identity, if it has been stored.
    fn get_object_id(&self) -> Option<i64>;

    /// Record the object's identity.
    fn set_object_id(&mut self, object_id: i64);
}

impl Checkpoint {
    /// Add an object to the store and record the assigned identity inside
    /// it. The stored row holds the map the object converts to, under the
    /// assigned identity; errors leave the checkpoint and the object
    /// untouched, and arise only from a conversion that carries the reserved
    /// identity property or from exhausted counters.
    pub fn add_with_id<O: ObjectShapeWithId>(&mut self, object: &mut O) -> (r: Result<
        (),
        StoreError,
    >)
        ensures
            r is Ok ==> exists|o: Object|
                #[trigger] call_ensures(O::to_object, (old(object),), o)
                    && !o@.contains_key(id_key()) && final(self)@ == cp_add(old(self)@, o@).0,
            r is Err ==> *final(self) == *old(self) && *final(object) == *old(object),
            r matches Err(e) ==> (e is Usage || e is Storage),
            r matches Err(e) && e is Usage ==> exists|o: Object|
                #[trigger] call_ensures(O::to_object, (old(object),), o) && o@.contains_key(
                    id_key(),
                ),
            r matches Err(e) && e is Storage ==> (old(self)@.next_id == i64::MAX
                || next_pending_serial(old(self)@) > i64::MAX),
            (forall|o: Object|
                call_ensures(O::to_object, (old(object),), o) ==> !o@.contains_key(id_key()))
                && old(self)@.next_id < i64::MAX && next_pending_serial(old(self)@) <= i64::MAX
                ==> r is Ok,
    {
        let obj = object.to_object();
        let ghost ov = obj;
        proof {
            assert(call_ensures(O::to_object, (old(object),), ov));
        }
        match self.add(obj) {
            Ok(id) => {
                object.set_object_id(id);
                proof {
                    assert(!ov@.contains_key(id_key()) && final(self)@ == cp_add(
                        old(self)@,
                        ov@,
                    ).0);
                }
                Ok(())
            },
            Err(e) => {
                proof {
                    if e is Usage {
                        assert(ov@.contains_key(id_key()));
                    }
                }
                Err(e)
            },
        }
    }
}

impl<'a> Collection<'a> {
    /// All objects in the collection, converted to the given shape.
    pub fn iter_as<T: ObjectShapePlain>(&self) -> (r: Result<Vec<T>, StoreError>)
        ensures
            r matches Ok(v) ==> v@.len() == matching_rows(self.rows_v(), self.query_v()).len()
                && forall|k: int|
                0 <= k < v@.len() ==> converted_from(
                    self.rows_v(),
                    self.query_v(),
                    k,
                    #[trigger] v@[k],
                ),
            (forall|o: Object, out: Result<T, ConversionError>|
                call_ensures(T::try_from_object, (o,), out) ==> out is Ok) ==> r is Ok,
    {
        let objects = collect_matching(self.rows, &self.query);
        let mut v: Vec<T> = Vec::new();
        let len = objects.len();
        let mut i: usize = 0;
        while i < len
            invariant
                i <= len,
                len == objects@.len(),
                v@.len() == i,
                forall|k: int|
                    0 <= k < len ==> (#[trigger] objects@[k])@ == materialized(
                        self.rows_v(),
                        self.query_v(),
                        k,
                    ),
                forall|k: int|
                    0 <= k < i ==> converted_from(
                        self.rows_v(),
                        self.query_v(),
                        k,
                        #[trigger] v@[k],
                    ),
                forall|o: Object, out: Result<T, ConversionError>|
                    (forall|o2: Object, out2: Result<T, ConversionError>|
                        call_ensures(T::try_from_object, (o2,), out2) ==> out2 is Ok)
                        && call_ensures(T::try_from_object, (o,), out) ==> out is Ok,
            decreases len - i,
        {
            let arg = objects[i].clone();
            let ghost arg_v = arg;
            let ghost pre_v = v@;
            match T::try_from_object(arg) {
                Ok(t) => {
                    v.push(t);
                    proof {
                        assert(arg_v@ == materialized(self.rows_v(), self.query_v(), i as int));
                        assert(call_ensures(
                            T::try_from_object,
                            (arg_v,),
                            Ok::<T, ConversionError>(v@[i as int]),
                        ));
                        assert forall|k: int| 0 <= k <= i as int implies converted_from(
                            self.rows_v(),
                            self.query_v(),
                            k,
                            #[trigger] v@[k],
                        ) by {
                            if k < i as int {
                                assert(pre_v[k] == v@[k]);
                                assert(converted_from(
                                    self.rows_v(),
                                    self.query_v(),
                                    k,
                                    pre_v[k],
                                ));
                            } else {
                                assert(converted_from(
                                    self.rows_v(),
                                    self.query_v(),
                                    k,
                                    v@[i as int],
                                ));
                            }
                        }
                    }
                },
                Err(e) => {
                    return Err(StoreError::Conversion(e));
                },
            }
            i = i + 1;
        }
        Ok(v)
    }

    /// The one and only object in the collection, converted to the given
    /// shape. An error names the actual count when it is not exactly one;
    /// with exactly one object, the result is whatever the conversion gives
    /// for the materialised object, and succeeds whenever the conversion
    /// cannot fail.
    pub fn one_as<T: ObjectShapePlain>(&self) -> (r: Result<T, StoreError>)
        ensures
            matching_rows(self.rows_v(), self.query_v()).len() != 1 ==> (r matches Err(e)
                && e matches StoreError::NotOne(n) && n as int == matching_rows(
                self.rows_v(),
                self.query_v(),
            ).len()),
            r matches Ok(t) ==> matching_rows(self.rows_v(), self.query_v()).len() == 1
                && converted_from(self.rows_v(), self.query_v(), 0, t),
            matching_rows(self.rows_v(), self.query_v()).len() == 1 ==> (r matches Err(e)
                ==> (e matches StoreError::Conversion(ce) && conversion_failed::<T>(
                self.rows_v(),
                self.query_v(),
                0,
                ce,
            ))),
            (forall|o: Object, out: Result<T, ConversionError>|
                call_ensures(T::try_from_object, (o,), out) ==> out is Ok) && matching_rows(
                self.rows_v(),
                self.query_v(),
            ).len() == 1 ==> r is Ok,
    {
        let one = match self.one() {
            Ok(o) => o,
            Err(e) => {
                return Err(e);
            },
        };
        let ghost ov = one;
        proof {
            assert(ov@ == materialized(self.rows_v(), self.query_v(), 0));
        }
        match T::try_from_object(one) {
            Ok(t) => {
                proof {
                    assert(call_ensures(
                        T::try_from_object,
                        (ov,),
                        Ok::<T, ConversionError>(t),
                    ));
                    assert(converted_from(self.rows_v(), self.query_v(), 0, t));
                }
                Ok(t)
            },
            Err(e) => {
                proof {
                    assert(call_ensures(
                        T::try_from_object,
                        (ov,),
                        Err::<T, ConversionError>(e),
                    ));
                    assert(conversion_failed::<T>(self.rows_v(), self.query_v(), 0, e));
                }
                Err(StoreError::Conversion(e))
            },
        }
    }

    /// All objects in the collection, converted to the given shape; the
    /// conversion may look related objects up in the given store.
    pub fn iter_converted<T: ObjectShape>(&self, store: &Store) -> (r: Result<Vec<T>, StoreError>)
        ensures
            r matches Ok(v) ==> v@.len() == matching_rows(self.rows_v(), self.query_v()).len()
                && forall|k: int|
                0 <= k < v@.len() ==> converted_with_store(
                    self.rows_v(),
                    self.query_v(),
                    k,
                    store,
                    #[trigger] v@[k],
                ),
            (forall|o: Object, out: Result<T, StoreError>|
                call_ensures(T::try_convert, (o, store), out) ==> out is Ok) ==> r is Ok,
    {
        let objects = collect_matching(self.rows, &self.query);
        let mut v: Vec<T> = Vec::new();
        let len = objects.len();
        let mut i: usize = 0;
        while i < len
            invariant
                i <= len,
                len == objects@.len(),
                v@.len() == i,
                forall|k: int|
                    0 <= k < len ==> (#[trigger] objects@[k])@ == materialized(
                        self.rows_v(),
                        self.query_v(),
                        k,
                    ),
                forall|k: int|
                    0 <= k < i ==> converted_with_store(
                        self.rows_v(),
                        self.query_v(),
                        k,
                        store,
                        #[trigger] v@[k],
                    ),
                forall|o: Object, out: Result<T, StoreError>|
                    (forall|o2: Object, out2: Result<T, StoreError>|
                        call_ensures(T::try_convert, (o2, store), out2) ==> out2 is Ok)
                        && call_ensures(T::try_convert, (o, store), out) ==> out is Ok,
            decreases len - i,
        {
            let arg = objects[i].clone();
            let ghost arg_v = arg;
            let ghost pre_v = v@;
            match T::try_convert(arg, store) {
                Ok(t) => {
                    v.push(t);
                    proof {
                        assert(arg_v@ == materialized(self.rows_v(), self.query_v(), i as int));
                        assert(call_ensures(
                            T::try_convert,
                            (arg_v, store),
                            Ok::<T, StoreError>(v@[i as int]),
                        ));
                        assert forall|k: int| 0 <= k <= i as int implies converted_with_store(
                            self.rows_v(),
                            self.query_v(),
                            k,
                            store,
                            #[trigger] v@[k],
                        ) by {
                            if k < i as int {
                                assert(pre_v[k] == v@[k]);
                                assert(converted_with_store(
                                    self.rows_v(),
                                    self.query_v(),
                                    k,
                                    store,
                                    pre_v[k],
                                ));
                            } else {
                                assert(converted_with_store(
                                    self.rows_v(),
                                    self.query_v(),
                                    k,
                                    store,
                                    v@[i as int],
                                ));
                            }
                        }
                    }
                },
                Err(e) => {
                    return Err(e);
                },
            }
            i = i + 1;
        }
        Ok(v)
    }

    /// The one and only object in the collection, converted to the given
    /// shape with store access. An error names the actual count when it is
    /// not exactly one; with exactly one object, the result is whatever the
    /// conversion gives for the materialised object, and succeeds whenever
    /// the conversion cannot fail.
    pub fn one_converted<T: ObjectShape>(&self, store: &Store) -> (r: Result<T, StoreError>)
        ensures
            matching_rows(self.rows_v(), self.query_v()).len() != 1 ==> (r matches Err(e)
                && e matches StoreError::NotOne(n) && n as int == matching_rows(
                self.rows_v(),
                self.query_v(),
            ).len()),
            r matches Ok(t) ==> matching_rows(self.rows_v(), self.query_v()).len() == 1
                && converted_with_store(self.rows_v(), self.query_v(), 0, store, t),
            matching_rows(self.rows_v(), self.query_v()).len() == 1 ==> (r matches Err(e)
                ==> store_conversion_failed::<T>(self.rows_v(), self.query_v(), 0, store, e)),
            (forall|o: Object, out: Result<T, StoreError>|
                call_ensures(T::try_convert, (o, store), out) ==> out is Ok) && matching_rows(
                self.rows_v(),
                self.query_v(),
            ).len() == 1 ==> r is Ok,
    {
        let one = match self.one() {
            Ok(o) => o,
            Err(e) => {
                return Err(e);
            },
        };
        let ghost ov = one;
        proof {
            assert(ov@ == materialized(self.rows_v(), self.query_v(), 0));
        }
        match T::try_convert(one, store) {
            Ok(t) => {
                proof {
                    assert(call_ensures(T::try_convert, (ov, store), Ok::<T, StoreError>(t)));
                    assert(converted_with_store(self.rows_v(), self.query_v(), 0, store, t));
                }
                Ok(t)
            },
            Err(e) => {
                proof {
                    assert(call_ensures(T::try_convert, (ov, store), Err::<T, StoreError>(e)));
                    assert(store_conversion_failed::<T>(
                        self.rows_v(),
                        self.query_v(),
                        0,
                        store,
                        e,
                    ));
                }
                Err(e)
            },
        }
    }
}

/// A pre-materialised set of results: the objects matching a query at one
/// point in time, each mapped through a caller-supplied function, plus a
/// validity token tied to the checkpoint id at which they were fetched.
pub struct CachedMapping<F, O> {
    fetched_at_checkpoint: i64,
    query: QueryNode,
    objects: Vec<O>,
    f: F,
}

impl<F: Fn(Object, &Store) -> Result<O, StoreError>, O> CachedMapping<F, O> {
    /// The checkpoint id at which the results were fetched.
    pub closed spec fn captured(&self) -> i64 {
        self.fetched_at_checkpoint
    }

    /// The cached results.
    pub closed spec fn results(&self) -> Seq<O> {
        self.objects@
    }

    /// The query the results came from.
    pub closed spec fn query_v(&self) -> QnV {
        self.query@
    }

    /// The mapping function.
    pub closed spec fn func(&self) -> F {
        self.f
    }

    /// Whether the cached results are still current: nothing has been
    /// committed or undone since they were fetched.
    pub fn valid(&self, store: &Store) -> (r: Result<bool, StoreError>)
        ensures
            r matches Ok(v) && v == (self.captured() as int == last_cp_id(store@.cps)),
    {
        let m = match store.modified_since(self.fetched_at_checkpoint) {
            Ok(m) => m,
            Err(e) => {
                return Err(e);
            },
        };
        Ok(!m)
    }

    /// Re-run the query and the mapping if anything has been committed since
    /// the results were fetched; on success the results are current again:
    /// the mapping function applied to each object now matching the query.
    pub fn refresh_if_needed(&mut self, store: &Store) -> (r: Result<(), StoreError>)
        requires
            forall|o: Object| call_requires(old(self).func(), (o, store)),
    ensures
            final(self).query_v() == old(self).query_v(),
            final(self).func() == old(self).func(),
            old(self).captured() as int == last_cp_id(store@.cps) ==> *final(self) == *old(self)
                && r is Ok,
            r is Ok ==> final(self).captured() as int == last_cp_id(store@.cps),
            r is Ok && old(self).captured() as int != last_cp_id(store@.cps)
                ==> final(self).results().len() == matching_rows(
                store@.rows,
                old(self).query_v(),
            ).len() && forall|k: int|
                0 <= k < final(self).results().len() ==> mapped_from(
                    old(self).func(),
                    store@.rows,
                    old(self).query_v(),
                    k,
                    store,
                    #[trigger] final(self).results()[k],
                ),
            r is Err ==> *final(self) == *old(self),
            (forall|o: Object, out: Result<O, StoreError>|
                call_ensures(old(self).func(), (o, store), out) ==> out is Ok) ==> r is Ok,
    {
        let still = match self.valid(store) {
            Ok(v) => v,
            Err(e) => {
                return Err(e);
            },
        };
        if still {
            return Ok(());
        }
        let id = match store.last_checkpoint_id() {
            Ok(id) => id,
            Err(e) => {
                return Err(e);
            },
        };
        let objects = collect_matching(&store.rows, &self.query);
        let mut results: Vec<O> = Vec::new();
        let len = objects.len();
        let mut i: usize = 0;
        while i < len
            invariant
                i <= len,
                len == objects@.len(),
                results@.len() == i,
                *self == *old(self),
                old(self).captured() as int != last_cp_id(store@.cps),
                forall|k: int|
                    0 <= k < len ==> (#[trigger] objects@[k])@ == materialized(
                        store@.rows,
                        old(self).query_v(),
                        k,
                    ),
                forall|k: int|
                    0 <= k < i ==> mapped_from(
                        old(self).func(),
                        store@.rows,
                        old(self).query_v(),
                        k,
                        store,
                        #[trigger] results@[k],
                    ),
                forall|o: Object| call_requires(old(self).func(), (o, store)),
            decreases len - i,
        {
            proof {
                assert(self.f == old(self).func());
            }
            let arg = objects[i].clone();
            let ghost arg_v = arg;
            let ghost pre_v = results@;
            match (self.f)(arg, store) {
                Ok(o) => {
                    results.push(o);
                    proof {
                        assert(arg_v@ == materialized(store@.rows, old(self).query_v(), i as int));
                        assert(call_ensures(
                            old(self).func(),
                            (arg_v, store),
                            Ok::<O, StoreError>(results@[i as int]),
                        ));
                        assert forall|k: int| 0 <= k <= i as int implies mapped_from(
                            old(self).func(),
                            store@.rows,
                            old(self).query_v(),
                            k,
                            store,
                            #[trigger] results@[k],
                        ) by {
                            if k < i as int {
                                assert(pre_v[k] == results@[k]);
                                assert(mapped_from(
                                    old(self).func(),
                                    store@.rows,
                                    old(self).query_v(),
                                    k,
                                    store,
                                    pre_v[k],
                                ));
                            } else {
                                assert(mapped_from(
                                    old(self).func(),
                                    store@.rows,
                                    old(self).query_v(),
                                    k,
                                    store,
                                    results@[i as int],
                                ));
                            }
                        }
                    }
                },
                Err(e) => {
                    return Err(e);
                },
            }
            i = i + 1;
        }
        self.objects = results;
        self.fetched_at_checkpoint = id;
        Ok(())
    }

    /// The cached results, exactly as fetched.
    pub fn iter(&self) -> (r: &Vec<O>)
        ensures
            r@ == self.results(),
    {
        &self.objects
    }

    /// The number of cached results.
    pub fn len(&self) -> (r: usize)
        ensures
            r == self.results().len(),
    {
        self.objects.len()
    }

    /// Whether any results were cached.
    pub fn has_any(&self) -> (r: bool)
        ensures
            r == (self.results().len() != 0),
    {
        self.objects.len() != 0
    }
}

impl Store {
    /// A [`CachedMapping`] of the objects matching the given query, fetched
    /// ahead of time and mapped through `f`.
    pub fn cached_map<Q: IntoQueryNode, F: Fn(Object, &Store) -> Result<O, StoreError>, O>(
        &self,
        query: Q,
        f: F,
    ) -> (r: Result<CachedMapping<F, O>, StoreError>)
        requires
            forall|o: Object| call_requires(f, (o, self)),
        ensures
            r matches Ok(cm) ==> cm.captured() as int == last_cp_id(self@.cps) && cm.results().len()
                == matching_rows(self@.rows, query.query_view()).len() && cm.query_v()
                == query.query_view() && cm.func() == f && forall|k: int|
                0 <= k < cm.results().len() ==> mapped_from(
                    f,
                    self@.rows,
                    query.query_view(),
                    k,
                    self,
                    #[trigger] cm.results()[k],
                ),
            (forall|o: Object, out: Result<O, StoreError>|
                call_ensures(f, (o, self), out) ==> out is Ok) ==> r is Ok,
    {
        let q = query.into_query();
        let id = match self.last_checkpoint_id() {
            Ok(id) => id,
            Err(e) => {
                return Err(e);
            },
        };
        let objects = collect_matching(&self.rows, &q);
        let mut results: Vec<O> = Vec::new();
        let len = objects.len();
        let mut i: usize = 0;
        while i < len
            invariant
                i <= len,
                len == objects@.len(),
                results@.len() == i,
                q@ == query.query_view(),
                forall|k: int|
                    0 <= k < len ==> (#[trigger] objects@[k])@ == materialized(
                        self@.rows,
                        q@,
                        k,
                    ),
                forall|k: int|
                    0 <= k < i ==> mapped_from(
                        f,
                        self@.rows,
                        q@,
                        k,
                        self,
                        #[trigger] results@[k],
                    ),
                forall|o: Object| call_requires(f, (o, self)),
            decreases len - i,
        {
            let arg = objects[i].clone();
            let ghost arg_v = arg;
            let ghost pre_v = results@;
            match f(arg, self) {
                Ok(o) => {
                    results.push(o);
                    proof {
                        assert(arg_v@ == materialized(self@.rows, q@, i as int));
                        assert(call_ensures(
                            f,
                            (arg_v, self),
                            Ok::<O, StoreError>(results@[i as int]),
                        ));
                        assert forall|k: int| 0 <= k <= i as int implies mapped_from(
                            f,
                            self@.rows,
                            q@,
                            k,
                            self,
                            #[trigger] results@[k],
                        ) by {
                            if k < i as int {
                                assert(pre_v[k] == results@[k]);
                                assert(mapped_from(f, self@.rows, q@, k, self, pre_v[k]));
                            } else {
                                assert(mapped_from(
                                    f,
                                    self@.rows,
                                    q@,
                                    k,
                                    self,
                                    results@[i as int],
                                ));
                            }
                        }
                    }
                },
                Err(e) => {
                    return Err(e);
                },
            }
            i = i + 1;
        }
        Ok(
            CachedMapping {
                fetched_at_checkpoint: id,
                query: q,
                objects: results,
                f,
            },
        )
    }
}

} // verus!
