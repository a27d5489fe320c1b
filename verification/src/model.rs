//! The mathematical model of the store: rows, the change log, checkpoints,
//! and the transitions that the executable store is proved against.

use vstd::prelude::*;

use crate::object::PropV;
use crate::query::{query_matches, QnV};

verus! {

/// What a change entry did: create an object, remove one, or overwrite one's
/// properties.
#[derive(Clone, Copy, Debug, PartialEq, Eq, Structural)]
pub enum ChangeType {
    Add,
    Delete,
    Update,
}

/// One stored object: its identity and its properties.
#[verifier::ext_equal]
pub ghost struct RowV {
    pub id: int,
    pub props: Map<Seq<char>, PropV>,
}

/// One reversible mutation in the change log. `previous` holds the full
/// property map before the change; for an `Add` it is empty.
#[verifier::ext_equal]
pub ghost struct ChangeV {
    pub serial: int,
    pub kind: ChangeType,
    pub object_id: int,
    pub previous: Map<Seq<char>, PropV>,
}

/// One committed checkpoint: its identity, the serial of the last change it
/// includes, and its human-readable description.
#[verifier::ext_equal]
pub ghost struct CpV {
    pub checkpoint_id: int,
    pub serial: int,
    pub description: Seq<char>,
}

/// The whole store: the live rows in ascending id order, the committed
/// change log in ascending serial order, the committed checkpoints, and the
/// next identity to assign (identities are never reused).
#[verifier::ext_equal]
pub ghost struct StoreV {
    pub rows: Seq<RowV>,
    pub log: Seq<ChangeV>,
    pub cps: Seq<CpV>,
    pub next_id: int,
}

/// An open checkpoint: the store it started from, its working rows (the
/// started-from rows with the pending mutations applied), the next identity,
/// and the pending change entries.
#[verifier::ext_equal]
pub ghost struct CkV {
    pub orig: StoreV,
    pub rows: Seq<RowV>,
    pub next_id: int,
    pub pending: Seq<ChangeV>,
}

// ---------------------------------------------------------------------------
// Rows
// ---------------------------------------------------------------------------

/// Rows hold ids of at least 1, in strictly ascending order, all below `bound`.
pub open spec fn rows_ok(rows: Seq<RowV>, bound: int) -> bool {
    &&& forall|i: int| 0 <= i < rows.len() ==> 1 <= #[trigger] rows[i].id < bound
    &&& forall|i: int, j: int| 0 <= i < j < rows.len() ==> rows[i].id < rows[j].id
}

/// Whether a row with the given id exists.
pub open spec fn has_row(rows: Seq<RowV>, id: int) -> bool {
    exists|i: int| 0 <= i < rows.len() && rows[i].id == id
}

/// The properties of the row with the given id.
pub open spec fn row_props(rows: Seq<RowV>, id: int) -> Map<Seq<char>, PropV> {
    let i = choose|i: int| 0 <= i < rows.len() && rows[i].id == id;
    rows[i].props
}

/// The rows with a new row inserted at its place in id order.
pub open spec fn insert_row(rows: Seq<RowV>, row: RowV) -> Seq<RowV>
    decreases rows.len(),
{
    if rows.len() == 0 {
        seq![row]
    } else if row.id < rows[0].id {
        seq![row] + rows
    } else {
        seq![rows[0]] + insert_row(rows.skip(1), row)
    }
}

/// The rows without the row of the given id.
pub open spec fn remove_row(rows: Seq<RowV>, id: int) -> Seq<RowV>
    decreases rows.len(),
{
    if rows.len() == 0 {
        rows
    } else if rows[0].id == id {
        rows.skip(1)
    } else {
        seq![rows[0]] + remove_row(rows.skip(1), id)
    }
}

/// The rows with the properties of the given id replaced.
pub open spec fn update_row(rows: Seq<RowV>, id: int, props: Map<Seq<char>, PropV>) -> Seq<RowV> {
    Seq::new(
        rows.len(),
        |i: int|
            if 0 <= i < rows.len() && rows[i].id == id {
                RowV { id: rows[i].id, props }
            } else if 0 <= i < rows.len() {
                rows[i]
            } else {
                RowV { id: 0, props: Map::empty() }
            },
    )
}

// ---------------------------------------------------------------------------
// Reverting changes
// ---------------------------------------------------------------------------

/// The rows after one change is undone, or nothing if the change does not fit
/// the rows (which well-formed stores rule out).
pub open spec fn revert_one(rows: Seq<RowV>, c: ChangeV) -> Option<Seq<RowV>> {
    match c.kind {
        ChangeType::Add => if has_row(rows, c.object_id) {
            Some(remove_row(rows, c.object_id))
        } else {
            None
        },
        ChangeType::Delete => if !has_row(rows, c.object_id) && c.object_id >= 1 {
            Some(insert_row(rows, RowV { id: c.object_id, props: c.previous }))
        } else {
            None
        },
        ChangeType::Update => if has_row(rows, c.object_id) {
            Some(update_row(rows, c.object_id, c.previous))
        } else {
            None
        },
    }
}

/// The rows after a run of changes is undone, newest first.
pub open spec fn revert_seq(rows: Seq<RowV>, changes: Seq<ChangeV>) -> Option<Seq<RowV>>
    decreases changes.len(),
{
    if changes.len() == 0 {
        Some(rows)
    } else {
        match revert_one(rows, changes.last()) {
            Some(m) => revert_seq(m, changes.drop_last()),
            None => None,
        }
    }
}

/// Reverting a concatenation reverts the later run first.
pub proof fn lemma_revert_concat(rows: Seq<RowV>, a: Seq<ChangeV>, b: Seq<ChangeV>)
    ensures
        revert_seq(rows, a + b) == (match revert_seq(rows, b) {
            Some(m) => revert_seq(m, a),
            None => None::<Seq<RowV>>,
        }),
    decreases b.len(),
{
    if b.len() == 0 {
        assert(a + b =~= a);
    } else {
        assert((a + b).last() == b.last());
        assert((a + b).drop_last() =~= a + b.drop_last());
        match revert_one(rows, b.last()) {
            Some(m) => {
                lemma_revert_concat(m, a, b.drop_last());
            },
            None => {},
        }
    }
}

// ---------------------------------------------------------------------------
// Serials and checkpoints
// ---------------------------------------------------------------------------

/// The serial of the newest change, or 0 if there is none.
pub open spec fn last_log_serial(log: Seq<ChangeV>) -> int {
    if log.len() == 0 {
        0
    } else {
        log.last().serial
    }
}

/// The id of the newest checkpoint, or 0 if there is none.
pub open spec fn last_cp_id(cps: Seq<CpV>) -> int {
    if cps.len() == 0 {
        0
    } else {
        cps.last().checkpoint_id
    }
}

/// The serial of the newest checkpoint, or 0 if there is none.
pub open spec fn last_cp_serial(cps: Seq<CpV>) -> int {
    if cps.len() == 0 {
        0
    } else {
        cps.last().serial
    }
}

/// Log serials are at least 1 and strictly ascending.
pub open spec fn log_ok(log: Seq<ChangeV>) -> bool {
    &&& forall|i: int| 0 <= i < log.len() ==> (#[trigger] log[i].serial) >= 1
    &&& forall|i: int, j: int| 0 <= i < j < log.len() ==> log[i].serial < log[j].serial
}

/// Every change concerns an identity that has been assigned.
pub open spec fn log_ids_ok(log: Seq<ChangeV>, bound: int) -> bool {
    forall|i: int| 0 <= i < log.len() ==> 1 <= (#[trigger] log[i].object_id) < bound
}

/// A checkpoint serial is witnessed by a change entry, unless it is 0.
pub open spec fn serial_in_log(log: Seq<ChangeV>, s: int) -> bool {
    s == 0 || exists|i: int| 0 <= i < log.len() && log[i].serial == s
}

/// Checkpoint ids are at least 1 and strictly ascending; serials never
/// decrease and never exceed the newest change.
pub open spec fn cps_ok(cps: Seq<CpV>) -> bool {
    &&& forall|i: int| 0 <= i < cps.len() ==> (#[trigger] cps[i].checkpoint_id) >= 1
    &&& forall|i: int| 0 <= i < cps.len() ==> (#[trigger] cps[i].serial) >= 0
    &&& forall|i: int, j: int|
        0 <= i < j < cps.len() ==> cps[i].checkpoint_id < cps[j].checkpoint_id
    &&& forall|i: int, j: int| 0 <= i < j < cps.len() ==> cps[i].serial <= cps[j].serial
}

/// A well-formed store.
pub open spec fn store_wf(s: StoreV) -> bool {
    &&& rows_ok(s.rows, s.next_id)
    &&& s.next_id >= 1
    &&& log_ok(s.log)
    &&& log_ids_ok(s.log, s.next_id)
    &&& cps_ok(s.cps)
    &&& (s.cps.len() == 0 ==> s.log.len() == 0)
    &&& forall|k: int| 0 <= k < s.cps.len() ==> serial_in_log(s.log, (#[trigger] s.cps[k]).serial)
    &&& last_log_serial(s.log) == last_cp_serial(s.cps)
    &&& revert_seq(s.rows, s.log) == Some(Seq::<RowV>::empty())
}

/// A well-formed open checkpoint: its starting store is well formed, its
/// working rows are ordered, its pending changes are newer than everything
/// committed, and undoing them gives the starting rows back.
pub open spec fn cp_wf(c: CkV) -> bool {
    &&& store_wf(c.orig)
    &&& rows_ok(c.rows, c.next_id)
    &&& c.next_id >= c.orig.next_id
    &&& log_ok(c.pending)
    &&& log_ids_ok(c.pending, c.next_id)
    &&& forall|i: int|
        0 <= i < c.pending.len() ==> (#[trigger] c.pending[i].serial) > last_log_serial(c.orig.log)
    &&& revert_seq(c.rows, c.pending) == Some(c.orig.rows)
}

// ---------------------------------------------------------------------------
// Transitions
// ---------------------------------------------------------------------------

/// An empty store.
pub open spec fn store_init() -> StoreV {
    StoreV { rows: Seq::empty(), log: Seq::empty(), cps: Seq::empty(), next_id: 1 }
}

/// The serial the next pending change will receive.
pub open spec fn next_pending_serial(c: CkV) -> int {
    if c.pending.len() == 0 {
        last_log_serial(c.orig.log) + 1
    } else {
        c.pending.last().serial + 1
    }
}

/// Opening a checkpoint on a store.
pub open spec fn cp_open(s: StoreV) -> CkV {
    CkV { orig: s, rows: s.rows, next_id: s.next_id, pending: Seq::empty() }
}

/// Adding an object within a checkpoint: the next identity is assigned, the
/// row is inserted, and an `Add` entry with an empty snapshot is recorded.
pub open spec fn cp_add(c: CkV, props: Map<Seq<char>, PropV>) -> (CkV, int) {
    let id = c.next_id;
    (
        CkV {
            orig: c.orig,
            rows: insert_row(c.rows, RowV { id, props }),
            next_id: id + 1,
            pending: c.pending.push(
                ChangeV {
                    serial: next_pending_serial(c),
                    kind: ChangeType::Add,
                    object_id: id,
                    previous: Map::empty(),
                },
            ),
        },
        id,
    )
}

/// The rows whose match against the query has the wanted outcome, in id order.
pub open spec fn rows_where(rows: Seq<RowV>, q: QnV, want: bool) -> Seq<RowV>
    decreases rows.len(),
{
    if rows.len() == 0 {
        Seq::empty()
    } else {
        let rest = rows_where(rows.drop_last(), q, want);
        if query_matches(q, rows.last().id, rows.last().props) == want {
            rest.push(rows.last())
        } else {
            rest
        }
    }
}

/// The rows matching a query, in id order.
pub open spec fn matching_rows(rows: Seq<RowV>, q: QnV) -> Seq<RowV> {
    rows_where(rows, q, true)
}

/// The rows not matching a query, in id order.
pub open spec fn non_matching_rows(rows: Seq<RowV>, q: QnV) -> Seq<RowV> {
    rows_where(rows, q, false)
}

/// A `Delete` entry per victim, in row order, with consecutive serials; each
/// snapshot holds the victim's properties.
pub open spec fn delete_entries(victims: Seq<RowV>, serial0: int) -> Seq<ChangeV> {
    Seq::new(
        victims.len(),
        |i: int|
            ChangeV {
                serial: serial0 + i,
                kind: ChangeType::Delete,
                object_id: victims[i].id,
                previous: victims[i].props,
            },
    )
}

/// An `Update` entry per victim, in row order, with consecutive serials; each
/// snapshot holds the victim's properties before the change.
pub open spec fn update_entries(victims: Seq<RowV>, serial0: int) -> Seq<ChangeV> {
    Seq::new(
        victims.len(),
        |i: int|
            ChangeV {
                serial: serial0 + i,
                kind: ChangeType::Update,
                object_id: victims[i].id,
                previous: victims[i].props,
            },
    )
}

/// Deleting the matching rows within a checkpoint. Returns the new state and
/// the number of deleted rows.
pub open spec fn cp_delete(c: CkV, q: QnV) -> (CkV, int) {
    let victims = matching_rows(c.rows, q);
    (
        CkV {
            orig: c.orig,
            rows: non_matching_rows(c.rows, q),
            next_id: c.next_id,
            pending: c.pending + delete_entries(victims, next_pending_serial(c)),
        },
        victims.len() as int,
    )
}

/// The rows with the patch merged into every row matching the query.
pub open spec fn patched_rows(rows: Seq<RowV>, q: QnV, patch: Map<Seq<char>, PropV>) -> Seq<RowV> {
    Seq::new(
        rows.len(),
        |i: int|
            if 0 <= i < rows.len() && query_matches(q, rows[i].id, rows[i].props) {
                RowV { id: rows[i].id, props: rows[i].props.union_prefer_right(patch) }
            } else if 0 <= i < rows.len() {
                rows[i]
            } else {
                RowV { id: 0, props: Map::empty() }
            },
    )
}

/// Setting properties on the matching rows within a checkpoint. An empty
/// patch changes nothing and counts no rows; otherwise every matching row
/// gets the patch merged in, under an `Update` entry holding its previous
/// properties.
pub open spec fn cp_set(c: CkV, q: QnV, patch: Map<Seq<char>, PropV>) -> (CkV, int) {
    if patch.dom() =~= Set::<Seq<char>>::empty() {
        (c, 0)
    } else {
        let victims = matching_rows(c.rows, q);
        (
            CkV {
                orig: c.orig,
                rows: patched_rows(c.rows, q, patch),
                next_id: c.next_id,
                pending: c.pending + update_entries(victims, next_pending_serial(c)),
            },
            victims.len() as int,
        )
    }
}

/// Committing a checkpoint: the pending changes join the log, and a
/// checkpoint row is appended whose serial is the newest change's (0 if the
/// store never changed).
pub open spec fn cp_commit(c: CkV, desc: Seq<char>) -> StoreV {
    let log = c.orig.log + c.pending;
    StoreV {
        rows: c.rows,
        log,
        cps: c.orig.cps.push(
            CpV {
                checkpoint_id: last_cp_id(c.orig.cps) + 1,
                serial: last_log_serial(log),
                description: desc,
            },
        ),
        next_id: c.next_id,
    }
}

/// The serial of the checkpoint before the newest, or 0 if there is none:
/// the newest checkpoint's changes are those with greater serials.
pub open spec fn undo_prev_serial(cps: Seq<CpV>) -> int {
    if cps.len() >= 2 {
        cps[cps.len() - 2].serial
    } else {
        0
    }
}

/// The index of the first change with a serial above `s` (the log length if
/// there is none).
pub open spec fn first_gt(log: Seq<ChangeV>, s: int) -> int
    decreases log.len(),
{
    if log.len() == 0 {
        0
    } else if log[0].serial > s {
        0
    } else {
        1 + first_gt(log.skip(1), s)
    }
}

/// Undoing the newest checkpoint: nothing happens on an empty checkpoint
/// stack; otherwise its changes are reverted newest-first, the traversed
/// entries and the checkpoint row are removed, and its description is
/// returned. Identities stay assigned: `next_id` does not move back.
pub open spec fn store_undo(s: StoreV) -> (StoreV, Option<Seq<char>>) {
    if s.cps.len() == 0 {
        (s, None::<Seq<char>>)
    } else {
        let prev = undo_prev_serial(s.cps);
        let k = first_gt(s.log, prev);
        let group = s.log.subrange(k, s.log.len() as int);
        let rows2 = match revert_seq(s.rows, group) {
            Some(m) => m,
            None => s.rows,
        };
        (
            StoreV {
                rows: rows2,
                log: s.log.subrange(0, k),
                cps: s.cps.drop_last(),
                next_id: s.next_id,
            },
            Some(s.cps.last().description),
        )
    }
}

// ---------------------------------------------------------------------------
// Row lemmas
// ---------------------------------------------------------------------------

/// Inserting a row whose id falls between two runs places it between them.
pub proof fn lemma_insert_row_between(a: Seq<RowV>, b: Seq<RowV>, r: RowV)
    requires
        forall|i: int| 0 <= i < a.len() ==> (#[trigger] a[i].id) < r.id,
        forall|i: int| 0 <= i < b.len() ==> (#[trigger] b[i].id) > r.id,
    ensures
        insert_row(a + b, r) == a + seq![r] + b,
    decreases a.len(),
{
    if a.len() == 0 {
        assert(a + b =~= b);
        if b.len() == 0 {
            assert(insert_row(b, r) =~= seq![r]);
            assert(a + seq![r] + b =~= seq![r]);
        } else {
            assert(r.id < b[0].id);
            assert(insert_row(b, r) == seq![r] + b);
            assert(a + seq![r] + b =~= seq![r] + b);
        }
    } else {
        let ab = a + b;
        assert(ab.len() > 0);
        assert(ab[0] == a[0]);
        assert(!(r.id < ab[0].id));
        assert(ab.skip(1) =~= a.skip(1) + b);
        lemma_insert_row_between(a.skip(1), b, r);
        assert(insert_row(ab, r) == seq![ab[0]] + insert_row(a.skip(1) + b, r));
        assert(seq![a[0]] + (a.skip(1) + seq![r] + b) =~= a + seq![r] + b);
    }
}

/// Removing an id that two runs do not hold removes the row standing between
/// them.
pub proof fn lemma_remove_row_between(a: Seq<RowV>, b: Seq<RowV>, r: RowV)
    requires
        forall|i: int| 0 <= i < a.len() ==> (#[trigger] a[i].id) != r.id,
        forall|i: int| 0 <= i < b.len() ==> (#[trigger] b[i].id) != r.id,
    ensures
        remove_row(a + seq![r] + b, r.id) == a + b,
    decreases a.len(),
{
    let arb = a + seq![r] + b;
    if a.len() == 0 {
        assert(arb[0] == r);
        assert(remove_row(arb, r.id) == arb.skip(1));
        assert(arb.skip(1) =~= b);
        assert(a + b =~= b);
    } else {
        assert(arb[0] == a[0]);
        assert(arb[0].id != r.id);
        assert(arb.skip(1) =~= a.skip(1) + seq![r] + b);
        lemma_remove_row_between(a.skip(1), b, r);
        assert(remove_row(arb, r.id) == seq![a[0]] + (a.skip(1) + b));
        assert(seq![a[0]] + (a.skip(1) + b) =~= a + b);
    }
}

/// Updating an id held by the row between two runs replaces just that row.
pub proof fn lemma_update_row_between(
    a: Seq<RowV>,
    b: Seq<RowV>,
    r: RowV,
    props: Map<Seq<char>, PropV>,
)
    requires
        forall|i: int| 0 <= i < a.len() ==> (#[trigger] a[i].id) != r.id,
        forall|i: int| 0 <= i < b.len() ==> (#[trigger] b[i].id) != r.id,
    ensures
        update_row(a + seq![r] + b, r.id, props) == a + seq![RowV { id: r.id, props }] + b,
{
    assert(update_row(a + seq![r] + b, r.id, props) =~= a + seq![RowV { id: r.id, props }] + b);
}

/// Row counts under the three primitive operations.
pub proof fn lemma_row_op_lens(rows: Seq<RowV>, r: RowV, id: int, props: Map<Seq<char>, PropV>)
    ensures
        insert_row(rows, r).len() == rows.len() + 1,
        has_row(rows, id) ==> remove_row(rows, id).len() >= rows.len() - 1,
        update_row(rows, id, props).len() == rows.len(),
    decreases rows.len(),
{
    if rows.len() > 0 {
        lemma_row_op_lens(rows.skip(1), r, id, props);
        if has_row(rows, id) && rows[0].id != id {
            let i = choose|i: int| 0 <= i < rows.len() && rows[i].id == id;
            assert(rows.skip(1)[i - 1].id == id);
            assert(has_row(rows.skip(1), id));
        }
    }
}

/// Removing a present id from distinct rows drops exactly one row.
pub proof fn lemma_remove_row_len(rows: Seq<RowV>, id: int)
    requires
        forall|i: int, j: int| 0 <= i < j < rows.len() ==> rows[i].id != rows[j].id,
        has_row(rows, id),
    ensures
        remove_row(rows, id).len() == rows.len() - 1,
    decreases rows.len(),
{
    if rows[0].id == id {
    } else {
        let i = choose|i: int| 0 <= i < rows.len() && rows[i].id == id;
        assert(rows.skip(1)[i - 1].id == id);
        assert(has_row(rows.skip(1), id));
        lemma_remove_row_len(rows.skip(1), id);
        assert(remove_row(rows, id) == seq![rows[0]] + remove_row(rows.skip(1), id));
    }
}

/// Inserting a fresh, in-bounds id keeps rows well formed.
pub proof fn lemma_insert_row_ok(rows: Seq<RowV>, r: RowV, bound: int)
    requires
        rows_ok(rows, bound),
        1 <= r.id < bound,
        !has_row(rows, r.id),
    ensures
        rows_ok(insert_row(rows, r), bound),
        forall|x: int|
            #[trigger] has_row(insert_row(rows, r), x) <==> (has_row(rows, x) || x == r.id),
    decreases rows.len(),
{
    let out = insert_row(rows, r);
    if rows.len() == 0 {
        assert forall|x: int| has_row(out, x) implies (has_row(rows, x) || x == r.id) by {
            let i = choose|i: int| 0 <= i < out.len() && out[i].id == x;
        }
        assert(has_row(out, r.id)) by {
            assert(out[0].id == r.id);
        }
    } else if r.id < rows[0].id {
        assert(out == seq![r] + rows);
        assert forall|x: int| has_row(out, x) implies (has_row(rows, x) || x == r.id) by {
            let i = choose|i: int| 0 <= i < out.len() && out[i].id == x;
            if i > 0 {
                assert(rows[i - 1].id == x);
            }
        }
        assert forall|x: int| has_row(rows, x) || x == r.id implies has_row(out, x) by {
            if x == r.id {
                assert(out[0].id == x);
            } else {
                let i = choose|i: int| 0 <= i < rows.len() && rows[i].id == x;
                assert(out[i + 1].id == x);
            }
        }
    } else {
        assert(r.id > rows[0].id) by {
            assert(rows[0].id != r.id) by {
                assert(has_row(rows, rows[0].id));
            }
        }
        assert(rows_ok(rows.skip(1), bound)) by {
            assert(forall|i: int|
                0 <= i < rows.skip(1).len() ==> rows.skip(1)[i] == rows[i + 1]);
        }
        assert(!has_row(rows.skip(1), r.id)) by {
            if has_row(rows.skip(1), r.id) {
                let i = choose|i: int| 0 <= i < rows.skip(1).len() && rows.skip(1)[i].id == r.id;
                assert(rows[i + 1].id == r.id);
            }
        }
        lemma_insert_row_ok(rows.skip(1), r, bound);
        let sub = insert_row(rows.skip(1), r);
        assert(out == seq![rows[0]] + sub);
        assert forall|i: int, j: int| 0 <= i < j < out.len() implies out[i].id < out[j].id by {
            if i == 0 {
                assert(out[j] == sub[j - 1]);
                assert(has_row(sub, sub[j - 1].id)) by {
                    assert(sub[j - 1].id == sub[j - 1].id);
                }
                if sub[j - 1].id != r.id {
                    assert(has_row(rows.skip(1), sub[j - 1].id));
                    let m = choose|m: int|
                        0 <= m < rows.skip(1).len() && rows.skip(1)[m].id == sub[j - 1].id;
                    assert(rows[m + 1].id == sub[j - 1].id);
                }
            } else {
                assert(out[i] == sub[i - 1] && out[j] == sub[j - 1]);
            }
        }
        assert forall|i: int| 0 <= i < out.len() implies 1 <= #[trigger] out[i].id < bound by {
            if i > 0 {
                assert(out[i] == sub[i - 1]);
            }
        }
        assert forall|x: int| has_row(out, x) implies (has_row(rows, x) || x == r.id) by {
            let i = choose|i: int| 0 <= i < out.len() && out[i].id == x;
            if i == 0 {
                assert(rows[0].id == x);
            } else {
                assert(sub[i - 1].id == x);
                assert(has_row(sub, x));
                if x != r.id {
                    let m = choose|m: int|
                        0 <= m < rows.skip(1).len() && rows.skip(1)[m].id == x;
                    assert(rows[m + 1].id == x);
                }
            }
        }
        assert forall|x: int| has_row(rows, x) || x == r.id implies has_row(out, x) by {
            if x == rows[0].id {
                assert(out[0].id == x);
            } else {
                if x != r.id {
                    let i = choose|i: int| 0 <= i < rows.len() && rows[i].id == x;
                    assert(i > 0);
                    assert(rows.skip(1)[i - 1].id == x);
                    assert(has_row(rows.skip(1), x));
                }
                assert(has_row(sub, x));
                let m = choose|m: int| 0 <= m < sub.len() && sub[m].id == x;
                assert(out[m + 1].id == x);
            }
        }
    }
}

/// Removing an id keeps rows well formed.
pub proof fn lemma_remove_row_ok(rows: Seq<RowV>, id: int, bound: int)
    requires
        rows_ok(rows, bound),
    ensures
        rows_ok(remove_row(rows, id), bound),
        forall|x: int| #[trigger] has_row(remove_row(rows, id), x) ==> has_row(rows, x),
        !has_row(remove_row(rows, id), id),
    decreases rows.len(),
{
    let out = remove_row(rows, id);
    if rows.len() == 0 {
        assert forall|x: int| has_row(out, x) implies has_row(rows, x) by {}
        assert(!has_row(out, id));
    } else if rows[0].id == id {
        assert(out =~= rows.skip(1));
        assert(forall|i: int| 0 <= i < out.len() ==> out[i] == rows[i + 1]);
        assert forall|x: int| has_row(out, x) implies has_row(rows, x) by {
            let i = choose|i: int| 0 <= i < out.len() && out[i].id == x;
            assert(rows[i + 1].id == x);
        }
        assert(!has_row(out, id)) by {
            if has_row(out, id) {
                let i = choose|i: int| 0 <= i < out.len() && out[i].id == id;
                assert(rows[i + 1].id == id);
                assert(rows[0].id < rows[i + 1].id);
            }
        }
    } else {
        assert(rows_ok(rows.skip(1), bound)) by {
            assert(forall|i: int|
                0 <= i < rows.skip(1).len() ==> rows.skip(1)[i] == rows[i + 1]);
        }
        lemma_remove_row_ok(rows.skip(1), id, bound);
        let sub = remove_row(rows.skip(1), id);
        assert(out == seq![rows[0]] + sub);
        assert forall|i: int, j: int| 0 <= i < j < out.len() implies out[i].id < out[j].id by {
            if i == 0 {
                assert(out[j] == sub[j - 1]);
                assert(has_row(sub, sub[j - 1].id));
                assert(has_row(rows.skip(1), sub[j - 1].id));
                let m = choose|m: int|
                    0 <= m < rows.skip(1).len() && rows.skip(1)[m].id == sub[j - 1].id;
                assert(rows[m + 1].id == sub[j - 1].id);
            } else {
                assert(out[i] == sub[i - 1] && out[j] == sub[j - 1]);
            }
        }
        assert forall|i: int| 0 <= i < out.len() implies 1 <= #[trigger] out[i].id < bound by {
            if i > 0 {
                assert(out[i] == sub[i - 1]);
                assert(has_row(sub, sub[i - 1].id));
                assert(has_row(rows.skip(1), sub[i - 1].id));
                let m = choose|m: int|
                    0 <= m < rows.skip(1).len() && rows.skip(1)[m].id == sub[i - 1].id;
                assert(rows[m + 1].id == sub[i - 1].id);
            }
        }
        assert forall|x: int| has_row(out, x) implies has_row(rows, x) by {
            let i = choose|i: int| 0 <= i < out.len() && out[i].id == x;
            if i == 0 {
                assert(rows[0].id == x);
            } else {
                assert(sub[i - 1].id == x);
                assert(has_row(sub, x));
                assert(has_row(rows.skip(1), x));
                let m = choose|m: int| 0 <= m < rows.skip(1).len() && rows.skip(1)[m].id == x;
                assert(rows[m + 1].id == x);
            }
        }
        assert(!has_row(out, id)) by {
            if has_row(out, id) {
                let i = choose|i: int| 0 <= i < out.len() && out[i].id == id;
                if i > 0 {
                    assert(sub[i - 1].id == id);
                    assert(has_row(sub, id));
                }
            }
        }
    }
}

/// Overwriting one id's properties keeps rows well formed.
pub proof fn lemma_update_row_ok(rows: Seq<RowV>, id: int, props: Map<Seq<char>, PropV>, bound: int)
    requires
        rows_ok(rows, bound),
    ensures
        rows_ok(update_row(rows, id, props), bound),
        update_row(rows, id, props).len() == rows.len(),
        forall|x: int| #[trigger] has_row(update_row(rows, id, props), x) <==> has_row(rows, x),
{
    let out = update_row(rows, id, props);
    assert(forall|i: int| 0 <= i < out.len() ==> (#[trigger] out[i].id) == rows[i].id);
    assert forall|x: int| has_row(out, x) implies has_row(rows, x) by {
        let i = choose|i: int| 0 <= i < out.len() && out[i].id == x;
        assert(rows[i].id == x);
    }
    assert forall|x: int| has_row(rows, x) implies has_row(out, x) by {
        let i = choose|i: int| 0 <= i < rows.len() && rows[i].id == x;
        assert(out[i].id == x);
    }
}

/// Undoing one fitting change keeps rows well formed.
pub proof fn lemma_revert_one_rows_ok(rows: Seq<RowV>, c: ChangeV, bound: int)
    requires
        rows_ok(rows, bound),
        1 <= c.object_id < bound,
        revert_one(rows, c) is Some,
    ensures
        rows_ok(revert_one(rows, c)->Some_0, bound),
{
    match c.kind {
        ChangeType::Add => {
            lemma_remove_row_ok(rows, c.object_id, bound);
        },
        ChangeType::Delete => {
            lemma_insert_row_ok(rows, RowV { id: c.object_id, props: c.previous }, bound);
        },
        ChangeType::Update => {
            lemma_update_row_ok(rows, c.object_id, c.previous, bound);
        },
    }
}

/// How many changes of the given kind a log holds.
pub open spec fn count_kind(log: Seq<ChangeV>, kind: ChangeType) -> int
    decreases log.len(),
{
    if log.len() == 0 {
        0
    } else {
        count_kind(log.drop_last(), kind) + if log.last().kind == kind {
            1int
        } else {
            0int
        }
    }
}

/// Undoing a fitting run keeps rows well formed, and accounts for every
/// object created and removed: each `Add` undone takes a row away, each
/// `Delete` undone brings one back.
pub proof fn lemma_revert_seq_counts(rows: Seq<RowV>, changes: Seq<ChangeV>, bound: int)
    requires
        rows_ok(rows, bound),
        log_ids_ok(changes, bound),
        revert_seq(rows, changes) is Some,
    ensures
        rows_ok(revert_seq(rows, changes)->Some_0, bound),
        revert_seq(rows, changes)->Some_0.len() == rows.len() - count_kind(changes, ChangeType::Add)
            + count_kind(changes, ChangeType::Delete),
    decreases changes.len(),
{
    if changes.len() == 0 {
    } else {
        let c = changes.last();
        assert(1 <= c.object_id < bound);
        let m = revert_one(rows, c)->Some_0;
        lemma_revert_one_rows_ok(rows, c, bound);
        assert(log_ids_ok(changes.drop_last(), bound)) by {
            assert(forall|i: int|
                0 <= i < changes.drop_last().len() ==> changes.drop_last()[i] == changes[i]);
        }
        lemma_revert_seq_counts(m, changes.drop_last(), bound);
        match c.kind {
            ChangeType::Add => {
                lemma_remove_row_len(rows, c.object_id);
            },
            ChangeType::Delete => {
                lemma_row_op_lens(rows, RowV { id: c.object_id, props: c.previous }, 0, Map::empty());
            },
            ChangeType::Update => {
                lemma_row_op_lens(rows, RowV { id: c.object_id, props: c.previous }, 0, Map::empty());
            },
        }
    }
}

/// Every selected row is one of the rows.
pub proof fn lemma_rows_where_sub(rows: Seq<RowV>, q: QnV, want: bool)
    ensures
        rows_where(rows, q, want).len() <= rows.len(),
        forall|j: int|
            0 <= j < rows_where(rows, q, want).len() ==> exists|i: int|
                0 <= i < rows.len() && rows[i] == #[trigger] rows_where(rows, q, want)[j],
    decreases rows.len(),
{
    if rows.len() == 0 {
    } else {
        let f2 = rows.drop_last();
        lemma_rows_where_sub(f2, q, want);
        let rw = rows_where(rows, q, want);
        let rw2 = rows_where(f2, q, want);
        assert forall|j: int| 0 <= j < rw.len() implies exists|i: int|
            0 <= i < rows.len() && rows[i] == #[trigger] rw[j] by {
            if j < rw2.len() {
                assert(rw[j] == rw2[j]);
                let i = choose|i: int| 0 <= i < f2.len() && f2[i] == rw2[j];
                assert(rows[i] == rw[j]);
            } else {
                assert(rw[j] == rows.last());
                assert(rows[rows.len() - 1] == rw[j]);
            }
        }
    }
}

/// Selection keeps rows well formed.
pub proof fn lemma_rows_where_ok(rows: Seq<RowV>, q: QnV, want: bool, bound: int)
    requires
        rows_ok(rows, bound),
    ensures
        rows_ok(rows_where(rows, q, want), bound),
    decreases rows.len(),
{
    if rows.len() == 0 {
    } else {
        let f2 = rows.drop_last();
        assert(rows_ok(f2, bound)) by {
            assert(forall|i: int| 0 <= i < f2.len() ==> f2[i] == rows[i]);
        }
        lemma_rows_where_ok(f2, q, want, bound);
        lemma_rows_where_sub(f2, q, want);
        let rw = rows_where(rows, q, want);
        let rw2 = rows_where(f2, q, want);
        if query_matches(q, rows.last().id, rows.last().props) == want {
            assert forall|i: int, j: int| 0 <= i < j < rw.len() implies rw[i].id < rw[j].id by {
                if j < rw2.len() {
                    assert(rw[i] == rw2[i] && rw[j] == rw2[j]);
                } else {
                    assert(rw[j] == rows.last());
                    assert(rw[i] == rw2[i]);
                    let m = choose|m: int| 0 <= m < f2.len() && f2[m] == rw2[i];
                    assert(rows[m] == rw2[i]);
                    assert(rows[m].id < rows[rows.len() - 1].id);
                }
            }
            assert forall|i: int| 0 <= i < rw.len() implies 1 <= (#[trigger] rw[i].id) < bound by {
                if i < rw2.len() {
                    assert(rw[i] == rw2[i]);
                } else {
                    assert(rw[i] == rows.last());
                    assert(rows[rows.len() - 1].id >= 1);
                }
            }
        }
    }
}

/// Undoing the `Delete` entries of the matching rows restores them among the
/// kept rows; a run of greater-id rows may stand after both.
proof fn lemma_revert_delete_entries(front: Seq<RowV>, tail: Seq<RowV>, q: QnV, s0: int)
    requires
        forall|i: int, j: int| 0 <= i < j < front.len() ==> front[i].id < front[j].id,
        forall|i: int, j: int|
            0 <= i < front.len() && 0 <= j < tail.len() ==> (#[trigger] front[i]).id < (#[trigger] tail[j]).id,
        forall|i: int| 0 <= i < front.len() ==> (#[trigger] front[i].id) >= 1,
    ensures
        revert_seq(
            rows_where(front, q, false) + tail,
            delete_entries(rows_where(front, q, true), s0),
        ) == Some(front + tail),
    decreases front.len(),
{
    if front.len() == 0 {
        assert(rows_where(front, q, false) =~= Seq::<RowV>::empty());
        assert(rows_where(front, q, true) =~= Seq::<RowV>::empty());
        assert(delete_entries(rows_where(front, q, true), s0) =~= Seq::<ChangeV>::empty());
        assert(rows_where(front, q, false) + tail =~= tail);
        assert(front + tail =~= tail);
    } else {
        let f2 = front.drop_last();
        let rl = front.last();
        assert(forall|i: int| 0 <= i < f2.len() ==> f2[i] == front[i]);
        assert(forall|i: int| 0 <= i < f2.len() ==> (#[trigger] f2[i].id) < rl.id) by {
            assert(forall|i: int|
                0 <= i < f2.len() ==> (#[trigger] front[i]).id < front[front.len() - 1].id);
        }
        lemma_rows_where_sub(f2, q, false);
        lemma_rows_where_sub(f2, q, true);
        let nm2 = rows_where(f2, q, false);
        let m2 = rows_where(f2, q, true);
        assert(forall|j: int| 0 <= j < nm2.len() ==> (#[trigger] nm2[j].id) < rl.id) by {
            assert forall|j: int| 0 <= j < nm2.len() implies (#[trigger] nm2[j].id) < rl.id by {
                let i = choose|i: int| 0 <= i < f2.len() && f2[i] == nm2[j];
            }
        }
        let tail2 = seq![rl] + tail;
        assert(forall|i: int, j: int|
            0 <= i < f2.len() && 0 <= j < tail2.len() ==> (#[trigger] f2[i]).id < (#[trigger] tail2[j]).id)
            by {
            assert forall|i: int, j: int|
                0 <= i < f2.len() && 0 <= j < tail2.len() implies (#[trigger] f2[i]).id < (
            #[trigger] tail2[j]).id by {
                if j == 0 {
                    assert(tail2[j] == rl);
                } else {
                    assert(tail2[j] == tail[j - 1]);
                    assert(front[i].id < tail[j - 1].id);
                }
            }
        }
        lemma_revert_delete_entries(f2, tail2, q, s0);
        if query_matches(q, rl.id, rl.props) {
            assert(rows_where(front, q, true) == m2.push(rl));
            assert(rows_where(front, q, false) == nm2);
            let entries = delete_entries(m2.push(rl), s0);
            let e = ChangeV {
                serial: s0 + m2.len(),
                kind: ChangeType::Delete,
                object_id: rl.id,
                previous: rl.props,
            };
            assert(entries =~= delete_entries(m2, s0).push(e)) by {
                assert(forall|i: int|
                    0 <= i < m2.len() ==> m2.push(rl)[i] == m2[i]);
                assert(m2.push(rl)[m2.len() as int] == rl);
            }
            assert(entries.last() == e);
            assert(entries.drop_last() =~= delete_entries(m2, s0));
            // the first step re-inserts the last victim
            assert(!has_row(nm2 + tail, rl.id)) by {
                if has_row(nm2 + tail, rl.id) {
                    let i = choose|i: int|
                        0 <= i < (nm2 + tail).len() && (nm2 + tail)[i].id == rl.id;
                    if i < nm2.len() {
                        assert(nm2[i].id < rl.id);
                    } else {
                        assert((nm2 + tail)[i] == tail[i - nm2.len()]);
                        assert(front[front.len() - 1].id < tail[i - nm2.len()].id);
                    }
                }
            }
            assert(rl.id >= 1) by {
                assert(front[front.len() - 1].id >= 1);
            }
            assert(RowV { id: rl.id, props: rl.props } == rl);
            assert(revert_one(nm2 + tail, e) == Some(insert_row(nm2 + tail, rl)));
            assert(forall|j: int| 0 <= j < tail.len() ==> (#[trigger] tail[j].id) > rl.id) by {
                assert(forall|j: int|
                    0 <= j < tail.len() ==> front[front.len() - 1].id < (#[trigger] tail[j]).id);
            }
            lemma_insert_row_between(nm2, tail, rl);
            assert(insert_row(nm2 + tail, rl) == nm2 + seq![rl] + tail);
            assert(nm2 + seq![rl] + tail =~= nm2 + tail2);
            assert(revert_seq(nm2 + tail, entries) == revert_seq(
                nm2 + tail2,
                delete_entries(m2, s0),
            ));
            assert(revert_seq(nm2 + tail2, delete_entries(m2, s0)) == Some(f2 + tail2));
            assert(f2 + tail2 =~= front + tail);
        } else {
            assert(rows_where(front, q, false) == nm2.push(rl));
            assert(rows_where(front, q, true) == m2);
            assert(nm2.push(rl) + tail =~= nm2 + tail2);
            assert(revert_seq(nm2 + tail2, delete_entries(m2, s0)) == Some(f2 + tail2));
            assert(f2 + tail2 =~= front + tail);
        }
    }
}

/// Undoing the `Update` entries of the matching rows restores their previous
/// properties; a run of greater-id rows may stand after both.
proof fn lemma_revert_update_entries(
    front: Seq<RowV>,
    tail: Seq<RowV>,
    q: QnV,
    patch: Map<Seq<char>, PropV>,
    s0: int,
)
    requires
        forall|i: int, j: int| 0 <= i < j < front.len() ==> front[i].id < front[j].id,
        forall|i: int, j: int|
            0 <= i < front.len() && 0 <= j < tail.len() ==> (#[trigger] front[i]).id < (#[trigger] tail[j]).id,
        forall|i: int| 0 <= i < front.len() ==> (#[trigger] front[i].id) >= 1,
    ensures
        revert_seq(
            patched_rows(front, q, patch) + tail,
            update_entries(rows_where(front, q, true), s0),
        ) == Some(front + tail),
    decreases front.len(),
{
    if front.len() == 0 {
        assert(patched_rows(front, q, patch) =~= Seq::<RowV>::empty());
        assert(rows_where(front, q, true) =~= Seq::<RowV>::empty());
        assert(update_entries(rows_where(front, q, true), s0) =~= Seq::<ChangeV>::empty());
        assert(patched_rows(front, q, patch) + tail =~= tail);
        assert(front + tail =~= tail);
    } else {
        let f2 = front.drop_last();
        let rl = front.last();
        assert(forall|i: int| 0 <= i < f2.len() ==> f2[i] == front[i]);
        assert(forall|i: int| 0 <= i < f2.len() ==> (#[trigger] f2[i].id) < rl.id) by {
            assert(forall|i: int|
                0 <= i < f2.len() ==> (#[trigger] front[i]).id < front[front.len() - 1].id);
        }
        lemma_rows_where_sub(f2, q, true);
        let p2 = patched_rows(f2, q, patch);
        let m2 = rows_where(f2, q, true);
        assert(p2.len() == f2.len());
        assert(forall|i: int| 0 <= i < p2.len() ==> (#[trigger] p2[i].id) == f2[i].id);
        let tail2 = seq![rl] + tail;
        assert(forall|i: int, j: int|
            0 <= i < f2.len() && 0 <= j < tail2.len() ==> (#[trigger] f2[i]).id < (#[trigger] tail2[j]).id)
            by {
            assert forall|i: int, j: int|
                0 <= i < f2.len() && 0 <= j < tail2.len() implies (#[trigger] f2[i]).id < (
            #[trigger] tail2[j]).id by {
                if j == 0 {
                    assert(tail2[j] == rl);
                } else {
                    assert(tail2[j] == tail[j - 1]);
                    assert(front[i].id < tail[j - 1].id);
                }
            }
        }
        lemma_revert_update_entries(f2, tail2, q, patch, s0);
        if query_matches(q, rl.id, rl.props) {
            let prl = RowV { id: rl.id, props: rl.props.union_prefer_right(patch) };
            assert(patched_rows(front, q, patch) =~= p2.push(prl));
            assert(rows_where(front, q, true) == m2.push(rl));
            let entries = update_entries(m2.push(rl), s0);
            let e = ChangeV {
                serial: s0 + m2.len(),
                kind: ChangeType::Update,
                object_id: rl.id,
                previous: rl.props,
            };
            assert(entries =~= update_entries(m2, s0).push(e)) by {
                assert(forall|i: int|
                    0 <= i < m2.len() ==> m2.push(rl)[i] == m2[i]);
                assert(m2.push(rl)[m2.len() as int] == rl);
            }
            assert(entries.last() == e);
            assert(entries.drop_last() =~= update_entries(m2, s0));
            assert(has_row(p2.push(prl) + tail, rl.id)) by {
                assert((p2.push(prl) + tail)[p2.len() as int].id == rl.id);
            }
            assert(revert_one(p2.push(prl) + tail, e) == Some(
                update_row(p2.push(prl) + tail, rl.id, rl.props),
            ));
            assert(forall|i: int| 0 <= i < p2.len() ==> (#[trigger] p2[i].id) != rl.id);
            assert(forall|j: int| 0 <= j < tail.len() ==> (#[trigger] tail[j].id) != rl.id) by {
                assert(forall|j: int|
                    0 <= j < tail.len() ==> front[front.len() - 1].id < (#[trigger] tail[j]).id);
            }
            assert(p2.push(prl) + tail =~= p2 + seq![prl] + tail);
            lemma_update_row_between(p2, tail, prl, rl.props);
            assert(update_row(p2 + seq![prl] + tail, prl.id, rl.props) == p2 + seq![
                RowV { id: rl.id, props: rl.props },
            ] + tail);
            assert(RowV { id: rl.id, props: rl.props } == rl);
            assert(p2 + seq![rl] + tail =~= p2 + tail2);
            assert(revert_seq(p2.push(prl) + tail, entries) == revert_seq(
                p2 + tail2,
                update_entries(m2, s0),
            ));
            assert(revert_seq(p2 + tail2, update_entries(m2, s0)) == Some(f2 + tail2));
            assert(f2 + tail2 =~= front + tail);
        } else {
            assert(patched_rows(front, q, patch) =~= p2.push(rl));
            assert(rows_where(front, q, true) == m2);
            assert(p2.push(rl) + tail =~= p2 + tail2);
            assert(revert_seq(p2 + tail2, update_entries(m2, s0)) == Some(f2 + tail2));
            assert(f2 + tail2 =~= front + tail);
        }
    }
}

// ---------------------------------------------------------------------------
// The transitions keep stores and checkpoints well formed
// ---------------------------------------------------------------------------

/// A new store is well formed and empty.
pub proof fn lemma_store_init_wf()
    ensures
        store_wf(store_init()),
        store_init().rows.len() == 0,
{
}

/// Opening a checkpoint on a well-formed store gives a well-formed
/// checkpoint that changes nothing yet.
pub proof fn lemma_cp_open_wf(s: StoreV)
    requires
        store_wf(s),
    ensures
        cp_wf(cp_open(s)),
        cp_open(s).orig == s,
        cp_open(s).rows == s.rows,
{
}

/// Adding within a well-formed checkpoint keeps it well formed; the new row
/// carries the returned fresh identity and stands after every other row.
pub proof fn lemma_cp_add_wf(c: CkV, props: Map<Seq<char>, PropV>)
    requires
        cp_wf(c),
    ensures
        cp_wf(cp_add(c, props).0),
        cp_add(c, props).0.orig == c.orig,
        cp_add(c, props).1 == c.next_id,
        cp_add(c, props).0.rows == c.rows.push(RowV { id: c.next_id, props }),
        cp_add(c, props).0.next_id == c.next_id + 1,
{
    let row = RowV { id: c.next_id, props };
    let (c2, id) = cp_add(c, props);
    assert(c.rows + Seq::<RowV>::empty() =~= c.rows);
    lemma_insert_row_between(c.rows, Seq::empty(), row);
    assert(insert_row(c.rows, row) == c.rows + seq![row] + Seq::<RowV>::empty());
    assert(c.rows + seq![row] + Seq::<RowV>::empty() =~= c.rows.push(row));
    assert(c2.rows == c.rows.push(row));
    // ordering of the new rows
    assert(rows_ok(c2.rows, c.next_id + 1)) by {
        assert(forall|i: int| 0 <= i < c.rows.len() ==> c2.rows[i] == c.rows[i]);
        assert(c2.rows[c.rows.len() as int] == row);
    }
    // pending log stays ordered
    let e = ChangeV {
        serial: next_pending_serial(c),
        kind: ChangeType::Add,
        object_id: id,
        previous: Map::empty(),
    };
    assert(log_ok(c2.pending)) by {
        assert(forall|i: int| 0 <= i < c.pending.len() ==> c2.pending[i] == c.pending[i]);
        assert(c2.pending[c.pending.len() as int] == e);
    }
    assert(log_ids_ok(c2.pending, c2.next_id)) by {
        assert(forall|i: int| 0 <= i < c.pending.len() ==> c2.pending[i] == c.pending[i]);
        assert(c2.pending[c.pending.len() as int] == e);
    }
    assert(forall|i: int|
        0 <= i < c2.pending.len() ==> (#[trigger] c2.pending[i].serial) > last_log_serial(
            c.orig.log,
        )) by {
        assert(forall|i: int| 0 <= i < c.pending.len() ==> c2.pending[i] == c.pending[i]);
        assert(c2.pending[c.pending.len() as int] == e);
    }
    // reverting the new entry removes the new row
    assert(c2.pending =~= c.pending + seq![e]);
    lemma_revert_concat(c2.rows, c.pending, seq![e]);
    assert(seq![e].last() == e);
    assert(seq![e].drop_last() =~= Seq::<ChangeV>::empty());
    assert(has_row(c2.rows, id)) by {
        assert(c2.rows[c.rows.len() as int].id == id);
    }
    assert(!has_row(c.rows, id));
    lemma_remove_row_between(c.rows, Seq::empty(), row);
    assert(remove_row(c.rows + seq![row] + Seq::<RowV>::empty(), id) == c.rows + Seq::<
        RowV,
    >::empty());
    assert(c2.rows =~= c.rows + seq![row] + Seq::<RowV>::empty());
    assert(revert_one(c2.rows, e) == Some(c.rows));
    assert(revert_seq(c.rows, seq![e].drop_last()) == Some(c.rows));
    assert(revert_seq(c2.rows, seq![e]) == Some(c.rows));
}

/// Deleting within a well-formed checkpoint keeps it well formed; exactly
/// the matching rows go away, and the count says how many there were.
pub proof fn lemma_cp_delete_wf(c: CkV, q: QnV)
    requires
        cp_wf(c),
    ensures
        cp_wf(cp_delete(c, q).0),
        cp_delete(c, q).0.orig == c.orig,
        cp_delete(c, q).0.next_id == c.next_id,
        cp_delete(c, q).0.rows == non_matching_rows(c.rows, q),
        cp_delete(c, q).1 == matching_rows(c.rows, q).len(),
{
    let (c2, n) = cp_delete(c, q);
    let victims = matching_rows(c.rows, q);
    let s0 = next_pending_serial(c);
    let entries = delete_entries(victims, s0);
    lemma_rows_where_ok(c.rows, q, false, c.next_id);
    lemma_rows_where_sub(c.rows, q, true);
    lemma_rows_where_ok(c.rows, q, true, c.next_id);
    assert(log_ok(c2.pending)) by {
        assert(forall|i: int| 0 <= i < c.pending.len() ==> c2.pending[i] == c.pending[i]);
        assert(forall|i: int|
            0 <= i < entries.len() ==> c2.pending[c.pending.len() + i] == entries[i]);
    }
    assert(log_ids_ok(c2.pending, c2.next_id)) by {
        assert(forall|i: int| 0 <= i < c.pending.len() ==> c2.pending[i] == c.pending[i]);
        assert(forall|i: int|
            0 <= i < entries.len() ==> c2.pending[c.pending.len() + i] == entries[i]);
        assert(forall|i: int| 0 <= i < victims.len() ==> 1 <= (#[trigger] victims[i].id)
            < c.next_id);
    }
    assert(forall|i: int|
        0 <= i < c2.pending.len() ==> (#[trigger] c2.pending[i].serial) > last_log_serial(
            c.orig.log,
        )) by {
        assert(forall|i: int| 0 <= i < c.pending.len() ==> c2.pending[i] == c.pending[i]);
        assert(forall|i: int|
            0 <= i < entries.len() ==> c2.pending[c.pending.len() + i] == entries[i]);
    }
    lemma_revert_concat(c2.rows, c.pending, entries);
    assert(revert_seq(c2.rows, entries) == Some(c.rows)) by {
        lemma_revert_delete_entries(c.rows, Seq::empty(), q, s0);
        assert(rows_where(c.rows, q, false) + Seq::<RowV>::empty() =~= rows_where(
            c.rows,
            q,
            false,
        ));
        assert(c.rows + Seq::<RowV>::empty() =~= c.rows);
    }
}

/// Setting within a well-formed checkpoint keeps it well formed; an empty
/// patch changes nothing, and otherwise exactly the matching rows get the
/// patch merged in.
pub proof fn lemma_cp_set_wf(c: CkV, q: QnV, patch: Map<Seq<char>, PropV>)
    requires
        cp_wf(c),
    ensures
        cp_wf(cp_set(c, q, patch).0),
        cp_set(c, q, patch).0.orig == c.orig,
        cp_set(c, q, patch).0.next_id == c.next_id,
        !(patch.dom() =~= Set::<Seq<char>>::empty()) ==> cp_set(c, q, patch).0.rows
            == patched_rows(c.rows, q, patch) && cp_set(c, q, patch).1 == matching_rows(
            c.rows,
            q,
        ).len(),
        (patch.dom() =~= Set::<Seq<char>>::empty()) ==> cp_set(c, q, patch).0 == c && cp_set(
            c,
            q,
            patch,
        ).1 == 0,
{
    if patch.dom() =~= Set::<Seq<char>>::empty() {
    } else {
        let (c2, n) = cp_set(c, q, patch);
        let victims = matching_rows(c.rows, q);
        let s0 = next_pending_serial(c);
        let entries = update_entries(victims, s0);
        lemma_rows_where_sub(c.rows, q, true);
        lemma_rows_where_ok(c.rows, q, true, c.next_id);
        assert(rows_ok(c2.rows, c.next_id)) by {
            assert(forall|i: int|
                0 <= i < c2.rows.len() ==> (#[trigger] c2.rows[i].id) == c.rows[i].id);
        }
        assert(log_ok(c2.pending)) by {
            assert(forall|i: int| 0 <= i < c.pending.len() ==> c2.pending[i] == c.pending[i]);
            assert(forall|i: int|
                0 <= i < entries.len() ==> c2.pending[c.pending.len() + i] == entries[i]);
        }
        assert(log_ids_ok(c2.pending, c2.next_id)) by {
            assert(forall|i: int| 0 <= i < c.pending.len() ==> c2.pending[i] == c.pending[i]);
            assert(forall|i: int|
                0 <= i < entries.len() ==> c2.pending[c.pending.len() + i] == entries[i]);
            assert(forall|i: int| 0 <= i < victims.len() ==> 1 <= (#[trigger] victims[i].id)
                < c.next_id);
        }
        assert(forall|i: int|
            0 <= i < c2.pending.len() ==> (#[trigger] c2.pending[i].serial) > last_log_serial(
                c.orig.log,
            )) by {
            assert(forall|i: int| 0 <= i < c.pending.len() ==> c2.pending[i] == c.pending[i]);
            assert(forall|i: int|
                0 <= i < entries.len() ==> c2.pending[c.pending.len() + i] == entries[i]);
        }
        lemma_revert_concat(c2.rows, c.pending, entries);
        assert(revert_seq(c2.rows, entries) == Some(c.rows)) by {
            lemma_revert_update_entries(c.rows, Seq::empty(), q, patch, s0);
            assert(patched_rows(c.rows, q, patch) + Seq::<RowV>::empty() =~= patched_rows(
                c.rows,
                q,
                patch,
            ));
            assert(c.rows + Seq::<RowV>::empty() =~= c.rows);
        }
    }
}

/// Committing a well-formed checkpoint gives a well-formed store with the
/// working rows, the pending changes appended to the log, and one more
/// checkpoint whose id is one above the previous newest.
pub proof fn lemma_cp_commit_wf(c: CkV, desc: Seq<char>)
    requires
        cp_wf(c),
    ensures
        store_wf(cp_commit(c, desc)),
        cp_commit(c, desc).rows == c.rows,
        cp_commit(c, desc).next_id == c.next_id,
        last_cp_id(cp_commit(c, desc).cps) == last_cp_id(c.orig.cps) + 1,
        cp_commit(c, desc).cps.last().description == desc,
{
    let st = cp_commit(c, desc);
    let log = c.orig.log + c.pending;
    assert(forall|i: int| 0 <= i < c.orig.log.len() ==> log[i] == c.orig.log[i]);
    assert(forall|i: int|
        0 <= i < c.pending.len() ==> log[c.orig.log.len() + i] == c.pending[i]);
    assert(log_ok(log)) by {
        assert forall|i: int, j: int| 0 <= i < j < log.len() implies log[i].serial
            < log[j].serial by {
            if i < c.orig.log.len() && j >= c.orig.log.len() {
                assert(log[i].serial <= last_log_serial(c.orig.log)) by {
                    if c.orig.log.len() > 0 {
                        assert(log[i] == c.orig.log[i]);
                        if i < c.orig.log.len() - 1 {
                            assert(c.orig.log[i].serial < c.orig.log[c.orig.log.len() - 1].serial);
                        }
                    }
                }
                assert(log[j] == c.pending[j - c.orig.log.len()]);
            }
        }
    }
    assert(log_ids_ok(log, c.next_id));
    let newcp = CpV {
        checkpoint_id: last_cp_id(c.orig.cps) + 1,
        serial: last_log_serial(log),
        description: desc,
    };
    assert(st.cps == c.orig.cps.push(newcp));
    assert(forall|i: int| 0 <= i < c.orig.cps.len() ==> st.cps[i] == c.orig.cps[i]);
    assert(st.cps[c.orig.cps.len() as int] == newcp);
    assert(cps_ok(st.cps)) by {
        assert forall|i: int| 0 <= i < st.cps.len() implies (#[trigger] st.cps[i].checkpoint_id)
            >= 1 by {}
        assert forall|i: int, j: int| 0 <= i < j < st.cps.len() implies st.cps[i].checkpoint_id
            < st.cps[j].checkpoint_id by {
            if j == st.cps.len() - 1 && c.orig.cps.len() > 0 {
                assert(st.cps[i] == c.orig.cps[i]);
                if i < c.orig.cps.len() - 1 {
                    assert(c.orig.cps[i].checkpoint_id < c.orig.cps[c.orig.cps.len()
                        - 1].checkpoint_id);
                }
            }
        }
        assert forall|i: int, j: int| 0 <= i < j < st.cps.len() implies st.cps[i].serial
            <= st.cps[j].serial by {
            if j == st.cps.len() - 1 && c.orig.cps.len() > 0 {
                assert(st.cps[i] == c.orig.cps[i]);
                assert(c.orig.cps[i].serial <= last_cp_serial(c.orig.cps)) by {
                    if i < c.orig.cps.len() - 1 {
                        assert(c.orig.cps[i].serial <= c.orig.cps[c.orig.cps.len() - 1].serial);
                    }
                }
                assert(last_cp_serial(c.orig.cps) == last_log_serial(c.orig.log));
                assert(last_log_serial(c.orig.log) <= newcp.serial) by {
                    if c.pending.len() > 0 {
                        assert(log.last() == c.pending.last());
                    } else {
                        assert(log =~= c.orig.log);
                    }
                }
            }
        }
        assert forall|i: int| 0 <= i < st.cps.len() implies (#[trigger] st.cps[i].serial)
            >= 0 by {
            if i == st.cps.len() - 1 {
                if log.len() > 0 {
                    assert(log[log.len() - 1].serial >= 1);
                }
            }
        }
    }
    // every checkpoint serial keeps a witness in the longer log
    assert forall|k: int| 0 <= k < st.cps.len() implies serial_in_log(
        st.log,
        (#[trigger] st.cps[k]).serial,
    ) by {
        if k < c.orig.cps.len() {
            assert(serial_in_log(c.orig.log, c.orig.cps[k].serial));
            if c.orig.cps[k].serial != 0 {
                let i = choose|i: int|
                    0 <= i < c.orig.log.len() && c.orig.log[i].serial == c.orig.cps[k].serial;
                assert(log[i].serial == c.orig.cps[k].serial);
            }
        } else {
            if log.len() > 0 {
                assert(log[log.len() - 1].serial == newcp.serial);
            }
        }
    }
    // the new checkpoint's serial is the newest change's
    assert(last_log_serial(st.log) == last_cp_serial(st.cps));
    // reverting everything still empties the store
    lemma_revert_concat(c.rows, c.orig.log, c.pending);
    assert(revert_seq(st.rows, st.log) == Some(Seq::<RowV>::empty()));
}

/// Where `first_gt` points: changes before it are no newer than `x`, changes
/// at or after it are newer.
pub proof fn lemma_first_gt(log: Seq<ChangeV>, x: int)
    requires
        log_ok(log),
    ensures
        0 <= first_gt(log, x) <= log.len(),
        forall|i: int| 0 <= i < first_gt(log, x) ==> (#[trigger] log[i].serial) <= x,
        forall|i: int| first_gt(log, x) <= i < log.len() ==> (#[trigger] log[i].serial) > x,
    decreases log.len(),
{
    if log.len() == 0 {
    } else if log[0].serial > x {
        assert forall|i: int| 0 <= i < log.len() implies (#[trigger] log[i].serial) > x by {
            if i > 0 {
                assert(log[0].serial < log[i].serial);
            }
        }
    } else {
        assert(log_ok(log.skip(1))) by {
            assert(forall|i: int| 0 <= i < log.skip(1).len() ==> log.skip(1)[i] == log[i + 1]);
        }
        lemma_first_gt(log.skip(1), x);
        let k = first_gt(log, x);
        assert(k == 1 + first_gt(log.skip(1), x));
        assert forall|i: int| 0 <= i < k implies (#[trigger] log[i].serial) <= x by {
            if i > 0 {
                assert(log.skip(1)[i - 1] == log[i]);
            }
        }
        assert forall|i: int| k <= i < log.len() implies (#[trigger] log[i].serial) > x by {
            assert(log.skip(1)[i - 1] == log[i]);
        }
    }
}

/// Undoing keeps a store well formed.
pub proof fn lemma_store_undo_wf(s: StoreV)
    requires
        store_wf(s),
    ensures
        store_wf(store_undo(s).0),
        store_undo(s).0.next_id == s.next_id,
        s.cps.len() == 0 ==> store_undo(s) == (s, None::<Seq<char>>),
        s.cps.len() > 0 ==> store_undo(s).1 == Some(s.cps.last().description),
        s.cps.len() > 0 ==> last_cp_id(store_undo(s).0.cps) != last_cp_id(s.cps),
{
    if s.cps.len() == 0 {
    } else {
        let prev = undo_prev_serial(s.cps);
        lemma_first_gt(s.log, prev);
        let k = first_gt(s.log, prev);
        let group = s.log.subrange(k, s.log.len() as int);
        let kept = s.log.subrange(0, k);
        assert(s.log =~= kept + group);
        assert(forall|i: int| 0 <= i < kept.len() ==> kept[i] == s.log[i]);
        assert(forall|i: int| 0 <= i < group.len() ==> group[i] == s.log[k + i]);
        lemma_revert_concat(s.rows, kept, group);
        assert(revert_seq(s.rows, kept + group) == Some(Seq::<RowV>::empty()));
        assert(revert_seq(s.rows, group) is Some);
        let rows2 = revert_seq(s.rows, group)->Some_0;
        assert(store_undo(s).0.rows == rows2);
        assert(revert_seq(rows2, kept) == Some(Seq::<RowV>::empty()));
        assert(log_ids_ok(group, s.next_id));
        lemma_revert_seq_counts(s.rows, group, s.next_id);
        assert(rows_ok(rows2, s.next_id));
        let st = store_undo(s).0;
        assert(st.cps == s.cps.drop_last());
        assert(forall|i: int| 0 <= i < st.cps.len() ==> st.cps[i] == s.cps[i]);
        assert(log_ok(kept));
        assert(log_ids_ok(kept, s.next_id));
        assert(cps_ok(st.cps));
        // the previous checkpoint's serial keeps its witness, and nothing
        // newer survives
        assert forall|m: int| 0 <= m < st.cps.len() implies serial_in_log(
            st.log,
            (#[trigger] st.cps[m]).serial,
        ) by {
            assert(st.cps[m] == s.cps[m]);
            assert(serial_in_log(s.log, s.cps[m].serial));
            if s.cps[m].serial != 0 {
                let i = choose|i: int|
                    0 <= i < s.log.len() && s.log[i].serial == s.cps[m].serial;
                assert(s.cps[m].serial <= prev) by {
                    assert(s.cps[m].serial <= s.cps[s.cps.len() - 2].serial);
                }
                assert(i < k) by {
                    if i >= k {
                        assert(s.log[i].serial > prev);
                    }
                }
                assert(kept[i].serial == s.cps[m].serial);
            }
        }
        // W4: no checkpoints left means no changes left
        if st.cps.len() == 0 {
            assert(prev == 0);
            assert(kept.len() == 0) by {
                if kept.len() > 0 {
                    assert(s.log[0].serial <= 0);
                    assert(s.log[0].serial >= 1);
                }
            }
        }
        // W6: the newest kept change's serial is the newest kept checkpoint's
        assert(last_log_serial(st.log) == last_cp_serial(st.cps)) by {
            if st.cps.len() == 0 {
            } else {
                assert(last_cp_serial(st.cps) == prev) by {
                    assert(st.cps.last() == s.cps[s.cps.len() - 2]);
                }
                if prev == 0 {
                    assert(kept.len() == 0) by {
                        if kept.len() > 0 {
                            assert(s.log[0].serial <= 0);
                            assert(s.log[0].serial >= 1);
                        }
                    }
                } else {
                    assert(serial_in_log(s.log, prev)) by {
                        assert(s.cps[s.cps.len() - 2].serial == prev);
                    }
                    let i = choose|i: int| 0 <= i < s.log.len() && s.log[i].serial == prev;
                    assert(i < k) by {
                        if i >= k {
                            assert(s.log[i].serial > prev);
                        }
                    }
                    assert(kept[i].serial == prev);
                    assert(kept.len() > 0);
                    assert(kept.last().serial == prev) by {
                        assert(kept[kept.len() - 1].serial <= prev);
                        if i < kept.len() - 1 {
                            assert(kept[i].serial < kept[kept.len() - 1].serial);
                        }
                    }
                }
            }
        }
        // the undone checkpoint id is gone: ids only grow along the stack
        if st.cps.len() > 0 {
            assert(st.cps.last() == s.cps[s.cps.len() - 2]);
            assert(s.cps[s.cps.len() - 2].checkpoint_id < s.cps[s.cps.len() - 1].checkpoint_id);
        } else {
            assert(last_cp_id(st.cps) == 0);
            assert(s.cps.last().checkpoint_id >= 1);
        }
    }
}

// ---------------------------------------------------------------------------
// Laws
// ---------------------------------------------------------------------------

/// Undo reverts a committed checkpoint exactly: immediately after committing
/// a checkpoint with description `desc`, undoing returns `desc` and brings
/// the rows, the log and the checkpoint stack back to where they stood when
/// the checkpoint was opened. Only the identity counter keeps its ground:
/// identities are never reused.
#[verifier::rlimit(50)]
pub proof fn lemma_undo_reverts_commit(c: CkV, desc: Seq<char>)
    requires
        cp_wf(c),
    ensures
        store_undo(cp_commit(c, desc)).0.rows == c.orig.rows,
        store_undo(cp_commit(c, desc)).0.log == c.orig.log,
        store_undo(cp_commit(c, desc)).0.cps == c.orig.cps,
        store_undo(cp_commit(c, desc)).0.next_id == c.next_id,
        store_undo(cp_commit(c, desc)).1 == Some(desc),
{
    let st = cp_commit(c, desc);
    lemma_cp_commit_wf(c, desc);
    assert(st.cps.len() > 0);
    let prev = undo_prev_serial(st.cps);
    assert(prev == last_cp_serial(c.orig.cps)) by {
        if c.orig.cps.len() > 0 {
            assert(st.cps[st.cps.len() - 2] == c.orig.cps[c.orig.cps.len() - 1]);
        }
    }
    assert(prev == last_log_serial(c.orig.log));
    lemma_first_gt(st.log, prev);
    let k = first_gt(st.log, prev);
    assert(forall|i: int| 0 <= i < c.orig.log.len() ==> st.log[i] == c.orig.log[i]);
    assert(forall|i: int|
        0 <= i < c.pending.len() ==> st.log[c.orig.log.len() + i] == c.pending[i]);
    assert(k == c.orig.log.len()) by {
        if k < c.orig.log.len() {
            assert(st.log[k].serial > prev);
            assert(c.orig.log[k].serial <= last_log_serial(c.orig.log)) by {
                if k < c.orig.log.len() - 1 {
                    assert(c.orig.log[k].serial < c.orig.log[c.orig.log.len() - 1].serial);
                }
            }
        }
        if k > c.orig.log.len() {
            assert(st.log[k - 1].serial <= prev);
            assert(st.log[k - 1] == c.pending[k - 1 - c.orig.log.len()]);
            assert(c.pending[k - 1 - c.orig.log.len()].serial > last_log_serial(c.orig.log));
        }
    }
    assert(st.log.subrange(k, st.log.len() as int) =~= c.pending);
    assert(st.log.subrange(0, k) =~= c.orig.log);
    assert(revert_seq(st.rows, c.pending) == Some(c.orig.rows));
    assert(st.cps.drop_last() =~= c.orig.cps);
}

/// The number of live objects always equals the number of `Add` entries
/// minus the number of `Delete` entries across the committed, not-undone
/// history.
pub proof fn lemma_live_count(s: StoreV)
    requires
        store_wf(s),
    ensures
        s.rows.len() == count_kind(s.log, ChangeType::Add) - count_kind(
            s.log,
            ChangeType::Delete,
        ),
{
    lemma_revert_seq_counts(s.rows, s.log, s.next_id);
}

/// Undo on an empty checkpoint stack returns nothing and leaves the store
/// untouched.
pub proof fn lemma_undo_empty(s: StoreV)
    requires
        s.cps.len() == 0,
    ensures
        store_undo(s) == (s, None::<Seq<char>>),
{
}

/// No selected row means the selection is empty.
pub proof fn lemma_rows_where_none(rows: Seq<RowV>, q: QnV, want: bool)
    requires
        forall|i: int|
            0 <= i < rows.len() ==> query_matches(q, (#[trigger] rows[i]).id, rows[i].props)
                != want,
    ensures
        rows_where(rows, q, want) =~= Seq::<RowV>::empty(),
    decreases rows.len(),
{
    if rows.len() == 0 {
    } else {
        assert(forall|i: int| 0 <= i < rows.drop_last().len() ==> rows.drop_last()[i] == rows[i]);
        lemma_rows_where_none(rows.drop_last(), q, want);
        assert(query_matches(q, rows[rows.len() - 1].id, rows[rows.len() - 1].props) != want);
    }
}

/// After adding an object, the query for its returned identity matches that
/// object and nothing else.
pub proof fn lemma_added_row_found(c: CkV, props: Map<Seq<char>, PropV>)
    requires
        cp_wf(c),
    ensures
        matching_rows(
            cp_add(c, props).0.rows,
            QnV::PropEqual(crate::query::id_key(), PropV::Num(cp_add(c, props).1)),
        ) =~= seq![RowV { id: cp_add(c, props).1, props }],
{
    lemma_cp_add_wf(c, props);
    let (c2, k) = cp_add(c, props);
    let q = QnV::PropEqual(crate::query::id_key(), PropV::Num(k));
    let row = RowV { id: k, props };
    assert(c2.rows == c.rows.push(row));
    assert(c2.rows.drop_last() =~= c.rows);
    assert(c2.rows.last() == row);
    assert(forall|i: int| 0 <= i < c.rows.len() ==> (#[trigger] c.rows[i].id) < k);
    assert forall|i: int|
        0 <= i < c.rows.len() implies query_matches(
        q,
        (#[trigger] c.rows[i]).id,
        c.rows[i].props,
    ) != true by {
        assert(c.rows[i].id != k);
    }
    lemma_rows_where_none(c.rows, q, true);
    assert(query_matches(q, row.id, row.props));
    assert(rows_where(c2.rows, q, true) == rows_where(c.rows, q, true).push(row));
}

/// Committing always moves the newest checkpoint id, so any mapping cached
/// before the commit stops being valid.
pub proof fn lemma_commit_invalidates(c: CkV, desc: Seq<char>)
    requires
        cp_wf(c),
    ensures
        last_cp_id(cp_commit(c, desc).cps) != last_cp_id(c.orig.cps),
{
    lemma_cp_commit_wf(c, desc);
}

/// The empty query selects every row, so a store's full collection counts
/// exactly the objects that were added and not deleted in the surviving
/// history.
pub proof fn lemma_all_objects_counted(s: StoreV)
    requires
        store_wf(s),
    ensures
        matching_rows(s.rows, QnV::Empty) == s.rows,
        matching_rows(s.rows, QnV::Empty).len() == count_kind(s.log, ChangeType::Add) - count_kind(
            s.log,
            ChangeType::Delete,
        ),
{
    lemma_rows_where_all(s.rows, QnV::Empty);
    lemma_live_count(s);
}

/// Every row matches the empty query.
proof fn lemma_rows_where_all(rows: Seq<RowV>, q: QnV)
    requires
        forall|i: int|
            0 <= i < rows.len() ==> query_matches(q, (#[trigger] rows[i]).id, rows[i].props),
    ensures
        rows_where(rows, q, true) == rows,
    decreases rows.len(),
{
    if rows.len() == 0 {
        assert(rows_where(rows, q, true) =~= rows);
    } else {
        assert(forall|i: int| 0 <= i < rows.drop_last().len() ==> rows.drop_last()[i] == rows[i]);
        lemma_rows_where_all(rows.drop_last(), q);
        assert(query_matches(q, rows[rows.len() - 1].id, rows[rows.len() - 1].props));
        assert(rows_where(rows, q, true) =~= rows);
    }
}

} // verus!
