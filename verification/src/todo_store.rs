//! The Todo Store: the collection of task records sorted by due date, the
//! monotonic identifier counter, and the operations that create, complete and
//! list records. Every successful mutation leaves the store well formed, and
//! `persist_data` writes the document that `new_from_persistence` reads back.

use vstd::prelude::*;

use crate::codec::{decode, enc_doc, encode, lemma_roundtrip, lemma_sp_doc_wf, models, sp_doc};
use crate::dates::{lemma_date_order, Date};
use crate::text::trim;
use crate::todo_error::{corrupt_store_error, corrupt_store_msg, invalid_format_msg,
    not_found_error, not_found_msg, TodoError};
use crate::todo_item::{item_wf, lemma_req_item_wf, req_date, req_ok, req_title, ItemModel,
    TodoItem};

verus! {

/// The mathematical state of a store: its records in listing order and the
/// next identifier to issue.
pub ghost struct StoreModel {
    pub items: Seq<ItemModel>,
    pub next_id: nat,
}

/// Every record is well formed.
pub open spec fn all_wf(ms: Seq<ItemModel>) -> bool {
    forall|i: int| 0 <= i < ms.len() ==> item_wf(#[trigger] ms[i])
}

/// No two records share an identifier.
pub open spec fn unique_ids(ms: Seq<ItemModel>) -> bool {
    forall|i: int, j: int|
        #![trigger ms[i], ms[j]]
        0 <= i < j < ms.len() ==> ms[i].id != ms[j].id
}

/// Every identifier is below the counter.
pub open spec fn ids_below(ms: Seq<ItemModel>, n: nat) -> bool {
    forall|i: int| 0 <= i < ms.len() ==> (#[trigger] ms[i]).id < n
}

/// The records are in ascending due-date order.
pub open spec fn sorted_by_due(ms: Seq<ItemModel>) -> bool {
    forall|i: int, j: int|
        #![trigger ms[i], ms[j]]
        0 <= i < j < ms.len() ==> ms[i].due_date.spec_le(ms[j].due_date)
}

/// The store invariant: well-formed records, unique identifiers, a counter
/// above every identifier ever issued, and ascending due-date order.
pub open spec fn store_wf(m: StoreModel) -> bool {
    &&& all_wf(m.items)
    &&& unique_ids(m.items)
    &&& ids_below(m.items, m.next_id)
    &&& sorted_by_due(m.items)
    &&& m.next_id <= usize::MAX as nat
}

/// Records that are not yet complete, in listing order.
pub open spec fn incomplete_of(ms: Seq<ItemModel>) -> Seq<ItemModel>
    decreases ms.len(),
{
    if ms.len() == 0 {
        Seq::empty()
    } else {
        let rest = incomplete_of(ms.drop_last());
        if ms.last().complete {
            rest
        } else {
            rest.push(ms.last())
        }
    }
}

/// Records already complete, in listing order.
pub open spec fn completed_of(ms: Seq<ItemModel>) -> Seq<ItemModel>
    decreases ms.len(),
{
    if ms.len() == 0 {
        Seq::empty()
    } else {
        let rest = completed_of(ms.drop_last());
        if ms.last().complete {
            rest.push(ms.last())
        } else {
            rest
        }
    }
}

/// Where a record due `d` is inserted: after every record due no later than
/// `d`, so records with equal due dates keep their insertion order.
pub open spec fn insert_pos(ms: Seq<ItemModel>, d: Date) -> int
    decreases ms.len(),
{
    if ms.len() > 0 && ms[0].due_date.spec_le(d) {
        1 + insert_pos(ms.drop_first(), d)
    } else {
        0
    }
}

/// The record a successful creation from request `t` adds to `pre`.
pub open spec fn created_model(pre: StoreModel, t: Seq<char>) -> ItemModel {
    ItemModel { id: pre.next_id, title: req_title(t), due_date: req_date(t), complete: false }
}

/// A successful creation: the request is valid, the counter advances by one,
/// and the new record is inserted at its due-date position.
pub open spec fn create_step(pre: StoreModel, t: Seq<char>, post: StoreModel) -> bool {
    &&& req_ok(t)
    &&& post.next_id == pre.next_id + 1
    &&& post.items == pre.items.insert(insert_pos(pre.items, req_date(t)), created_model(pre, t))
}

/// The store owning the sorted record collection and the identifier counter.
pub struct TodoStore {
    store: Vec<TodoItem>,
    next_id: usize,
}

impl View for TodoStore {
    type V = StoreModel;

    closed spec fn view(&self) -> StoreModel {
        StoreModel { items: models(self.store@), next_id: self.next_id as nat }
    }
}

/// A chain of adjacent due-date steps reaches every later record.
proof fn lemma_due_chain(ms: Seq<ItemModel>, i: int, j: int)
    requires
        0 <= i <= j < ms.len(),
        forall|k: int| 0 <= k < ms.len() - 1 ==> (#[trigger] ms[k]).due_date.spec_le(
            ms[k + 1].due_date,
        ),
    ensures
        ms[i].due_date.spec_le(ms[j].due_date),
    decreases j - i,
{
    if i < j {
        lemma_due_chain(ms, i, j - 1);
        assert(ms[j - 1].due_date.spec_le(ms[j].due_date));
        lemma_date_order(ms[i].due_date, ms[j - 1].due_date, ms[j].due_date);
    } else {
        lemma_date_order(ms[i].due_date, ms[i].due_date, ms[i].due_date);
    }
}

/// The insertion position is inside the sequence.
proof fn lemma_insert_pos_bounds(ms: Seq<ItemModel>, d: Date)
    ensures
        0 <= insert_pos(ms, d) <= ms.len(),
    decreases ms.len(),
{
    if ms.len() > 0 && ms[0].due_date.spec_le(d) {
        lemma_insert_pos_bounds(ms.drop_first(), d);
    }
}

/// The insertion position is the first index whose record is due strictly
/// later.
proof fn lemma_insert_pos_exact(ms: Seq<ItemModel>, d: Date, k: int)
    requires
        0 <= k <= ms.len(),
        forall|i: int| 0 <= i < k ==> (#[trigger] ms[i]).due_date.spec_le(d),
        k == ms.len() || !ms[k].due_date.spec_le(d),
    ensures
        insert_pos(ms, d) == k,
    decreases ms.len(),
{
    if k == 0 {
    } else {
        assert(ms[0].due_date.spec_le(d));
        assert forall|i: int| 0 <= i < k - 1 implies (#[trigger] ms.drop_first()[i]).due_date.spec_le(
            d,
        ) by {
            assert(ms.drop_first()[i] == ms[i + 1]);
        }
        if k - 1 < ms.drop_first().len() {
            assert(ms.drop_first()[k - 1] == ms[k]);
        }
        lemma_insert_pos_exact(ms.drop_first(), d, k - 1);
    }
}

/// Records before the insertion position are due no later than `d`; the one
/// at it, if any, strictly later.
proof fn lemma_insert_pos_split(ms: Seq<ItemModel>, d: Date)
    ensures
        forall|i: int| 0 <= i < insert_pos(ms, d) ==> (#[trigger] ms[i]).due_date.spec_le(d),
        insert_pos(ms, d) < ms.len() ==> !ms[insert_pos(ms, d)].due_date.spec_le(d),
    decreases ms.len(),
{
    lemma_insert_pos_bounds(ms, d);
    if ms.len() > 0 && ms[0].due_date.spec_le(d) {
        lemma_insert_pos_split(ms.drop_first(), d);
        lemma_insert_pos_bounds(ms.drop_first(), d);
        let k = insert_pos(ms, d);
        assert(k == 1 + insert_pos(ms.drop_first(), d));
        assert forall|i: int| 0 <= i < k implies (#[trigger] ms[i]).due_date.spec_le(d) by {
            if i > 0 {
                assert(ms.drop_first()[i - 1] == ms[i]);
            }
        }
        if k < ms.len() {
            assert(ms.drop_first()[k - 1] == ms[k]);
        }
    }
}

/// A successful creation keeps the store invariant.
#[verifier::rlimit(30)]
pub proof fn lemma_create_preserves_wf(pre: StoreModel, t: Seq<char>, post: StoreModel)
    requires
        store_wf(pre),
        pre.next_id < usize::MAX as nat,
        create_step(pre, t, post),
    ensures
        store_wf(post),
{
    let ms = pre.items;
    let d = req_date(t);
    let m = created_model(pre, t);
    let k = insert_pos(ms, d);
    lemma_insert_pos_bounds(ms, d);
    lemma_insert_pos_split(ms, d);
    lemma_req_item_wf(t);
    ms.insert_ensures(k, m);
    let ps = post.items;
    assert forall|a: int, b: int|
        #![trigger ps[a], ps[b]]
        0 <= a < b < ps.len() implies ps[a].id != ps[b].id && ps[a].due_date.spec_le(
        ps[b].due_date,
    ) by {
        if a == k {
            let b2 = b - 1;
            assert(ps[b] == ms[b2]);
            assert(!ms[k].due_date.spec_le(d) ==> d.spec_le(ms[k].due_date)) by {
                lemma_date_order(ms[k].due_date, d, d);
            }
            assert(ms[k].due_date.spec_le(ms[b2].due_date) || k == b2) by {
                if k < b2 {
                    assert(ms[k].due_date.spec_le(ms[b2].due_date));
                }
            }
            lemma_date_order(d, ms[k].due_date, ms[b2].due_date);
        } else if b == k {
            assert(ps[a] == ms[a]);
            assert(ms[a].due_date.spec_le(d));
        } else {
            let a2 = if a < k {
                a
            } else {
                a - 1
            };
            let b2 = if b < k {
                b
            } else {
                b - 1
            };
            assert(ps[a] == ms[a2]);
            assert(ps[b] == ms[b2]);
            assert(ms[a2].due_date.spec_le(ms[b2].due_date)) by {
                if a2 == b2 {
                    lemma_date_order(ms[a2].due_date, ms[a2].due_date, ms[a2].due_date);
                }
            }
        }
    }
    assert forall|i: int| 0 <= i < ps.len() implies item_wf(#[trigger] ps[i]) && ps[i].id
        < post.next_id by {
        if i != k {
            let i2 = if i < k {
                i
            } else {
                i - 1
            };
            assert(ps[i] == ms[i2]);
        }
    }
}

/// Identifiers issued by successive successful creations are strictly
/// increasing and never repeat an identifier already in the store —
/// regardless of how many rejected requests come between them, since a
/// rejected request leaves the store, counter included, unchanged
/// (`create_new_todo`'s contract).
pub proof fn lemma_created_ids_strictly_increase(
    s0: StoreModel,
    t1: Seq<char>,
    s1: StoreModel,
    t2: Seq<char>,
    s2: StoreModel,
)
    requires
        store_wf(s0),
        s0.next_id < usize::MAX as nat,
        create_step(s0, t1, s1),
        create_step(s1, t2, s2),
    ensures
        created_model(s0, t1).id < created_model(s1, t2).id,
        forall|k: int|
            0 <= k < s0.items.len() ==> (#[trigger] s0.items[k]).id != created_model(s0, t1).id,
        forall|k: int|
            0 <= k < s1.items.len() ==> (#[trigger] s1.items[k]).id != created_model(s1, t2).id,
{
    lemma_create_preserves_wf(s0, t1, s1);
}

/// The round-trip law: the document persisted for a well-formed store is
/// nonempty, decodes back to exactly the store's records and counter, and
/// what it decodes to satisfies the store invariant — so loading what was
/// persisted always succeeds and reproduces the store.
pub proof fn lemma_persist_roundtrip(m: StoreModel)
    requires
        store_wf(m),
    ensures
        enc_doc(m.items, m.next_id).len() > 0,
        sp_doc(enc_doc(m.items, m.next_id)) == Some((m.items, m.next_id)),
{
    assert forall|k: int| 0 <= k < m.items.len() implies item_wf(#[trigger] m.items[k])
        && m.items[k].id <= usize::MAX as nat by {
        assert(m.items[k].id < m.next_id);
    }
    lemma_roundtrip(m.items, m.next_id);
}

impl TodoStore {
    pub open spec fn wf(&self) -> bool {
        store_wf(self@)
    }

    /// Parses `new_todo`, and on success adds the record under the next
    /// identifier, keeps the collection sorted by due date (ties keep
    /// insertion order), and advances the counter. A rejected request
    /// leaves the store unchanged, its counter included.
    pub fn create_new_todo(&mut self, new_todo: String) -> (r: Result<(), TodoError>)
        requires
            store_wf(old(self)@),
            old(self)@.next_id < usize::MAX as nat,
        ensures
            store_wf(final(self)@),
            req_ok(trim(new_todo@)) ==> r is Ok && create_step(
                old(self)@,
                trim(new_todo@),
                final(self)@,
            ),
            sorted_by_due(final(self)@.items),
            !req_ok(trim(new_todo@)) ==> r is Err && r->Err_0.message@ == invalid_format_msg()
                && final(self)@ == old(self)@,
    {
        let ghost pre = self@;
        let ghost t = trim(new_todo@);
        let item = match TodoItem::new(new_todo, self.next_id) {
            Ok(it) => it,
            Err(e) => {
                return Err(e);
            },
        };
        proof {
            assert(item@ == created_model(pre, t));
        }
        let mut k: usize = 0;
        while k < self.store.len() && self.store[k].due_date.le(&item.due_date)
            invariant
                0 <= k <= self.store@.len(),
                self@ == pre,
                item@ == created_model(pre, t),
                forall|i: int| 0 <= i < k ==> (#[trigger] pre.items[i]).due_date.spec_le(
                    item.due_date,
                ),
            decreases self.store@.len() - k,
        {
            proof {
                assert(pre.items[k as int] == self.store@[k as int]@);
            }
            k = k + 1;
        }
        proof {
            if (k as int) < pre.items.len() {
                assert(pre.items[k as int] == self.store@[k as int]@);
            }
            lemma_insert_pos_exact(pre.items, item.due_date, k as int);
        }
        self.store.insert(k, item);
        self.next_id = self.next_id + 1;
        proof {
            assert(models(self.store@) =~= pre.items.insert(k as int, item@)) by {
                lemma_insert_pos_bounds(pre.items, item.due_date);
                pre.items.insert_ensures(k as int, item@);
                assert forall|i: int| 0 <= i < models(self.store@).len() implies models(
                    self.store@,
                )[i] == pre.items.insert(k as int, item@)[i] by {
                    assert(models(self.store@)[i] == self.store@[i]@);
                }
            }
            assert(create_step(pre, t, self@));
            lemma_create_preserves_wf(pre, t, self@);
        }
        Ok(())
    }

    /// Every identifier in `items` is below `bound`.
    fn check_ids_below(items: &Vec<TodoItem>, bound: usize) -> (r: bool)
        ensures
            r == ids_below(models(items@), bound as nat),
    {
        let mut i: usize = 0;
        while i < items.len()
            invariant
                0 <= i <= items@.len(),
                forall|k: int| 0 <= k < i ==> (#[trigger] models(items@)[k]).id < bound as nat,
            decreases items@.len() - i,
        {
            if items[i].id >= bound {
                proof {
                    assert(models(items@)[i as int].id >= bound as nat);
                }
                return false;
            }
            i = i + 1;
        }
        true
    }

    /// No two records of `items` share an identifier.
    fn check_unique_ids(items: &Vec<TodoItem>) -> (r: bool)
        ensures
            r == unique_ids(models(items@)),
    {
        let ghost ms = models(items@);
        let n = items.len();
        let mut i: usize = 0;
        while i < n
            invariant
                0 <= i <= n,
                n == items@.len(),
                ms == models(items@),
                forall|a: int, b: int|
                    #![trigger ms[a], ms[b]]
                    0 <= a < b < ms.len() && a < i ==> ms[a].id != ms[b].id,
            decreases n - i,
        {
            let mut j: usize = i + 1;
            while j < n
                invariant
                    0 <= i < j <= n,
                    n == items@.len(),
                    ms == models(items@),
                    forall|b: int| i < b < j ==> ms[i as int].id != (#[trigger] ms[b]).id,
                decreases n - j,
            {
                if items[i].id == items[j].id {
                    proof {
                        assert(ms[i as int].id == ms[j as int].id);
                    }
                    return false;
                }
                j = j + 1;
            }
            i = i + 1;
        }
        true
    }

    /// The records of `items` are in ascending due-date order.
    fn check_sorted(items: &Vec<TodoItem>) -> (r: bool)
        ensures
            r == sorted_by_due(models(items@)),
    {
        let ghost ms = models(items@);
        let n = items.len();
        if n == 0 {
            return true;
        }
        let mut i: usize = 0;
        while i < n - 1
            invariant
                0 <= i <= n - 1,
                n == items@.len(),
                n >= 1,
                ms == models(items@),
                forall|k: int| 0 <= k < i ==> (#[trigger] ms[k]).due_date.spec_le(
                    ms[k + 1].due_date,
                ),
            decreases n - i,
        {
            if !items[i].due_date.le(&items[i + 1].due_date) {
                proof {
                    assert(!ms[i as int].due_date.spec_le(ms[i as int + 1].due_date));
                }
                return false;
            }
            i = i + 1;
        }
        proof {
            assert forall|a: int, b: int|
                #![trigger ms[a], ms[b]]
                0 <= a < b < ms.len() implies ms[a].due_date.spec_le(ms[b].due_date) by {
                lemma_due_chain(ms, a, b);
            }
        }
        true
    }

    /// Loads a store from the persisted document: nothing at all is a fresh
    /// empty store, a well-formed document is read back exactly, and anything
    /// else — unreadable text, or a document violating the store invariant —
    /// is reported as a corrupt store.
    pub fn new_from_persistence(contents: &str) -> (r: Result<TodoStore, TodoError>)
        ensures
            r is Ok ==> store_wf(r->Ok_0@),
            contents@.len() == 0 ==> r is Ok && r->Ok_0@.items.len() == 0 && r->Ok_0@.next_id
                == 0,
            contents@.len() > 0 && sp_doc(contents@) is None ==> r is Err,
            contents@.len() > 0 && sp_doc(contents@) is Some ==> {
                let (ms, n) = sp_doc(contents@)->Some_0;
                &&& store_wf(StoreModel { items: ms, next_id: n }) <==> r is Ok
                &&& r is Ok ==> r->Ok_0@ == (StoreModel { items: ms, next_id: n })
            },
            r is Err ==> r->Err_0.message@ == corrupt_store_msg(),
    {
        let (items, next_id) = match decode(contents) {
            Ok(x) => x,
            Err(e) => {
                return Err(e);
            },
        };
        proof {
            if contents@.len() > 0 {
                lemma_sp_doc_wf(contents@);
            }
        }
        if !Self::check_ids_below(&items, next_id) {
            return Err(corrupt_store_error());
        }
        if !Self::check_unique_ids(&items) {
            return Err(corrupt_store_error());
        }
        if !Self::check_sorted(&items) {
            return Err(corrupt_store_error());
        }
        Ok(TodoStore { store: items, next_id })
    }

    /// Completes the record with identifier `completed_todo_id`, looked up
    /// among the records that are not yet complete. When no incomplete
    /// record carries that identifier — also when the record exists but is
    /// already complete — the store is unchanged and `NotFound` is reported.
    pub fn mark_as_done(&mut self, completed_todo_id: usize) -> (r: Result<(), TodoError>)
        requires
            store_wf(old(self)@),
        ensures
            store_wf(final(self)@),
            final(self)@.next_id == old(self)@.next_id,
            (exists|i: int|
                0 <= i < old(self)@.items.len() && !(#[trigger] old(self)@.items[i]).complete && old(
                    self,
                )@.items[i].id == completed_todo_id as nat) ==> r is Ok && (exists|i: int|
                0 <= i < old(self)@.items.len() && !(#[trigger] old(self)@.items[i]).complete && old(
                    self,
                )@.items[i].id == completed_todo_id as nat && final(self)@.items == old(
                    self,
                )@.items.update(
                    i,
                    (ItemModel { complete: true, ..old(self)@.items[i] }),
                )),
            !(exists|i: int|
                0 <= i < old(self)@.items.len() && !(#[trigger] old(self)@.items[i]).complete && old(
                    self,
                )@.items[i].id == completed_todo_id as nat) ==> r is Err && r->Err_0.message@
                == not_found_msg() && final(self)@ == old(self)@,
    {
        let ghost pre = self@;
        let n = self.store.len();
        let mut i: usize = 0;
        while i < n
            invariant
                0 <= i <= n,
                n == self.store@.len(),
                self@ == pre,
                pre == old(self)@,
                store_wf(pre),
                forall|k: int|
                    0 <= k < i ==> ((#[trigger] pre.items[k]).complete || pre.items[k].id
                        != completed_todo_id as nat),
            decreases n - i,
        {
            proof {
                assert(pre.items[i as int] == self.store@[i as int]@);
            }
            if !self.store[i].complete && self.store[i].id == completed_todo_id {
                let ghost m2 = ItemModel { complete: true, ..pre.items[i as int] };
                let mut it = self.store.remove(i);
                it.mark_as_done();
                self.store.insert(i, it);
                proof {
                    assert(models(self.store@) =~= pre.items.update(i as int, m2)) by {
                        assert forall|j: int| 0 <= j < models(self.store@).len() implies models(
                            self.store@,
                        )[j] == pre.items.update(i as int, m2)[j] by {
                            assert(models(self.store@)[j] == self.store@[j]@);
                        }
                    }
                    let ps = self@.items;
                    assert(ps == pre.items.update(i as int, m2));
                    assert forall|j: int| 0 <= j < ps.len() implies (#[trigger] ps[j]).id
                        == pre.items[j].id && ps[j].due_date == pre.items[j].due_date && item_wf(
                        ps[j],
                    ) by {
                        assert(item_wf(pre.items[j]));
                        assert(ps[j] == if j == i as int {
                            m2
                        } else {
                            pre.items[j]
                        });
                    }
                    assert(store_wf(self@));
                }
                return Ok(());
            }
            i = i + 1;
        }
        Err(not_found_error())
    }

    /// Every record, in the store's due-date order.
    pub fn list_all_todos(&self) -> (r: Vec<&TodoItem>)
        ensures
            r@.len() == self@.items.len(),
            forall|i: int| 0 <= i < r@.len() ==> (#[trigger] r@[i])@ == self@.items[i],
    {
        let mut out: Vec<&TodoItem> = Vec::new();
        let mut i: usize = 0;
        while i < self.store.len()
            invariant
                0 <= i <= self.store@.len(),
                out@.len() == i,
                forall|k: int| 0 <= k < i ==> (#[trigger] out@[k])@ == models(self.store@)[k],
            decreases self.store@.len() - i,
        {
            out.push(&self.store[i]);
            proof {
                assert(models(self.store@)[i as int] == self.store@[i as int]@);
            }
            i = i + 1;
        }
        out
    }

    /// The records not yet complete, in the store's due-date order.
    pub fn list_incomplete_todos(&self) -> (r: Vec<&TodoItem>)
        ensures
            r@.len() == incomplete_of(self@.items).len(),
            forall|i: int| 0 <= i < r@.len() ==> (#[trigger] r@[i])@ == incomplete_of(
                self@.items,
            )[i],
    {
        let ghost ms = models(self.store@);
        let mut out: Vec<&TodoItem> = Vec::new();
        let mut i: usize = 0;
        proof {
            assert(ms.take(0) =~= Seq::<ItemModel>::empty());
        }
        while i < self.store.len()
            invariant
                0 <= i <= self.store@.len(),
                ms == models(self.store@),
                out@.len() == incomplete_of(ms.take(i as int)).len(),
                forall|k: int| 0 <= k < out@.len() ==> (#[trigger] out@[k])@ == incomplete_of(
                    ms.take(i as int),
                )[k],
            decreases self.store@.len() - i,
        {
            proof {
                assert(ms.take(i + 1).drop_last() =~= ms.take(i as int));
                assert(ms.take(i + 1).last() == ms[i as int]);
                assert(ms[i as int] == self.store@[i as int]@);
            }
            if !self.store[i].complete {
                out.push(&self.store[i]);
            }
            i = i + 1;
        }
        proof {
            assert(ms.take(self.store@.len() as int) =~= ms);
        }
        out
    }

    /// The records already complete, in the store's due-date order.
    pub fn list_history(&self) -> (r: Vec<&TodoItem>)
        ensures
            r@.len() == completed_of(self@.items).len(),
            forall|i: int| 0 <= i < r@.len() ==> (#[trigger] r@[i])@ == completed_of(
                self@.items,
            )[i],
    {
        let ghost ms = models(self.store@);
        let mut out: Vec<&TodoItem> = Vec::new();
        let mut i: usize = 0;
        proof {
            assert(ms.take(0) =~= Seq::<ItemModel>::empty());
        }
        while i < self.store.len()
            invariant
                0 <= i <= self.store@.len(),
                ms == models(self.store@),
                out@.len() == completed_of(ms.take(i as int)).len(),
                forall|k: int| 0 <= k < out@.len() ==> (#[trigger] out@[k])@ == completed_of(
                    ms.take(i as int),
                )[k],
            decreases self.store@.len() - i,
        {
            proof {
                assert(ms.take(i + 1).drop_last() =~= ms.take(i as int));
                assert(ms.take(i + 1).last() == ms[i as int]);
                assert(ms[i as int] == self.store@[i as int]@);
            }
            if self.store[i].complete {
                out.push(&self.store[i]);
            }
            i = i + 1;
        }
        proof {
            assert(ms.take(self.store@.len() as int) =~= ms);
        }
        out
    }

    /// The persisted document for the store's current state.
    pub fn persist_data(&self) -> (doc: String)
        requires
            self.wf(),
        ensures
            doc@ == enc_doc(self@.items, self@.next_id),
    {
        proof {
            assert forall|i: int| 0 <= i < self.store@.len() implies (#[trigger] self.store@[i]).due_date.wf() by {
                assert(item_wf(models(self.store@)[i]));
                assert(models(self.store@)[i] == self.store@[i]@);
            }
        }
        encode(&self.store, self.next_id)
    }
}

} // verus!
