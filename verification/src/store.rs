//! The message store: authoritative keyed storage for mesh messages.
//!
//! The store is modelled as a finite map from id to record view. A record
//! submitted under an id that is already present overwrites the prior
//! record (last write wins); lookup returns a copy of the current record;
//! enumeration returns a snapshot of all current records.

use vstd::prelude::*;

use crate::message::MeshMessage;
use crate::message::MeshMessageView;

verus! {

broadcast use vstd::set::group_set_axioms, vstd::map::group_map_axioms;

/// The map state reached by starting from an empty store and submitting
/// the records of `ops` in order: each record is keyed by its id, and a
/// later record with the same id overwrites an earlier one.
pub open spec fn map_of(ops: Seq<MeshMessageView>) -> Map<Seq<char>, MeshMessageView>
    decreases ops.len(),
{
    if ops.len() == 0 {
        Map::empty()
    } else {
        map_of(ops.drop_last()).insert(ops.last().id, ops.last())
    }
}

/// No two records of the sequence share an id.
pub open spec fn ids_distinct(s: Seq<MeshMessageView>) -> bool {
    forall|i: int, j: int| 0 <= i < j < s.len() ==> s[i].id != s[j].id
}

/// An id is a key of `map_of(ops)` exactly when some record of `ops`
/// carries it.
proof fn lemma_map_of_dom(ops: Seq<MeshMessageView>, id: Seq<char>)
    ensures
        map_of(ops).contains_key(id) <==> exists|j: int| 0 <= j < ops.len() && ops[j].id == id,
    decreases ops.len(),
{
    if ops.len() == 0 {
    } else {
        lemma_map_of_dom(ops.drop_last(), id);
        assert(forall|x: int| 0 <= x < ops.len() - 1 ==> ops.drop_last()[x] == ops[x]);
        if ops.last().id == id {
            assert(ops[ops.len() - 1].id == id);
        } else {
            if exists|j: int| 0 <= j < ops.len() && ops[j].id == id {
                let j = choose|j: int| 0 <= j < ops.len() && ops[j].id == id;
                assert(j < ops.len() - 1);
                assert(ops.drop_last()[j].id == id);
            }
        }
    }
}

/// One more submission moves the model forward by one insert: a store
/// that has replayed `ops` and then takes one `put` of `v` is the store
/// that has replayed `ops` extended by `v`.
pub proof fn lemma_map_of_snoc(ops: Seq<MeshMessageView>, v: MeshMessageView)
    ensures
        map_of(ops.push(v)) == map_of(ops).insert(v.id, v),
{
    assert(ops.push(v).drop_last() =~= ops);
}

/// The record that the map holds under an id is the last record of `ops`
/// submitted with that id.
pub proof fn lemma_last_put_wins(ops: Seq<MeshMessageView>, i: int)
    requires
        0 <= i < ops.len(),
        forall|j: int| i < j < ops.len() ==> ops[j].id != ops[i].id,
    ensures
        map_of(ops).contains_key(ops[i].id),
        map_of(ops)[ops[i].id] == ops[i],
    decreases ops.len(),
{
    if i == ops.len() - 1 {
    } else {
        assert(forall|x: int| 0 <= x < ops.len() - 1 ==> ops.drop_last()[x] == ops[x]);
        assert(ops.last().id != ops[i].id);
        lemma_last_put_wins(ops.drop_last(), i);
    }
}

/// An id that no record of `ops` carries is absent from the map: a `get`
/// for an id never `put` finds nothing.
pub proof fn lemma_never_put_absent(ops: Seq<MeshMessageView>, id: Seq<char>)
    requires
        forall|j: int| 0 <= j < ops.len() ==> ops[j].id != id,
    ensures
        !map_of(ops).contains_key(id),
{
    lemma_map_of_dom(ops, id);
}

/// Submitting the same record twice leaves the same map as submitting it
/// once: `put` is idempotent under identical repeated input.
pub proof fn lemma_put_idempotent(m: Map<Seq<char>, MeshMessageView>, v: MeshMessageView)
    ensures
        m.insert(v.id, v).insert(v.id, v) == m.insert(v.id, v),
{
    assert(m.insert(v.id, v).insert(v.id, v) =~= m.insert(v.id, v));
}

/// Replaying records with pairwise distinct ids leaves exactly one entry
/// per submission, each under its own id — so a snapshot taken then
/// lists exactly that many records, each equal to the record submitted
/// with its id.
pub proof fn lemma_distinct_puts(ops: Seq<MeshMessageView>)
    requires
        ids_distinct(ops),
    ensures
        map_of(ops).len() == ops.len(),
        forall|i: int|
            0 <= i < ops.len() ==> map_of(ops).contains_key(#[trigger] ops[i].id) && map_of(ops)[
                ops[i].id
            ] == ops[i],
{
    lemma_map_of_len(ops);
    assert forall|i: int| 0 <= i < ops.len() implies map_of(ops).contains_key(
        #[trigger] ops[i].id,
    ) && map_of(ops)[ops[i].id] == ops[i] by {
        lemma_map_of_at(ops, i);
    }
}

/// With all ids distinct, each record of `ops` stands in the map under its
/// own id.
proof fn lemma_map_of_at(ops: Seq<MeshMessageView>, i: int)
    requires
        ids_distinct(ops),
        0 <= i < ops.len(),
    ensures
        map_of(ops).contains_key(ops[i].id),
        map_of(ops)[ops[i].id] == ops[i],
{
    lemma_last_put_wins(ops, i);
}

/// With all ids distinct, the map holds exactly one entry per record.
proof fn lemma_map_of_len(ops: Seq<MeshMessageView>)
    requires
        ids_distinct(ops),
    ensures
        map_of(ops).dom().finite(),
        map_of(ops).len() == ops.len(),
    decreases ops.len(),
{
    if ops.len() == 0 {
        assert(map_of(ops).dom() =~= Set::<Seq<char>>::empty());
    } else {
        assert(forall|x: int| 0 <= x < ops.len() - 1 ==> ops.drop_last()[x] == ops[x]);
        lemma_map_of_len(ops.drop_last());
        lemma_map_of_dom(ops.drop_last(), ops.last().id);
        assert(forall|j: int| 0 <= j < ops.len() - 1 ==> ops.drop_last()[j].id != ops.last().id);
    }
}

/// Overwriting the one record that carries `v.id` in place updates the map
/// at `v.id` alone.
proof fn lemma_map_of_update(s: Seq<MeshMessageView>, i: int, v: MeshMessageView)
    requires
        ids_distinct(s),
        0 <= i < s.len(),
        s[i].id == v.id,
    ensures
        map_of(s.update(i, v)) == map_of(s).insert(v.id, v),
    decreases s.len(),
{
    let t = s.update(i, v);
    if i == s.len() - 1 {
        assert(t.drop_last() =~= s.drop_last());
        assert(t.last() == v);
        assert(map_of(s).insert(v.id, v) =~= map_of(s.drop_last()).insert(v.id, v));
    } else {
        assert(forall|x: int| 0 <= x < s.len() - 1 ==> s.drop_last()[x] == s[x]);
        assert(t.drop_last() =~= s.drop_last().update(i, v));
        assert(t.last() == s.last());
        lemma_map_of_update(s.drop_last(), i, v);
        assert(s.last().id != v.id);
        assert(map_of(s.drop_last()).insert(v.id, v).insert(s.last().id, s.last()) =~= map_of(
            s.drop_last(),
        ).insert(s.last().id, s.last()).insert(v.id, v));
    }
}

/// Authoritative, keyed storage for [`MeshMessage`] records: at most one
/// record per id, the record for an id always the most recently submitted
/// one. Mutual exclusion between concurrent callers is the boundary
/// layer's concern; each operation here is a single bounded-time
/// structural step.
pub struct MessageStore {
    records: Vec<MeshMessage>,
}

impl View for MessageStore {
    type V = Map<Seq<char>, MeshMessageView>;

    /// The store as a finite map from id to the current record under it.
    closed spec fn view(&self) -> Map<Seq<char>, MeshMessageView> {
        map_of(self.records_seq())
    }
}

impl MessageStore {
    /// The held records as a sequence of views, oldest first.
    pub closed spec fn records_seq(&self) -> Seq<MeshMessageView> {
        self.records@.map_values(|m: MeshMessage| m@)
    }

    /// Well-formed: no two held records share an id.
    pub open spec fn wf(&self) -> bool {
        ids_distinct(self.records_seq())
    }

    /// An empty store.
    pub fn new() -> (s: Self)
        ensures
            s.wf(),
            s@ == Map::<Seq<char>, MeshMessageView>::empty(),
    {
        let s = MessageStore { records: Vec::new() };
        proof {
            assert(s.records_seq() =~= Seq::<MeshMessageView>::empty());
        }
        s
    }

    /// The position of the record that carries `id`, if any.
    fn find_index(&self, id: &String) -> (r: Option<usize>)
        ensures
            match r {
                Some(i) => i < self.records_seq().len() && self.records_seq()[i as int].id == id@,
                None => forall|j: int|
                    0 <= j < self.records_seq().len() ==> self.records_seq()[j].id != id@,
            },
    {
        let n = self.records.len();
        let mut i: usize = 0;
        while i < n
            invariant
                n == self.records_seq().len(),
                i <= n,
                forall|j: int| 0 <= j < i ==> self.records_seq()[j].id != id@,
            decreases n - i,
        {
            if self.records[i].id == *id {
                return Some(i);
            }
            i = i + 1;
        }
        None
    }

    /// Inserts or overwrites the record under `m.id`. Always succeeds; no
    /// field is validated; the prior record under the same id, if any, is
    /// replaced whole.
    pub fn put(&mut self, m: MeshMessage)
        requires
            old(self).wf(),
        ensures
            final(self).wf(),
            final(self)@ == old(self)@.insert(m.id@, m@),
    {
        let ghost s0 = self.records_seq();
        let ghost v = m@;
        match self.find_index(&m.id) {
            Some(i) => {
                proof {
                    lemma_map_of_update(s0, i as int, v);
                }
                self.records[i] = m;
                proof {
                    assert(self.records_seq() =~= s0.update(i as int, v));
                    assert(forall|x: int|
                        0 <= x < s0.len() ==> s0.update(i as int, v)[x].id == s0[x].id);
                    assert(ids_distinct(s0.update(i as int, v)));
                }
            },
            None => {
                self.records.push(m);
                proof {
                    assert(self.records_seq() =~= s0.push(v));
                    assert(s0.push(v).drop_last() =~= s0);
                    assert(forall|x: int| 0 <= x < s0.len() ==> s0.push(v)[x] == s0[x]);
                    assert(ids_distinct(s0.push(v)));
                }
            },
        }
    }

    /// Returns a copy of the current record under `id`, or nothing when no
    /// record exists — absence signals "not found" and is not an error.
    pub fn get(&self, id: &String) -> (r: Option<MeshMessage>)
        requires
            self.wf(),
        ensures
            match r {
                Some(m) => self@.contains_key(id@) && m@ == self@[id@],
                None => !self@.contains_key(id@),
            },
    {
        match self.find_index(id) {
            Some(i) => {
                proof {
                    lemma_map_of_at(self.records_seq(), i as int);
                }
                Some(self.records[i].clone())
            },
            None => {
                proof {
                    lemma_never_put_absent(self.records_seq(), id@);
                }
                None
            },
        }
    }

    /// Returns a point-in-time snapshot of all current records: one copy
    /// per held id, each equal to the record the store holds under that
    /// id. Order is unspecified.
    pub fn list(&self) -> (r: Vec<MeshMessage>)
        requires
            self.wf(),
        ensures
            r@.len() == self@.len(),
            forall|i: int|
                0 <= i < r@.len() ==> self@.contains_key(#[trigger] r@[i]@.id) && self@[r@[i]@.id]
                    == r@[i]@,
            forall|k: Seq<char>|
                #[trigger] self@.contains_key(k) ==> exists|i: int|
                    0 <= i < r@.len() && r@[i]@.id == k,
            ids_distinct(r@.map_values(|m: MeshMessage| m@)),
    {
        let r = self.records.clone();
        proof {
            assert(forall|i: int| 0 <= i < r@.len() ==> r@[i] == self.records@[i]);
            assert(r@ =~= self.records@);
            lemma_map_of_len(self.records_seq());
            assert forall|i: int| 0 <= i < r@.len() implies self@.contains_key(r@[i]@.id)
                && self@[r@[i]@.id] == r@[i]@ by {
                lemma_map_of_at(self.records_seq(), i);
            }
            assert forall|k: Seq<char>| self@.contains_key(k) implies exists|i: int|
                0 <= i < r@.len() && r@[i]@.id == k by {
                lemma_map_of_dom(self.records_seq(), k);
                let j = choose|j: int|
                    0 <= j < self.records_seq().len() && self.records_seq()[j].id == k;
                assert(r@[j]@.id == k);
            }
            assert(r@.map_values(|m: MeshMessage| m@) =~= self.records_seq());
        }
        r
    }
}

} // verus!
