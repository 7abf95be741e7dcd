//! The primary rows of a table: id → data, in insertion order.

use vstd::prelude::*;

use crate::record::Record;

verus! {

pub struct RowStore {
    rows: Vec<Record>,
}

impl RowStore {
    pub closed spec fn row_id(&self, i: int) -> u128 {
        self.rows@[i].id
    }

    pub closed spec fn has(&self, id: u128) -> bool {
        exists|i: int| 0 <= i < self.rows@.len() && #[trigger] self.row_id(i) == id
    }

    pub closed spec fn pos(&self, id: u128) -> int {
        choose|i: int| 0 <= i < self.rows@.len() && #[trigger] self.row_id(i) == id
    }

    /// Id → data of every row.
    pub closed spec fn view(&self) -> Map<u128, Seq<char>> {
        Map::new(|id: u128| self.has(id), |id: u128| self.rows@[self.pos(id)].data@)
    }

    /// The rows in insertion order, as (id, data) pairs.
    pub closed spec fn ordered(&self) -> Seq<(u128, Seq<char>)> {
        self.rows@.map_values(|r: Record| (r.id, r.data@))
    }

    /// No id is held twice.
    pub closed spec fn wf(&self) -> bool {
        forall|i: int, j: int| 0 <= i < j < self.rows@.len() ==> self.row_id(i) != self.row_id(j)
    }

    /// The ordered rows hold exactly the ids and data of the view.
    pub proof fn lemma_ordered(&self)
        requires
            self.wf(),
        ensures
            forall|i: int| 0 <= i < self.ordered().len() ==> self@.contains_key(
                #[trigger] self.ordered()[i].0,
            ) && self@[self.ordered()[i].0] == self.ordered()[i].1,
            forall|id: u128| #[trigger] self@.contains_key(id) ==> exists|i: int|
                0 <= i < self.ordered().len() && self.ordered()[i].0 == id,
            forall|i: int, j: int|
                0 <= i < j < self.ordered().len() ==> #[trigger] self.ordered()[i].0
                    != #[trigger] self.ordered()[j].0,
    {
        assert forall|i: int, j: int|
            0 <= i < j < self.ordered().len() implies #[trigger] self.ordered()[i].0
                != #[trigger] self.ordered()[j].0 by {
            assert(self.row_id(i) != self.row_id(j));
        }
        assert forall|i: int| 0 <= i < self.ordered().len() implies self@.contains_key(
            #[trigger] self.ordered()[i].0,
        ) && self@[self.ordered()[i].0] == self.ordered()[i].1 by {
            self.lemma_at(i);
        }
        assert forall|id: u128| #[trigger] self@.contains_key(id) implies exists|i: int|
            0 <= i < self.ordered().len() && self.ordered()[i].0 == id by {
            let p = self.pos(id);
            assert(self.ordered()[p].0 == id);
        }
    }

    proof fn lemma_at(&self, i: int)
        requires
            self.wf(),
            0 <= i < self.rows@.len(),
        ensures
            self@.contains_key(self.row_id(i)),
            self@[self.row_id(i)] == self.rows@[i].data@,
    {
        let id = self.row_id(i);
        assert(self.has(id));
        let p = self.pos(id);
        assert(p == i);
    }

    pub fn new() -> (r: Self)
        ensures
            r.wf(),
            r@ == Map::<u128, Seq<char>>::empty(),
            r.ordered() == Seq::<(u128, Seq<char>)>::empty(),
    {
        let r = RowStore { rows: Vec::new() };
        assert(r@ =~= Map::<u128, Seq<char>>::empty());
        assert(r.ordered() =~= Seq::<(u128, Seq<char>)>::empty());
        r
    }

    fn find(&self, id: u128) -> (r: Option<usize>)
        requires
            self.wf(),
        ensures
            match r {
                Some(i) => i < self.rows@.len() && self.row_id(i as int) == id,
                None => !self@.contains_key(id),
            },
    {
        let mut i: usize = 0;
        while i < self.rows.len()
            invariant
                i <= self.rows@.len(),
                forall|j: int| 0 <= j < i ==> self.row_id(j) != id,
            decreases self.rows@.len() - i,
        {
            if self.rows[i].id == id {
                return Some(i);
            }
            i = i + 1;
        }
        None
    }

    /// The row with this id, if there is one.
    pub fn get(&self, id: u128) -> (r: Option<Record>)
        requires
            self.wf(),
        ensures
            match r {
                Some(rec) => self@.contains_key(id) && rec.id == id && rec.data@ == self@[id],
                None => !self@.contains_key(id),
            },
    {
        match self.find(id) {
            Some(i) => {
                proof {
                    self.lemma_at(i as int);
                }
                Some(self.rows[i].duplicate())
            },
            None => None,
        }
    }

    /// Every row, in insertion order.
    pub fn all(&self) -> (r: Vec<Record>)
        ensures
            r@.len() == self.ordered().len(),
            forall|j: int| 0 <= j < r@.len() ==> (#[trigger] r@[j].id, r@[j].data@) == self.ordered()[j],
    {
        let mut out: Vec<Record> = Vec::new();
        let mut i: usize = 0;
        while i < self.rows.len()
            invariant
                i <= self.rows@.len(),
                out@.len() == i,
                forall|j: int| 0 <= j < i ==> (#[trigger] out@[j].id, out@[j].data@) == self.ordered()[j],
            decreases self.rows@.len() - i,
        {
            out.push(self.rows[i].duplicate());
            i = i + 1;
        }
        out
    }

    /// Adds a row under an id that is not held yet.
    pub fn push(&mut self, rec: Record)
        requires
            old(self).wf(),
            !old(self)@.contains_key(rec.id),
        ensures
            final(self).wf(),
            final(self)@ == old(self)@.insert(rec.id, rec.data@),
            final(self).ordered() == old(self).ordered().push((rec.id, rec.data@)),
    {
        let ghost o = *self;
        let n = self.rows.len();
        proof {
            assert forall|i: int| 0 <= i < n implies o.row_id(i) != rec.id by {
                o.lemma_at(i);
            }
        }
        self.rows.push(rec);
        proof {
            assert(self.row_id(n as int) == rec.id);
            assert forall|i: int| 0 <= i < n implies #[trigger] self.row_id(i) == o.row_id(i) by {}
            assert forall|q: u128| #[trigger] self@.contains_key(q) == o@.insert(rec.id, rec.data@).contains_key(q) by {
                if self.has(q) {
                    let p = self.pos(q);
                    if p < n {
                        assert(o.row_id(p) == q);
                    }
                }
                if o.has(q) {
                    let p = o.pos(q);
                    assert(self.row_id(p) == q);
                }
            }
            assert forall|q: u128| #[trigger] self@.contains_key(q) implies self@[q] == o@.insert(rec.id, rec.data@)[q] by {
                let p = self.pos(q);
                self.lemma_at(p);
                if p < n {
                    o.lemma_at(p);
                }
            }
            assert(self@ =~= o@.insert(rec.id, rec.data@));
            assert(self.ordered() =~= o.ordered().push((rec.id, rec.data@)));
        }
    }

    /// Replaces the data of a held id and hands back the old data.
    pub fn replace(&mut self, id: u128, data: String) -> (r: Option<String>)
        requires
            old(self).wf(),
        ensures
            final(self).wf(),
            match r {
                Some(d) => old(self)@.contains_key(id) && d@ == old(self)@[id] && final(self)@
                    == old(self)@.insert(id, data@),
                None => !old(self)@.contains_key(id) && final(self)@ == old(self)@,
            },
    {
        match self.find(id) {
            Some(i) => {
                let ghost o = *self;
                proof {
                    o.lemma_at(i as int);
                }
                let old_rec = self.rows.remove(i);
                self.rows.insert(i, Record { id, data });
                proof {
                    assert forall|a: int| 0 <= a < self.rows@.len() implies #[trigger] self.row_id(a)
                        == o.row_id(a) by {}
                    assert forall|q: u128| #[trigger] self@.contains_key(q) == o@.contains_key(q) by {
                        if self.has(q) {
                            let p = self.pos(q);
                            assert(o.row_id(p) == q);
                        }
                        if o.has(q) {
                            let p = o.pos(q);
                            assert(self.row_id(p) == q);
                        }
                    }
                    assert forall|q: u128| #[trigger] self@.contains_key(q) implies self@[q] == o@.insert(id, data@)[q] by {
                        let p = self.pos(q);
                        self.lemma_at(p);
                        o.lemma_at(p);
                    }
                    assert(self@ =~= o@.insert(id, data@));
                }
                Some(old_rec.data)
            },
            None => None,
        }
    }

    /// Takes out the row with this id, if there is one.
    pub fn take(&mut self, id: u128) -> (r: Option<Record>)
        requires
            old(self).wf(),
        ensures
            final(self).wf(),
            match r {
                Some(rec) => old(self)@.contains_key(id) && rec.id == id && rec.data@ == old(self)@[id]
                    && final(self)@ == old(self)@.remove(id),
                None => !old(self)@.contains_key(id) && final(self)@ == old(self)@,
            },
    {
        match self.find(id) {
            Some(i) => {
                let ghost o = *self;
                proof {
                    o.lemma_at(i as int);
                }
                let rec = self.rows.remove(i);
                proof {
                    assert forall|a: int| 0 <= a < self.rows@.len() implies #[trigger] self.row_id(a)
                        == o.row_id(if a < i { a } else { a + 1 }) by {}
                    assert forall|q: u128| #[trigger] self@.contains_key(q) == o@.remove(id).contains_key(q) by {
                        if self.has(q) {
                            let p = self.pos(q);
                            let op = if p < i { p } else { p + 1 };
                            assert(o.row_id(op) == q);
                        }
                        if o.has(q) && q != id {
                            let p = o.pos(q);
                            assert(p != i);
                            let np = if p < i { p } else { p - 1 };
                            assert(self.row_id(np) == q);
                        }
                    }
                    assert forall|q: u128| #[trigger] self@.contains_key(q) implies self@[q] == o@[q] by {
                        let p = self.pos(q);
                        let op = if p < i { p } else { p + 1 };
                        o.lemma_at(op);
                    }
                    assert(self@ =~= o@.remove(id));
                }
                Some(rec)
            },
            None => None,
        }
    }
}

} // verus!
