//! The key → ids store that an index keeps for its buckets.

use vstd::prelude::*;

verus! {

/// Whether two byte strings are equal.
pub fn bytes_eq(a: &Vec<u8>, b: &Vec<u8>) -> (r: bool)
    ensures
        r == (a@ == b@),
{
    if a.len() != b.len() {
        return false;
    }
    let mut i: usize = 0;
    while i < a.len()
        invariant
            a@.len() == b@.len(),
            i <= a@.len(),
            forall|j: int| 0 <= j < i ==> a@[j] == b@[j],
        decreases a@.len() - i,
    {
        if a[i] != b[i] {
            return false;
        }
        i = i + 1;
    }
    assert(a@ =~= b@);
    true
}

/// One bucket: the ids of the records whose extracted key is `key`, in the
/// order in which they were filed.
pub struct Bucket {
    pub key: Vec<u8>,
    pub ids: Vec<u128>,
}

/// The ids of `s` without the first occurrence of `id` (`s` itself when `id`
/// is absent).
pub open spec fn without(s: Seq<u128>, id: u128) -> Seq<u128> {
    if s.contains(id) {
        s.remove(s.index_of(id))
    } else {
        s
    }
}

/// The buckets of one index, keyed by the bytes of the extracted key.
pub struct BucketStore {
    entries: Vec<Bucket>,
}

impl BucketStore {
    pub closed spec fn entry_key(&self, i: int) -> Seq<u8> {
        self.entries@[i].key@
    }

    pub closed spec fn has(&self, k: Seq<u8>) -> bool {
        exists|i: int| 0 <= i < self.entries@.len() && #[trigger] self.entry_key(i) == k
    }

    pub closed spec fn pos(&self, k: Seq<u8>) -> int {
        choose|i: int| 0 <= i < self.entries@.len() && #[trigger] self.entry_key(i) == k
    }

    /// Key bytes → ids of that bucket.
    pub closed spec fn view(&self) -> Map<Seq<u8>, Seq<u128>> {
        Map::new(|k: Seq<u8>| self.has(k), |k: Seq<u8>| self.entries@[self.pos(k)].ids@)
    }

    /// The ids filed under `k`; empty where `k` has no bucket.
    pub open spec fn bucket(&self, k: Seq<u8>) -> Seq<u128> {
        if self@.contains_key(k) {
            self@[k]
        } else {
            Seq::empty()
        }
    }

    /// Keys are distinct, no bucket is empty, and no id is filed twice in one
    /// bucket.
    pub closed spec fn wf(&self) -> bool {
        &&& forall|i: int, j: int|
            0 <= i < j < self.entries@.len() ==> self.entry_key(i) != self.entry_key(j)
        &&& forall|i: int| 0 <= i < self.entries@.len() ==> self.entries@[i].ids@.len() > 0
        &&& forall|i: int| 0 <= i < self.entries@.len() ==> self.entries@[i].ids@.no_duplicates()
    }

    /// What a caller may rely on from `wf`.
    pub proof fn lemma_wf(&self)
        requires
            self.wf(),
        ensures
            forall|k: Seq<u8>| #[trigger] self@.contains_key(k) ==> self@[k].len() > 0,
            forall|k: Seq<u8>| #[trigger] self.bucket(k).no_duplicates(),
    {
        assert forall|k: Seq<u8>| #[trigger] self@.contains_key(k) implies self@[k].len() > 0 by {
            let p = self.pos(k);
        }
        assert forall|k: Seq<u8>| #[trigger] self.bucket(k).no_duplicates() by {
            if self@.contains_key(k) {
                let p = self.pos(k);
            } else {
                assert(Seq::<u128>::empty().no_duplicates());
            }
        }
    }

    proof fn lemma_at(&self, i: int)
        requires
            self.wf(),
            0 <= i < self.entries@.len(),
        ensures
            self@.contains_key(self.entry_key(i)),
            self@[self.entry_key(i)] == self.entries@[i].ids@,
    {
        let k = self.entry_key(i);
        assert(self.has(k));
        let p = self.pos(k);
        assert(p == i);
    }

    pub fn new() -> (r: Self)
        ensures
            r.wf(),
            r@ == Map::<Seq<u8>, Seq<u128>>::empty(),
    {
        let r = BucketStore { entries: Vec::new() };
        assert(r@ =~= Map::<Seq<u8>, Seq<u128>>::empty());
        r
    }

    fn find(&self, k: &Vec<u8>) -> (r: Option<usize>)
        requires
            self.wf(),
        ensures
            match r {
                Some(i) => i < self.entries@.len() && self.entry_key(i as int) == k@,
                None => !self@.contains_key(k@),
            },
    {
        let mut i: usize = 0;
        while i < self.entries.len()
            invariant
                i <= self.entries@.len(),
                forall|j: int| 0 <= j < i ==> self.entry_key(j) != k@,
            decreases self.entries@.len() - i,
        {
            if bytes_eq(&self.entries[i].key, k) {
                return Some(i);
            }
            i = i + 1;
        }
        None
    }

    /// The ids filed under `k`, in filing order.
    pub fn lookup(&self, k: &Vec<u8>) -> (r: Vec<u128>)
        requires
            self.wf(),
        ensures
            r@ == self.bucket(k@),
    {
        match self.find(k) {
            Some(i) => {
                proof {
                    self.lemma_at(i as int);
                }
                let ids = &self.entries[i].ids;
                let mut out: Vec<u128> = Vec::new();
                let mut j: usize = 0;
                while j < ids.len()
                    invariant
                        j <= ids@.len(),
                        out@ == ids@.subrange(0, j as int),
                    decreases ids@.len() - j,
                {
                    out.push(ids[j]);
                    j = j + 1;
                    assert(out@ =~= ids@.subrange(0, j as int));
                }
                assert(out@ =~= ids@);
                out
            },
            None => Vec::new(),
        }
    }

    proof fn lemma_removed(old_s: &Self, new_s: &Self, i: int)
        requires
            old_s.wf(),
            0 <= i < old_s.entries@.len(),
            new_s.entries@ == old_s.entries@.remove(i),
        ensures
            new_s.wf(),
            new_s@ == old_s@.remove(old_s.entry_key(i)),
    {
        let k = old_s.entry_key(i);
        assert forall|a: int| 0 <= a < new_s.entries@.len() implies #[trigger] new_s.entry_key(a)
            == old_s.entry_key(if a < i { a } else { a + 1 }) by {}
        assert forall|q: Seq<u8>| #[trigger] new_s@.contains_key(q) == old_s@.remove(k).contains_key(q) by {
            if new_s.has(q) {
                let p = new_s.pos(q);
                let o = if p < i { p } else { p + 1 };
                assert(old_s.entry_key(o) == q);
            }
            if old_s.has(q) && q != k {
                let p = old_s.pos(q);
                assert(p != i);
                let n = if p < i { p } else { p - 1 };
                assert(new_s.entry_key(n) == q);
            }
        }
        assert forall|q: Seq<u8>| #[trigger] new_s@.contains_key(q) implies new_s@[q] == old_s@[q] by {
            let p = new_s.pos(q);
            let o = if p < i { p } else { p + 1 };
            old_s.lemma_at(o);
        }
        assert(new_s@ =~= old_s@.remove(k));
    }

    proof fn lemma_pushed(old_s: &Self, new_s: &Self, b: Bucket)
        requires
            old_s.wf(),
            !old_s@.contains_key(b.key@),
            b.ids@.len() > 0,
            b.ids@.no_duplicates(),
            new_s.entries@ == old_s.entries@.push(b),
        ensures
            new_s.wf(),
            new_s@ == old_s@.insert(b.key@, b.ids@),
    {
        let n = old_s.entries@.len() as int;
        assert(new_s.entry_key(n) == b.key@);
        assert forall|a: int| 0 <= a < n implies #[trigger] new_s.entry_key(a) == old_s.entry_key(a) by {}
        assert forall|a: int| 0 <= a < n implies old_s.entry_key(a) != b.key@ by {
            old_s.lemma_at(a);
        }
        assert forall|q: Seq<u8>| #[trigger] new_s@.contains_key(q) == old_s@.insert(b.key@, b.ids@).contains_key(q) by {
            if new_s.has(q) {
                let p = new_s.pos(q);
                if p < n {
                    assert(old_s.entry_key(p) == q);
                }
            }
            if old_s.has(q) {
                let p = old_s.pos(q);
                assert(new_s.entry_key(p) == q);
            }
        }
        assert(new_s.wf());
        assert forall|q: Seq<u8>| #[trigger] new_s@.contains_key(q) implies new_s@[q] == old_s@.insert(b.key@, b.ids@)[q] by {
            let p = new_s.pos(q);
            new_s.lemma_at(p);
            if p < n {
                old_s.lemma_at(p);
            }
        }
        assert(new_s@ =~= old_s@.insert(b.key@, b.ids@));
    }

    /// Files `id` under `k`, opening the bucket where there is none.
    pub fn insert_id(&mut self, k: Vec<u8>, id: u128)
        requires
            old(self).wf(),
            !old(self).bucket(k@).contains(id),
        ensures
            final(self).wf(),
            final(self)@ == old(self)@.insert(k@, old(self).bucket(k@).push(id)),
    {
        match self.find(&k) {
            Some(i) => {
                proof {
                    self.lemma_at(i as int);
                }
                let ghost mid_old = *self;
                let mut b = self.entries.remove(i);
                proof {
                    BucketStore::lemma_removed(&mid_old, self, i as int);
                }
                b.ids.push(id);
                let ghost before = *self;
                self.entries.push(b);
                proof {
                    BucketStore::lemma_pushed(&before, self, b);
                    assert(self@ =~= mid_old@.insert(k@, mid_old.bucket(k@).push(id)));
                }
            },
            None => {
                let mut ids: Vec<u128> = Vec::new();
                ids.push(id);
                let b = Bucket { key: k, ids };
                let ghost before = *self;
                assert(b.ids@ =~= seq![id]);
                self.entries.push(b);
                proof {
                    BucketStore::lemma_pushed(&before, self, b);
                    assert(before.bucket(k@) =~= Seq::<u128>::empty());
                    assert(seq![id] =~= Seq::<u128>::empty().push(id));
                }
            },
        }
    }

    /// Takes `id` out of the bucket under `k`; the bucket goes when it holds
    /// nothing else. Nothing changes where `id` is not filed under `k`.
    pub fn remove_id(&mut self, k: &Vec<u8>, id: u128)
        requires
            old(self).wf(),
        ensures
            final(self).wf(),
            !old(self).bucket(k@).contains(id) ==> final(self)@ == old(self)@,
            old(self).bucket(k@) == seq![id] ==> final(self)@ == old(self)@.remove(k@),
            old(self).bucket(k@).contains(id) && old(self).bucket(k@).len() > 1 ==> final(self)@
                == old(self)@.insert(k@, without(old(self).bucket(k@), id)),
    {
        match self.find(k) {
            Some(i) => {
                proof {
                    self.lemma_at(i as int);
                }
                let mut pos: usize = 0;
                let n = self.entries[i].ids.len();
                while pos < n && self.entries[i].ids[pos] != id
                    invariant
                        i < self.entries@.len(),
                        n == self.entries@[i as int].ids@.len(),
                        pos <= n,
                        forall|j: int| 0 <= j < pos ==> self.entries@[i as int].ids@[j] != id,
                    decreases n - pos,
                {
                    pos = pos + 1;
                }
                if pos == n {
                    proof {
                        assert(!self.entries@[i as int].ids@.contains(id));
                        assert(!self.bucket(k@).contains(id));
                        assert(seq![id][0] == id);
                    }
                    return;
                }
                let ghost ids0 = self.entries@[i as int].ids@;
                proof {
                    assert(ids0[pos as int] == id);
                    assert(ids0.contains(id));
                    ids0.index_of_first_ensures(id);
                    assert(ids0.index_of(id) == pos as int) by {
                        assert(ids0[pos as int] == id);
                    }
                }
                let ghost mid_old = *self;
                let mut b = self.entries.remove(i);
                proof {
                    BucketStore::lemma_removed(&mid_old, self, i as int);
                }
                if n == 1 {
                    proof {
                        assert(ids0 =~= seq![id]);
                    }
                    return;
                }
                b.ids.remove(pos);
                let ghost before = *self;
                proof {
                    assert(b.ids@ == without(ids0, id));
                    assert(b.ids@.no_duplicates()) by {
                        assert forall|x: int, y: int| 0 <= x < y < b.ids@.len() implies b.ids@[x] != b.ids@[y] by {
                            let xo = if x < pos { x } else { x + 1 };
                            let yo = if y < pos { y } else { y + 1 };
                            assert(b.ids@[x] == ids0[xo]);
                            assert(b.ids@[y] == ids0[yo]);
                        }
                    }
                    assert(ids0.len() != 1);
                }
                self.entries.push(b);
                proof {
                    BucketStore::lemma_pushed(&before, self, b);
                    assert(self@ =~= mid_old@.insert(k@, without(ids0, id)));
                }
            },
            None => {},
        }
    }
}

} // verus!
