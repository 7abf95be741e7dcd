//! A table: its rows, the indexes over them, and the change log through which
//! each index catches up with the rows before it is read.

use vstd::prelude::*;

use crate::bucket::{without, BucketStore};
use crate::codec::{
    decode_id, decode_text, distinct_ids, encode_id, encode_text, encodes, id_code, text_code,
};
use crate::record::{ids_of, lemma_ids_push, Record};
use crate::result::{DbResult, TinyBaseError};
use crate::rows::RowStore;

verus! {

/// A key extractor can be called on every value.
pub open spec fn total_fn<F: Fn(&String) -> Vec<u8>>(f: F) -> bool {
    forall|s: &String| #[trigger] call_requires(f, (s,))
}

/// A key extractor gives equal keys for equal values.
pub open spec fn pure_fn<F: Fn(&String) -> Vec<u8>>(f: F) -> bool {
    forall|s1: &String, s2: &String, r1: Vec<u8>, r2: Vec<u8>|
        #[trigger] call_ensures(f, (s1,), r1) && #[trigger] call_ensures(f, (s2,), r2) && s1@
            == s2@ ==> r1@ == r2@
}

/// Some call of `f` on the value `d` returned the key `k`.
pub open spec fn gives<F: Fn(&String) -> Vec<u8>>(f: F, d: Seq<char>, k: Seq<u8>) -> bool {
    exists|s: &String, r: Vec<u8>| s@ == d && #[trigger] call_ensures(f, (s,), r) && r@ == k
}

/// The key that `f` gives for the value `d`.
pub open spec fn key_of<F: Fn(&String) -> Vec<u8>>(f: F, d: Seq<char>) -> Seq<u8> {
    choose|k: Seq<u8>| #[trigger] gives(f, d, k)
}

proof fn lemma_key_of<F: Fn(&String) -> Vec<u8>>(f: F, s: &String, r: Vec<u8>)
    requires
        pure_fn(f),
        call_ensures(f, (s,), r),
    ensures
        key_of(f, s@) == r@,
{
    assert(gives(f, s@, r@));
    let k = key_of(f, s@);
    assert(gives(f, s@, k));
    let (s2, r2) = choose|s2: &String, r2: Vec<u8>|
        s2@ == s@ && #[trigger] call_ensures(f, (s2,), r2) && r2@ == k;
}

/// Calls the extractor.
fn extract<F: Fn(&String) -> Vec<u8>>(f: &F, d: &String) -> (r: Vec<u8>)
    requires
        total_fn(*f),
        pure_fn(*f),
    ensures
        r@ == key_of(*f, d@),
{
    let r = f(d);
    proof {
        lemma_key_of(*f, d, r);
    }
    r
}

/// A change of the rows, as the indexes receive it.
pub enum Event {
    Insert(Record),
    Remove(Record),
    Update { id: u128, old_data: String, new_data: String },
}

/// The rows after `e`.
pub open spec fn step(m: Map<u128, Seq<char>>, e: Event) -> Map<u128, Seq<char>> {
    match e {
        Event::Insert(r) => m.insert(r.id, r.data@),
        Event::Remove(r) => m.remove(r.id),
        Event::Update { id, new_data, .. } => m.insert(id, new_data@),
    }
}

/// `e` describes a change that the rows `m` can undergo.
pub open spec fn valid_step(m: Map<u128, Seq<char>>, e: Event) -> bool {
    match e {
        Event::Insert(r) => !m.contains_key(r.id),
        Event::Remove(r) => m.contains_key(r.id) && m[r.id] == r.data@,
        Event::Update { id, old_data, .. } => m.contains_key(id) && m[id] == old_data@,
    }
}

/// The rows after every event of `log`, in order.
pub open spec fn replay(m: Map<u128, Seq<char>>, log: Seq<Event>) -> Map<u128, Seq<char>>
    decreases log.len(),
{
    if log.len() == 0 {
        m
    } else {
        step(replay(m, log.drop_last()), log.last())
    }
}

/// Each event of `log` fits the rows that the events before it left.
pub open spec fn valid_log(m: Map<u128, Seq<char>>, log: Seq<Event>) -> bool
    decreases log.len(),
{
    log.len() == 0 || (valid_log(m, log.drop_last()) && valid_step(
        replay(m, log.drop_last()),
        log.last(),
    ))
}

proof fn lemma_log_prefix(m: Map<u128, Seq<char>>, log: Seq<Event>, j: int)
    requires
        valid_log(m, log),
        0 <= j <= log.len(),
    ensures
        valid_log(m, log.subrange(0, j)),
    decreases log.len(),
{
    if j == log.len() {
        assert(log.subrange(0, j) =~= log);
    } else {
        lemma_log_prefix(m, log.drop_last(), j);
        assert(log.drop_last().subrange(0, j) =~= log.subrange(0, j));
    }
}

/// The buckets file every row under its key and nothing else.
pub open spec fn consistent<F: Fn(&String) -> Vec<u8>>(
    store: BucketStore,
    m: Map<u128, Seq<char>>,
    f: F,
) -> bool {
    &&& store.wf()
    &&& forall|k: Seq<u8>, id: u128| #[trigger]
        store.bucket(k).contains(id) <==> (m.contains_key(id) && key_of(f, m[id]) == k)
}

proof fn lemma_without(s: Seq<u128>, id: u128)
    requires
        s.no_duplicates(),
        s.contains(id),
    ensures
        forall|x: u128| #[trigger] without(s, id).contains(x) <==> (s.contains(x) && x != id),
{
    let p = s.index_of(id);
    s.index_of_first_ensures(id);
    let w = without(s, id);
    assert forall|x: u128| #[trigger] w.contains(x) <==> (s.contains(x) && x != id) by {
        if w.contains(x) {
            let a = choose|a: int| 0 <= a < w.len() && w[a] == x;
            let o = if a < p { a } else { a + 1 };
            assert(s[o] == x);
            assert(o != p);
        }
        if s.contains(x) && x != id {
            let o = choose|o: int| 0 <= o < s.len() && s[o] == x;
            assert(o != p);
            let a = if o < p { o } else { o - 1 };
            assert(w[a] == x);
        }
    }
}

/// The ids filed under `k` in the buckets `b`.
pub open spec fn bucket_of(b: Map<Seq<u8>, Seq<u128>>, k: Seq<u8>) -> Seq<u128> {
    if b.contains_key(k) {
        b[k]
    } else {
        Seq::empty()
    }
}

/// `b` with `id` appended to the bucket under `k`.
pub open spec fn file(b: Map<Seq<u8>, Seq<u128>>, k: Seq<u8>, id: u128) -> Map<Seq<u8>, Seq<u128>> {
    b.insert(k, bucket_of(b, k).push(id))
}

/// `b` with `id` taken out of the bucket under `k` in place; the bucket goes
/// when `id` was all it held, and nothing changes where it is not there.
pub open spec fn unfile(b: Map<Seq<u8>, Seq<u128>>, k: Seq<u8>, id: u128) -> Map<
    Seq<u8>,
    Seq<u128>,
> {
    if !bucket_of(b, k).contains(id) {
        b
    } else if bucket_of(b, k).len() == 1 {
        b.remove(k)
    } else {
        b.insert(k, without(bucket_of(b, k), id))
    }
}

/// The buckets after an index with extractor `f` applies `e`.
pub open spec fn apply_event<F: Fn(&String) -> Vec<u8>>(
    b: Map<Seq<u8>, Seq<u128>>,
    f: F,
    e: Event,
) -> Map<Seq<u8>, Seq<u128>> {
    match e {
        Event::Insert(r) => file(b, key_of(f, r.data@), r.id),
        Event::Remove(r) => unfile(b, key_of(f, r.data@), r.id),
        Event::Update { id, old_data, new_data } => file(
            unfile(b, key_of(f, old_data@), id),
            key_of(f, new_data@),
            id,
        ),
    }
}

/// The buckets after applying every event of `log`, in order.
pub open spec fn drain<F: Fn(&String) -> Vec<u8>>(
    b: Map<Seq<u8>, Seq<u128>>,
    f: F,
    log: Seq<Event>,
) -> Map<Seq<u8>, Seq<u128>>
    decreases log.len(),
{
    if log.len() == 0 {
        b
    } else {
        apply_event(drain(b, f, log.drop_last()), f, log.last())
    }
}

/// The buckets after filing each record of `s`, in order.
pub open spec fn fill<F: Fn(&String) -> Vec<u8>>(
    b: Map<Seq<u8>, Seq<u128>>,
    f: F,
    s: Seq<(u128, Seq<char>)>,
) -> Map<Seq<u8>, Seq<u128>>
    decreases s.len(),
{
    if s.len() == 0 {
        b
    } else {
        file(fill(b, f, s.drop_last()), key_of(f, s.last().1), s.last().0)
    }
}

/// An update whose old and new data have the same key leaves that key's
/// bucket holding the same ids, with `id` in it exactly once, and every
/// other bucket as it was.
pub proof fn lemma_update_same_key<F: Fn(&String) -> Vec<u8>>(
    b: Map<Seq<u8>, Seq<u128>>,
    f: F,
    id: u128,
    old_data: String,
    new_data: String,
)
    requires
        key_of(f, old_data@) == key_of(f, new_data@),
        bucket_of(b, key_of(f, old_data@)).contains(id),
        bucket_of(b, key_of(f, old_data@)).no_duplicates(),
    ensures
        bucket_of(apply_event(b, f, Event::Update { id, old_data, new_data }), key_of(f, old_data@)).to_multiset()
            == bucket_of(b, key_of(f, old_data@)).to_multiset(),
        bucket_of(apply_event(b, f, Event::Update { id, old_data, new_data }), key_of(f, old_data@)).to_multiset().count(
            id,
        ) == 1,
        forall|k2: Seq<u8>|
            k2 != key_of(f, old_data@) ==> #[trigger] bucket_of(
                apply_event(b, f, Event::Update { id, old_data, new_data }),
                k2,
            ) == bucket_of(b, k2),
{
    broadcast use vstd::seq_lib::group_to_multiset_ensures;

    let k = key_of(f, old_data@);
    let s = bucket_of(b, k);
    let a = apply_event(b, f, Event::Update { id, old_data, new_data });
    s.lemma_multiset_has_no_duplicates();
    assert(s.to_multiset().count(id) > 0);
    if s.len() == 1 {
        assert(s[0] == id);
        assert(s =~= seq![id]);
        assert(bucket_of(a, k) =~= Seq::<u128>::empty().push(id));
        assert(bucket_of(a, k) =~= s);
    } else {
        let p = s.index_of(id);
        s.index_of_first_ensures(id);
        assert(bucket_of(a, k) == s.remove(p).push(id));
        assert(s.to_multiset().remove(id).insert(id) =~= s.to_multiset());
    }
}

fn apply_insert<F: Fn(&String) -> Vec<u8>>(
    store: &mut BucketStore,
    f: &F,
    id: u128,
    data: &String,
    Ghost(m): Ghost<Map<u128, Seq<char>>>,
)
    requires
        total_fn(*f),
        pure_fn(*f),
        consistent(*old(store), m, *f),
        !m.contains_key(id),
    ensures
        consistent(*final(store), m.insert(id, data@), *f),
        final(store)@ == file(old(store)@, key_of(*f, data@), id),
{
    let k = extract(f, data);
    let ghost o = *store;
    let ghost m2 = m.insert(id, data@);
    store.insert_id(k, id);
    proof {
        assert forall|q: Seq<u8>, x: u128| #[trigger]
            store.bucket(q).contains(x) <==> (m2.contains_key(x) && key_of(*f, m2[x]) == q) by {
            if q == k@ {
                assert(store.bucket(q) == o.bucket(q).push(id));
                if x != id {
                    assert(store.bucket(q).contains(x) ==> o.bucket(q).contains(x)) by {
                        if store.bucket(q).contains(x) {
                            let a = choose|a: int| 0 <= a < store.bucket(q).len() && store.bucket(q)[a] == x;
                            assert(o.bucket(q)[a] == x);
                        }
                    }
                    assert(o.bucket(q).contains(x) ==> store.bucket(q).contains(x)) by {
                        if o.bucket(q).contains(x) {
                            let a = choose|a: int| 0 <= a < o.bucket(q).len() && o.bucket(q)[a] == x;
                            assert(store.bucket(q)[a] == x);
                        }
                    }
                    assert(o.bucket(q).contains(x) <==> (m.contains_key(x) && key_of(*f, m[x]) == q));
                } else {
                    assert(store.bucket(q)[store.bucket(q).len() - 1] == id);
                }
            } else {
                assert(store.bucket(q) == o.bucket(q));
                assert(o.bucket(q).contains(x) <==> (m.contains_key(x) && key_of(*f, m[x]) == q));
            }
        }
    }
}

fn apply_remove<F: Fn(&String) -> Vec<u8>>(
    store: &mut BucketStore,
    f: &F,
    id: u128,
    data: &String,
    Ghost(m): Ghost<Map<u128, Seq<char>>>,
)
    requires
        total_fn(*f),
        pure_fn(*f),
        consistent(*old(store), m, *f),
        m.contains_key(id),
        m[id] == data@,
    ensures
        consistent(*final(store), m.remove(id), *f),
        final(store)@ == unfile(old(store)@, key_of(*f, data@), id),
{
    let k = extract(f, data);
    let ghost o = *store;
    let ghost m2 = m.remove(id);
    proof {
        o.lemma_wf();
        assert(o.bucket(k@).contains(id));
        if o.bucket(k@).len() == 1 {
            assert(o.bucket(k@) =~= seq![id]);
        }
        lemma_without(o.bucket(k@), id);
    }
    store.remove_id(&k, id);
    proof {
        assert forall|q: Seq<u8>, x: u128| #[trigger]
            store.bucket(q).contains(x) <==> (m2.contains_key(x) && key_of(*f, m2[x]) == q) by {
            assert(o.bucket(q).contains(x) <==> (m.contains_key(x) && key_of(*f, m[x]) == q));
            if q == k@ {
                if o.bucket(k@).len() == 1 {
                    assert(store.bucket(q) =~= Seq::<u128>::empty());
                    if o.bucket(q).contains(x) {
                        let a = choose|a: int| 0 <= a < o.bucket(q).len() && o.bucket(q)[a] == x;
                        assert(x == id);
                    }
                } else {
                    assert(store.bucket(q) == without(o.bucket(k@), id));
                }
            } else {
                assert(store.bucket(q) == o.bucket(q));
            }
        }
    }
}

/// One index: its name, its extractor, its buckets, and the events it has not
/// applied yet.
pub struct IndexInner<F> {
    name: String,
    key_func: F,
    store: BucketStore,
    log: Vec<Event>,
    base: Ghost<Map<u128, Seq<char>>>,
}

impl<F: Fn(&String) -> Vec<u8>> IndexInner<F> {
    /// The buckets fit the rows `base`, and the pending events lead from
    /// `base` to `rows`.
    pub closed spec fn inv(&self, rows: Map<u128, Seq<char>>) -> bool {
        &&& total_fn(self.key_func)
        &&& pure_fn(self.key_func)
        &&& consistent(self.store, self.base@, self.key_func)
        &&& valid_log(self.base@, self.log@)
        &&& replay(self.base@, self.log@) == rows
    }

    pub closed spec fn spec_name(&self) -> Seq<char> {
        self.name@
    }

    pub closed spec fn spec_key_func(&self) -> F {
        self.key_func
    }

    /// The events not applied yet, in order of publication.
    pub closed spec fn spec_log(&self) -> Seq<Event> {
        self.log@
    }

    pub closed spec fn pending(&self) -> nat {
        self.log@.len()
    }

    /// Key bytes → ids, for every bucket.
    pub closed spec fn spec_buckets(&self) -> Map<Seq<u8>, Seq<u128>> {
        self.store@
    }

    pub closed spec fn spec_bucket(&self, k: Seq<u8>) -> Seq<u128> {
        self.store.bucket(k)
    }

    /// With no event pending, the buckets file exactly the rows.
    pub proof fn lemma_drained(&self, rows: Map<u128, Seq<char>>)
        requires
            self.inv(rows),
            self.pending() == 0,
        ensures
            forall|k: Seq<u8>, id: u128| #[trigger]
                self.spec_bucket(k).contains(id) <==> (rows.contains_key(id) && key_of(
                    self.spec_key_func(),
                    rows[id],
                ) == k),
            forall|k: Seq<u8>| #[trigger] self.spec_bucket(k).no_duplicates(),
            forall|k: Seq<u8>| #[trigger] self.spec_buckets().contains_key(k) ==> self.spec_buckets()[k].len() > 0,
    {
        self.store.lemma_wf();
    }

    /// Applies every pending event, in the order of publication.
    fn commit_log(&mut self, Ghost(rows): Ghost<Map<u128, Seq<char>>>)
        requires
            old(self).inv(rows),
        ensures
            final(self).inv(rows),
            final(self).pending() == 0,
            final(self).name == old(self).name,
            final(self).key_func == old(self).key_func,
            final(self).spec_buckets() == drain(old(self).spec_buckets(), old(self).key_func, old(self).log@),
            old(self).pending() == 0 ==> *final(self) == *old(self),
    {
        if self.log.len() == 0 {
            return;
        }
        let ghost store0 = self.store@;
        let ghost base0 = self.base@;
        let ghost log0 = self.log@;
        let ghost name0 = self.name;
        let ghost f0 = self.key_func;
        let n = self.log.len();
        let mut j: usize = 0;
        while j < n
            invariant
                n == self.log@.len(),
                j <= n,
                self.log@ == log0,
                self.name == name0,
                self.key_func == f0,
                total_fn(self.key_func),
                pure_fn(self.key_func),
                valid_log(base0, log0),
                replay(base0, log0) == rows,
                consistent(self.store, replay(base0, log0.subrange(0, j as int)), self.key_func),
                self.store@ == drain(store0, f0, log0.subrange(0, j as int)),
            decreases n - j,
        {
            let ghost cur = replay(base0, log0.subrange(0, j as int));
            proof {
                lemma_log_prefix(base0, log0, j + 1);
                assert(log0.subrange(0, j + 1).drop_last() =~= log0.subrange(0, j as int));
                assert(valid_step(cur, log0[j as int]));
                assert(replay(base0, log0.subrange(0, j + 1)) == step(cur, log0[j as int]));
                assert(drain(store0, f0, log0.subrange(0, j + 1)) == apply_event(
                    drain(store0, f0, log0.subrange(0, j as int)),
                    f0,
                    log0[j as int],
                ));
            }
            match &self.log[j] {
                Event::Insert(r) => {
                    apply_insert(&mut self.store, &self.key_func, r.id, &r.data, Ghost(cur));
                },
                Event::Remove(r) => {
                    apply_remove(&mut self.store, &self.key_func, r.id, &r.data, Ghost(cur));
                },
                Event::Update { id, old_data, new_data } => {
                    apply_remove(&mut self.store, &self.key_func, *id, old_data, Ghost(cur));
                    proof {
                        assert(!cur.remove(*id).contains_key(*id));
                        assert(cur.remove(*id).insert(*id, new_data@) =~= cur.insert(*id, new_data@));
                    }
                    apply_insert(
                        &mut self.store,
                        &self.key_func,
                        *id,
                        new_data,
                        Ghost(cur.remove(*id)),
                    );
                },
            }
            j = j + 1;
        }
        proof {
            assert(log0.subrange(0, n as int) =~= log0);
            assert(drain(store0, f0, Seq::<Event>::empty()) == store0);
        }
        self.log = Vec::new();
        self.base = Ghost(rows);
        proof {
            assert(valid_log(rows, self.log@));
        }
    }

    /// Queues an event for the next read.
    fn publish(&mut self, e: Event, Ghost(rows): Ghost<Map<u128, Seq<char>>>)
        requires
            old(self).inv(rows),
            valid_step(rows, e),
        ensures
            final(self).inv(step(rows, e)),
            final(self).name == old(self).name,
            final(self).key_func == old(self).key_func,
            final(self).pending() == old(self).pending() + 1,
            final(self).log@ == old(self).log@.push(e),
            final(self).store == old(self).store,
    {
        let ghost log0 = self.log@;
        self.log.push(e);
        proof {
            assert(self.log@.drop_last() =~= log0);
        }
    }
}

impl Event {
    fn duplicate(&self) -> (r: Event)
        ensures
            r == *self,
    {
        match self {
            Event::Insert(rec) => Event::Insert(rec.duplicate()),
            Event::Remove(rec) => Event::Remove(rec.duplicate()),
            Event::Update { id, old_data, new_data } => Event::Update {
                id: *id,
                old_data: old_data.clone(),
                new_data: new_data.clone(),
            },
        }
    }
}

/// Buckets for the rows `rows`, listed in `all`.
fn build_store<F: Fn(&String) -> Vec<u8>>(
    f: &F,
    all: &Vec<Record>,
    Ghost(rows): Ghost<Map<u128, Seq<char>>>,
    Ghost(order): Ghost<Seq<(u128, Seq<char>)>>,
) -> (r: BucketStore)
    requires
        total_fn(*f),
        pure_fn(*f),
        order.len() == all@.len(),
        forall|j: int| 0 <= j < all@.len() ==> (#[trigger] all@[j].id, all@[j].data@) == order[j],
        forall|i: int|
            0 <= i < all@.len() ==> rows.contains_key(#[trigger] all@[i].id) && rows[all@[i].id]
                == all@[i].data@,
        forall|id: u128| #[trigger]
            rows.contains_key(id) ==> exists|i: int| 0 <= i < all@.len() && all@[i].id == id,
        forall|i: int, j: int| 0 <= i < j < all@.len() ==> #[trigger] all@[i].id != #[trigger] all@[j].id,
    ensures
        consistent(r, rows, *f),
        r@ == fill(Map::empty(), *f, order),
{
    let mut store = BucketStore::new();
    let mut j: usize = 0;
    proof {
        let part = Map::new(|id: u128| exists|a: int| 0 <= a < 0 && all@[a].id == id, |id: u128| rows[id]);
        assert(part =~= Map::<u128, Seq<char>>::empty());
        assert(order.subrange(0, 0) =~= Seq::<(u128, Seq<char>)>::empty());
    }
    while j < all.len()
        invariant
            j <= all@.len(),
            total_fn(*f),
            pure_fn(*f),
            forall|i: int|
                0 <= i < all@.len() ==> rows.contains_key(#[trigger] all@[i].id) && rows[all@[i].id]
                    == all@[i].data@,
            forall|i: int, k: int| 0 <= i < k < all@.len() ==> #[trigger] all@[i].id != #[trigger] all@[k].id,
            order.len() == all@.len(),
            forall|i: int| 0 <= i < all@.len() ==> (#[trigger] all@[i].id, all@[i].data@) == order[i],
            store@ == fill(Map::empty(), *f, order.subrange(0, j as int)),
            consistent(
                store,
                Map::new(|id: u128| exists|a: int| 0 <= a < j && all@[a].id == id, |id: u128| rows[id]),
                *f,
            ),
        decreases all@.len() - j,
    {
        let ghost part = Map::new(
            |id: u128| exists|a: int| 0 <= a < j && all@[a].id == id,
            |id: u128| rows[id],
        );
        let ghost next = Map::new(
            |id: u128| exists|a: int| 0 <= a < j + 1 && all@[a].id == id,
            |id: u128| rows[id],
        );
        proof {
            assert(!part.contains_key(all@[j as int].id)) by {
                if part.contains_key(all@[j as int].id) {
                    let a = choose|a: int| 0 <= a < j && all@[a].id == all@[j as int].id;
                    assert(all@[a].id != all@[j as int].id);
                }
            }
            assert(next =~= part.insert(all@[j as int].id, all@[j as int].data@)) by {
                assert forall|id: u128| next.contains_key(id) implies part.insert(
                    all@[j as int].id,
                    all@[j as int].data@,
                ).contains_key(id) by {
                    let a = choose|a: int| 0 <= a < j + 1 && all@[a].id == id;
                    if a < j {
                        assert(part.contains_key(id));
                    }
                }
                assert(next.contains_key(all@[j as int].id));
            }
        }
        proof {
            let sub = order.subrange(0, j + 1);
            assert(sub.drop_last() =~= order.subrange(0, j as int));
            assert((all@[j as int].id, all@[j as int].data@) == order[j as int]);
        }
        apply_insert(&mut store, f, all[j].id, &all[j].data, Ghost(part));
        j = j + 1;
    }
    proof {
        assert(order.subrange(0, j as int) =~= order);
        let part = Map::new(
            |id: u128| exists|a: int| 0 <= a < j && all@[a].id == id,
            |id: u128| rows[id],
        );
        assert(part =~= rows) by {
            assert forall|id: u128| rows.contains_key(id) implies part.contains_key(id) by {
                let a = choose|a: int| 0 <= a < all@.len() && all@[a].id == id;
            }
        }
    }
    store
}

/// Relies on uuid's `Uuid::new_v4`, a random version 4 id, read as an integer
/// through `Uuid::as_u128`. Nothing is known of the value.
#[verifier::external_body]
fn mint_id() -> (r: u128) {
    uuid::Uuid::new_v4().as_u128()
}

/// A named collection of string values, each under an id minted when it was
/// inserted, with the indexes made on it.
pub struct Table<F> {
    name: String,
    rows: RowStore,
    indexes: Vec<IndexInner<F>>,
}

/// `b` is `a` after reads only: the same rows and indexes, where an index
/// with no pending event is untouched.
pub open spec fn advanced<F: Fn(&String) -> Vec<u8>>(a: &Table<F>, b: &Table<F>) -> bool {
    &&& same_shape(a, b)
    &&& a.records() == b.records()
    &&& a.ordered() == b.ordered()
    &&& forall|i: int|
        0 <= i < a.index_count() && (#[trigger] a.index(i)).pending() == 0 ==> b.index(i) == a.index(i)
}

/// Same name, and the same indexes by name and extractor.
pub open spec fn same_shape<F: Fn(&String) -> Vec<u8>>(a: &Table<F>, b: &Table<F>) -> bool {
    &&& a.spec_name() == b.spec_name()
    &&& a.index_count() == b.index_count()
    &&& forall|i: int|
        0 <= i < a.index_count() ==> (#[trigger] b.index(i)).spec_name() == a.index(i).spec_name()
            && b.index(i).spec_key_func() == a.index(i).spec_key_func()
}

/// Where every id of `ids` held in `m` gets the data `d`.
pub open spec fn overwrite(m: Map<u128, Seq<char>>, ids: Seq<u128>, d: Seq<char>) -> Map<
    u128,
    Seq<char>,
> {
    Map::new(|id: u128| m.contains_key(id), |id: u128| if ids.contains(id) { d } else { m[id] })
}

/// The ids of `ids` that `m` holds, in order.
pub open spec fn present(ids: Seq<u128>, m: Map<u128, Seq<char>>) -> Seq<u128>
    decreases ids.len(),
{
    if ids.len() == 0 {
        Seq::empty()
    } else if m.contains_key(ids.last()) {
        present(ids.drop_last(), m).push(ids.last())
    } else {
        present(ids.drop_last(), m)
    }
}

proof fn lemma_listing(rows: &RowStore, all: Seq<Record>)
    requires
        rows.wf(),
        all.len() == rows.ordered().len(),
        forall|j: int| 0 <= j < all.len() ==> (#[trigger] all[j].id, all[j].data@) == rows.ordered()[j],
    ensures
        forall|i: int|
            0 <= i < all.len() ==> rows@.contains_key(#[trigger] all[i].id) && rows@[all[i].id]
                == all[i].data@,
        forall|id: u128| #[trigger]
            rows@.contains_key(id) ==> exists|i: int| 0 <= i < all.len() && all[i].id == id,
        forall|i: int, j: int| 0 <= i < j < all.len() ==> #[trigger] all[i].id != #[trigger] all[j].id,
{
    rows.lemma_ordered();
    assert forall|i: int| 0 <= i < all.len() implies rows@.contains_key(#[trigger] all[i].id)
        && rows@[all[i].id] == all[i].data@ by {
        assert((all[i].id, all[i].data@) == rows.ordered()[i]);
        assert(rows@.contains_key(rows.ordered()[i].0));
    }
    assert forall|id: u128| #[trigger] rows@.contains_key(id) implies exists|i: int|
        0 <= i < all.len() && all[i].id == id by {
        let i = choose|i: int| 0 <= i < rows.ordered().len() && rows.ordered()[i].0 == id;
        assert((all[i].id, all[i].data@) == rows.ordered()[i]);
    }
    assert forall|i: int, j: int| 0 <= i < j < all.len() implies #[trigger] all[i].id
        != #[trigger] all[j].id by {
        assert((all[i].id, all[i].data@) == rows.ordered()[i]);
        assert((all[j].id, all[j].data@) == rows.ordered()[j]);
        assert(rows.ordered()[i].0 != rows.ordered()[j].0);
    }
}

/// Once an index has applied its events, every record whose data has the
/// key `k` is filed under `k`.
pub proof fn lemma_complete<F: Fn(&String) -> Vec<u8>>(t: &Table<F>, i: int, k: Seq<u8>)
    requires
        t.wf(),
        0 <= i < t.index_count(),
        t.index(i).pending() == 0,
    ensures
        forall|id: u128|
            t.records().contains_key(id) && key_of(t.index(i).spec_key_func(), t.records()[id]) == k
                ==> #[trigger] t.index(i).spec_bucket(k).contains(id),
{
    t.lemma_index_drained(i);
}

/// Once an index has applied its events, an id that the table no longer
/// holds is in no bucket.
pub proof fn lemma_removed_unfiled<F: Fn(&String) -> Vec<u8>>(t: &Table<F>, i: int, id: u128)
    requires
        t.wf(),
        0 <= i < t.index_count(),
        t.index(i).pending() == 0,
        !t.records().contains_key(id),
    ensures
        forall|k: Seq<u8>| !(#[trigger] t.index(i).spec_bucket(k)).contains(id),
{
    t.lemma_index_drained(i);
}

/// Once an index has applied its events, a held record is filed exactly
/// once, under the key of its current data, and under no other key.
pub proof fn lemma_filed_once<F: Fn(&String) -> Vec<u8>>(t: &Table<F>, i: int, id: u128)
    requires
        t.wf(),
        0 <= i < t.index_count(),
        t.index(i).pending() == 0,
        t.records().contains_key(id),
    ensures
        t.index(i).spec_bucket(key_of(t.index(i).spec_key_func(), t.records()[id])).contains(id),
        t.index(i).spec_bucket(key_of(t.index(i).spec_key_func(), t.records()[id])).no_duplicates(),
        forall|k: Seq<u8>|
            k != key_of(t.index(i).spec_key_func(), t.records()[id]) ==> !(#[trigger] t.index(
                i,
            ).spec_bucket(k)).contains(id),
{
    t.lemma_index_drained(i);
}

/// Once an index has applied its events, no key it holds has an empty
/// bucket.
pub proof fn lemma_no_empty_bucket<F: Fn(&String) -> Vec<u8>>(t: &Table<F>, i: int)
    requires
        t.wf(),
        0 <= i < t.index_count(),
        t.index(i).pending() == 0,
    ensures
        forall|k: Seq<u8>| #[trigger]
            t.index(i).spec_buckets().contains_key(k) ==> t.index(i).spec_buckets()[k].len() > 0,
{
    t.lemma_index_drained(i);
}

/// Reads after an index has applied its events find the same bucket: two
/// selects with one key, with no write between them, return the same ids.
pub proof fn lemma_select_stable<F: Fn(&String) -> Vec<u8>>(
    a: &Table<F>,
    b: &Table<F>,
    i: int,
    k: Seq<u8>,
)
    requires
        advanced(a, b),
        0 <= i < a.index_count(),
        a.index(i).pending() == 0,
    ensures
        b.index(i).pending() == 0,
        b.index(i).spec_bucket(k) == a.index(i).spec_bucket(k),
{
    assert(b.index(i) == a.index(i));
}

/// The records of a table have distinct ids, as `load` asks of the
/// records that it owes back.
pub proof fn lemma_distinct_ids<F: Fn(&String) -> Vec<u8>>(t: &Table<F>)
    requires
        t.wf(),
    ensures
        distinct_ids(t.ordered()),
{
    t.rows.lemma_ordered();
}

/// Having the same shape is transitive.
pub proof fn lemma_same_shape_trans<F: Fn(&String) -> Vec<u8>>(a: &Table<F>, b: &Table<F>, c: &Table<F>)
    requires
        same_shape(a, b),
        same_shape(b, c),
    ensures
        same_shape(a, c),
{
    assert forall|i: int| 0 <= i < a.index_count() implies (#[trigger] c.index(i)).spec_name()
        == a.index(i).spec_name() && c.index(i).spec_key_func() == a.index(i).spec_key_func() by {
        assert(b.index(i).spec_name() == a.index(i).spec_name());
    }
}

impl<F: Fn(&String) -> Vec<u8>> Table<F> {
    /// The rows are well formed and every index is consistent with them
    /// once its pending events are applied.
    pub closed spec fn wf(&self) -> bool {
        &&& self.rows.wf()
        &&& forall|i: int|
            0 <= i < self.indexes@.len() ==> (#[trigger] self.indexes@[i]).inv(self.rows@)
    }

    /// Id → data of every record.
    pub closed spec fn records(&self) -> Map<u128, Seq<char>> {
        self.rows@
    }

    /// The records in insertion order.
    pub closed spec fn ordered(&self) -> Seq<(u128, Seq<char>)> {
        self.rows.ordered()
    }

    pub closed spec fn spec_name(&self) -> Seq<char> {
        self.name@
    }

    pub closed spec fn index_count(&self) -> nat {
        self.indexes@.len()
    }

    pub closed spec fn index(&self, i: int) -> IndexInner<F> {
        self.indexes@[i]
    }

    /// What holds of an index with no pending event: each record is filed
    /// once, under the key of its data, and nothing else is filed; no bucket
    /// is empty.
    pub proof fn lemma_index_drained(&self, i: int)
        requires
            self.wf(),
            0 <= i < self.index_count(),
            self.index(i).pending() == 0,
        ensures
            forall|k: Seq<u8>, id: u128| #[trigger]
                self.index(i).spec_bucket(k).contains(id) <==> (self.records().contains_key(id)
                    && key_of(self.index(i).spec_key_func(), self.records()[id]) == k),
            forall|k: Seq<u8>| #[trigger] self.index(i).spec_bucket(k).no_duplicates(),
            forall|k: Seq<u8>| #[trigger]
                self.index(i).spec_buckets().contains_key(k) ==> self.index(i).spec_buckets()[k].len()
                    > 0,
    {
        self.indexes@[i].lemma_drained(self.rows@);
    }

    /// An empty table with no index.
    pub fn new(name: String) -> (r: Self)
        ensures
            r.wf(),
            r.spec_name() == name@,
            r.records() == Map::<u128, Seq<char>>::empty(),
            r.index_count() == 0,
    {
        Table { name, rows: RowStore::new(), indexes: Vec::new() }
    }

    /// The table's name.
    pub fn name(&self) -> (r: String)
        ensures
            r@ == self.spec_name(),
    {
        self.name.clone()
    }

    fn publish_all(&mut self, e: Event, Ghost(m): Ghost<Map<u128, Seq<char>>>)
        requires
            forall|i: int| 0 <= i < old(self).indexes@.len() ==> (#[trigger] old(self).indexes@[i]).inv(m),
            valid_step(m, e),
        ensures
            forall|i: int|
                0 <= i < final(self).indexes@.len() ==> (#[trigger] final(self).indexes@[i]).inv(
                    step(m, e),
                ),
            final(self).indexes@.len() == old(self).indexes@.len(),
            forall|i: int|
                0 <= i < old(self).indexes@.len() ==> (#[trigger] final(self).indexes@[i]).spec_name()
                    == old(self).indexes@[i].spec_name() && final(self).indexes@[i].spec_key_func()
                    == old(self).indexes@[i].spec_key_func(),
            final(self).name == old(self).name,
            final(self).rows == old(self).rows,
            forall|i: int|
                0 <= i < old(self).indexes@.len() ==> (#[trigger] final(self).indexes@[i]).log@
                    == old(self).indexes@[i].log@.push(e) && final(self).indexes@[i].store
                    == old(self).indexes@[i].store,
    {
        let ghost o = *self;
        let n = self.indexes.len();
        let mut j: usize = 0;
        while j < n
            invariant
                n == self.indexes@.len(),
                n == o.indexes@.len(),
                j <= n,
                valid_step(m, e),
                self.name == o.name,
                self.rows == o.rows,
                forall|i: int| 0 <= i < j ==> (#[trigger] self.indexes@[i]).inv(step(m, e)),
                forall|i: int| j <= i < n ==> #[trigger] self.indexes@[i] == o.indexes@[i],
                forall|i: int|
                    0 <= i < j ==> (#[trigger] self.indexes@[i]).log@ == o.indexes@[i].log@.push(e)
                        && self.indexes@[i].store == o.indexes@[i].store,
                forall|i: int| 0 <= i < n ==> (#[trigger] o.indexes@[i]).inv(m),
                forall|i: int|
                    0 <= i < n ==> (#[trigger] self.indexes@[i]).spec_name() == o.indexes@[i].spec_name()
                        && self.indexes@[i].spec_key_func() == o.indexes@[i].spec_key_func(),
            decreases n - j,
        {
            let mut ix = self.indexes.remove(j);
            ix.publish(e.duplicate(), Ghost(m));
            self.indexes.insert(j, ix);
            j = j + 1;
        }
    }

    /// Stores `data` under a freshly minted id and queues the insertion for
    /// every index. Fails with `Duplicate` when the minted id is already held,
    /// which cannot happen on an empty table.
    pub fn insert(&mut self, data: String) -> (r: DbResult<u128>)
        requires
            old(self).wf(),
        ensures
            final(self).wf(),
            same_shape(old(self), final(self)),
            old(self).records() == Map::<u128, Seq<char>>::empty() ==> r is Ok,
            match r {
                Ok(id) => !old(self).records().contains_key(id) && final(self).records()
                    == old(self).records().insert(id, data@) && final(self).ordered()
                    == old(self).ordered().push((id, data@)),
                Err(e) => e is Duplicate && final(self).records() == old(self).records()
                    && final(self).ordered() == old(self).ordered(),
            },
    {
        let id = mint_id();
        self.insert_with_id(id, data)
    }

    /// Stores `data` under `id` and queues the insertion for every index.
    /// Fails with `Duplicate`, changing nothing, when `id` is already held.
    pub fn insert_with_id(&mut self, id: u128, data: String) -> (r: DbResult<u128>)
        requires
            old(self).wf(),
        ensures
            final(self).wf(),
            same_shape(old(self), final(self)),
            r is Ok <==> !old(self).records().contains_key(id),
            match r {
                Ok(x) => x == id && final(self).records() == old(self).records().insert(id, data@)
                    && final(self).ordered() == old(self).ordered().push((id, data@)) && forall|i: int|
                    0 <= i < old(self).index_count() ==> (#[trigger] final(self).index(i)).spec_log()
                        == old(self).index(i).spec_log().push(Event::Insert(Record { id, data }))
                        && final(self).index(i).spec_buckets() == old(self).index(i).spec_buckets(),
                Err(e) => e is Duplicate && *final(self) == *old(self),
            },
    {
        if self.rows.get(id).is_some() {
            return Err(TinyBaseError::Duplicate("record id".to_string()));
        }
        let ghost m = self.rows@;
        self.rows.push(Record { id, data: data.clone() });
        self.publish_all(Event::Insert(Record { id, data }), Ghost(m));
        Ok(id)
    }

    /// Gives every held id of `ids` the data `data`, queues each change for
    /// every index, and returns the changed records. Ids not held are
    /// skipped.
    pub fn update(&mut self, ids: &Vec<u128>, data: String) -> (r: DbResult<Vec<Record>>)
        requires
            old(self).wf(),
        ensures
            final(self).wf(),
            same_shape(old(self), final(self)),
            final(self).records() == overwrite(old(self).records(), ids@, data@),
            match r {
                Ok(v) => ids_of(v@) == present(ids@, old(self).records()) && forall|j: int|
                    0 <= j < v@.len() ==> (#[trigger] v@[j]).data@ == data@,
                Err(_) => false,
            },
    {
        let ghost m0 = self.rows@;
        let mut out: Vec<Record> = Vec::new();
        let mut j: usize = 0;
        proof {
            assert(overwrite(m0, ids@.subrange(0, 0), data@) =~= m0);
            assert(ids_of(out@) =~= present(ids@.subrange(0, 0), m0));
        }
        while j < ids.len()
            invariant
                j <= ids@.len(),
                self.rows.wf(),
                forall|i: int| 0 <= i < self.indexes@.len() ==> (#[trigger] self.indexes@[i]).inv(self.rows@),
                same_shape(old(self), self),
                self.rows@ == overwrite(m0, ids@.subrange(0, j as int), data@),
                ids_of(out@) == present(ids@.subrange(0, j as int), m0),
                forall|a: int| 0 <= a < out@.len() ==> (#[trigger] out@[a]).data@ == data@,
            decreases ids@.len() - j,
        {
            let id = ids[j];
            let ghost m = self.rows@;
            let ghost prev = *self;
            let ghost sub = ids@.subrange(0, j + 1);
            proof {
                assert(sub.drop_last() =~= ids@.subrange(0, j as int));
                assert(sub.last() == id);
            }
            match self.rows.replace(id, data.clone()) {
                Some(old_data) => {
                    self.publish_all(
                        Event::Update { id, old_data, new_data: data.clone() },
                        Ghost(m),
                    );
                    out.push(Record { id, data: data.clone() });
                    proof {
                        assert(same_shape(&prev, self));
                        lemma_same_shape_trans(old(self), &prev, self);
                        assert(self.rows@ =~= overwrite(m0, sub, data@));
                        assert(ids_of(out@) =~= present(sub, m0));
                    }
                },
                None => {
                    proof {
                        assert(same_shape(&prev, self));
                        lemma_same_shape_trans(old(self), &prev, self);
                        assert(self.rows@ =~= overwrite(m0, sub, data@));
                    }
                },
            }
            j = j + 1;
        }
        proof {
            assert(ids@.subrange(0, j as int) =~= ids@);
        }
        Ok(out)
    }

    /// Removes the record with this id, queues the removal for every index,
    /// and returns it; `None` where the id is not held.
    pub fn delete(&mut self, id: u128) -> (r: DbResult<Option<Record>>)
        requires
            old(self).wf(),
        ensures
            final(self).wf(),
            same_shape(old(self), final(self)),
            match r {
                Ok(Some(rec)) => old(self).records().contains_key(id) && rec.id == id && rec.data@
                    == old(self).records()[id] && final(self).records() == old(self).records().remove(id)
                    && forall|i: int|
                    0 <= i < old(self).index_count() ==> (#[trigger] final(self).index(i)).spec_log()
                        == old(self).index(i).spec_log().push(Event::Remove(rec))
                        && final(self).index(i).spec_buckets() == old(self).index(i).spec_buckets(),
                Ok(None) => !old(self).records().contains_key(id) && final(self).records()
                    == old(self).records(),
                Err(_) => false,
            },
    {
        let ghost m = self.rows@;
        match self.rows.take(id) {
            Some(rec) => {
                self.publish_all(Event::Remove(rec.duplicate()), Ghost(m));
                Ok(Some(rec))
            },
            None => Ok(None),
        }
    }

    /// The record with this id, if there is one.
    pub fn get(&self, id: u128) -> (r: DbResult<Option<Record>>)
        requires
            self.wf(),
        ensures
            match r {
                Ok(Some(rec)) => self.records().contains_key(id) && rec.id == id && rec.data@
                    == self.records()[id],
                Ok(None) => !self.records().contains_key(id),
                Err(_) => false,
            },
    {
        Ok(self.rows.get(id))
    }

    /// `ix` was made on this table: its slot holds an index of its name.
    pub open spec fn owns(&self, ix: &Index) -> bool {
        ix.spec_slot() < self.index_count() && self.index(ix.spec_slot() as int).spec_name()
            == ix.spec_name()
    }

    fn check_handle(&self, ix: &Index) -> (r: bool)
        ensures
            r == self.owns(ix),
    {
        ix.slot < self.indexes.len() && self.indexes[ix.slot].name == ix.name
    }

    /// `n` is the table's name or the name of one of its indexes.
    pub open spec fn name_taken(&self, n: Seq<char>) -> bool {
        n == self.spec_name() || exists|i: int|
            0 <= i < self.index_count() && (#[trigger] self.index(i)).spec_name() == n
    }

    /// Makes an index named `name` that files each record under
    /// `key_func(data)`, and fills it from the records already held. Fails
    /// with `Duplicate` when the name is taken.
    pub fn create_index(&mut self, name: String, key_func: F) -> (r: DbResult<Index>)
        requires
            old(self).wf(),
            total_fn(key_func),
            pure_fn(key_func),
        ensures
            final(self).wf(),
            old(self).name_taken(name@) <==> r is Err,
            match r {
                Ok(ix) => {
                    &&& ix.spec_slot() == old(self).index_count()
                    &&& ix.spec_name() == name@
                    &&& final(self).spec_name() == old(self).spec_name()
                    &&& final(self).index_count() == old(self).index_count() + 1
                    &&& final(self).records() == old(self).records()
                    &&& final(self).ordered() == old(self).ordered()
                    &&& forall|i: int|
                        0 <= i < old(self).index_count() ==> #[trigger] final(self).index(i)
                            == old(self).index(i)
                    &&& final(self).index(ix.spec_slot() as int).spec_name() == name@
                    &&& final(self).index(ix.spec_slot() as int).spec_key_func() == key_func
                    &&& final(self).index(ix.spec_slot() as int).pending() == 0
                    &&& final(self).index(ix.spec_slot() as int).spec_buckets() == fill(
                        Map::empty(),
                        key_func,
                        old(self).ordered(),
                    )
                },
                Err(e) => (e matches TinyBaseError::Duplicate(n) && n@ == name@) && *final(self)
                    == *old(self),
            },
    {
        if self.name == name {
            return Err(TinyBaseError::Duplicate(name));
        }
        let n = self.indexes.len();
        let mut i: usize = 0;
        while i < n
            invariant
                n == self.indexes@.len(),
                i <= n,
                name@ != self.spec_name(),
                self.wf(),
                *self == *old(self),
                forall|a: int| 0 <= a < i ==> (#[trigger] self.index(a)).spec_name() != name@,
            decreases n - i,
        {
            if self.indexes[i].name == name {
                assert(self.index(i as int).spec_name() == name@);
                return Err(TinyBaseError::Duplicate(name));
            }
            i = i + 1;
        }
        let ghost m = self.rows@;
        let all = self.rows.all();
        proof {
            lemma_listing(&self.rows, all@);
        }
        let store = build_store(&key_func, &all, Ghost(m), Ghost(self.rows.ordered()));
        let ix = IndexInner {
            name: name.clone(),
            key_func,
            store,
            log: Vec::new(),
            base: Ghost(m),
        };
        let ghost o = self.indexes@;
        self.indexes.push(ix);
        proof {
            assert(valid_log(m, Seq::<Event>::empty()));
            assert(self.indexes@[n as int].inv(m));
            assert forall|a: int| 0 <= a < self.indexes@.len() implies (#[trigger] self.indexes@[a]).inv(
                self.rows@,
            ) by {
                if a < n {
                    assert(self.indexes@[a] == o[a]);
                }
            }
        }
        Ok(Index { slot: n, name })
    }

    /// The records with these ids, in the same order.
    fn hydrate(&self, ids: &Vec<u128>) -> (r: Vec<Record>)
        requires
            self.rows.wf(),
            forall|j: int| 0 <= j < ids@.len() ==> self.rows@.contains_key(#[trigger] ids@[j]),
        ensures
            ids_of(r@) == ids@,
            forall|j: int| 0 <= j < r@.len() ==> self.rows@.contains_key((#[trigger] r@[j]).id),
            forall|j: int| 0 <= j < r@.len() ==> (#[trigger] r@[j]).data@ == self.rows@[r@[j].id],
    {
        let mut out: Vec<Record> = Vec::new();
        let mut j: usize = 0;
        while j < ids.len()
            invariant
                j <= ids@.len(),
                self.rows.wf(),
                forall|a: int| 0 <= a < ids@.len() ==> self.rows@.contains_key(#[trigger] ids@[a]),
                ids_of(out@) == ids@.subrange(0, j as int),
                forall|a: int| 0 <= a < out@.len() ==> self.rows@.contains_key((#[trigger] out@[a]).id),
                forall|a: int| 0 <= a < out@.len() ==> (#[trigger] out@[a]).data@ == self.rows@[out@[a].id],
            decreases ids@.len() - j,
        {
            let ghost prev = out@;
            match self.rows.get(ids[j]) {
                Some(rec) => {
                    out.push(rec);
                    proof {
                        lemma_ids_push(prev, rec);
                        assert(ids@.subrange(0, j + 1) =~= ids@.subrange(0, j as int).push(ids@[j as int]));
                    }
                },
                None => {
                    assert(self.rows@.contains_key(ids@[j as int]));
                },
            }
            j = j + 1;
        }
        assert(ids@.subrange(0, j as int) =~= ids@);
        out
    }

    /// Applies the pending events of the index at `slot`, then returns the
    /// records filed under `key`, in filing order.
    pub(crate) fn search(&mut self, slot: usize, key: &Vec<u8>) -> (r: DbResult<Vec<Record>>)
        requires
            old(self).wf(),
        ensures
            final(self).wf(),
            slot >= old(self).index_count() ==> *final(self) == *old(self) && r matches Err(
                TinyBaseError::QueryBuilder(_),
            ),
            slot < old(self).index_count() ==> {
                &&& advanced(old(self), final(self))
                &&& final(self).index(slot as int).pending() == 0
                &&& final(self).index(slot as int).spec_buckets() == drain(
                    old(self).index(slot as int).spec_buckets(),
                    old(self).index(slot as int).spec_key_func(),
                    old(self).index(slot as int).spec_log(),
                )
                &&& r matches Ok(v) && ids_of(v@) == final(self).index(slot as int).spec_bucket(key@)
                    && forall|j: int|
                    0 <= j < v@.len() ==> final(self).records().contains_key((#[trigger] v@[j]).id)
                        && v@[j].data@ == final(self).records()[v@[j].id]
            },
    {
        if slot >= self.indexes.len() {
            return Err(TinyBaseError::QueryBuilder("the index belongs to another table".to_string()));
        }
        let ghost o = *self;
        let ghost m = self.rows@;
        let mut ix = self.indexes.remove(slot);
        ix.commit_log(Ghost(m));
        let ids = ix.store.lookup(key);
        proof {
            ix.lemma_drained(m);
            assert forall|j: int| 0 <= j < ids@.len() implies m.contains_key(#[trigger] ids@[j]) by {
                assert(ix.spec_bucket(key@).contains(ids@[j]));
            }
        }
        self.indexes.insert(slot, ix);
        proof {
            assert forall|i: int| 0 <= i < o.index_count() && (#[trigger] o.index(i)).pending() == 0
                implies self.index(i) == o.index(i) by {}
            assert(same_shape(&o, self));
        }
        Ok(self.hydrate(&ids))
    }

    /// Whether the index at `slot` files any record under the key of
    /// `record`'s data.
    pub(crate) fn record_exists(&mut self, slot: usize, record: &Record) -> (r: DbResult<bool>)
        requires
            old(self).wf(),
        ensures
            final(self).wf(),
            slot >= old(self).index_count() ==> *final(self) == *old(self) && r matches Err(
                TinyBaseError::QueryBuilder(_),
            ),
            slot < old(self).index_count() ==> {
                &&& advanced(old(self), final(self))
                &&& final(self).index(slot as int).pending() == 0
                &&& final(self).index(slot as int).spec_buckets() == drain(
                    old(self).index(slot as int).spec_buckets(),
                    old(self).index(slot as int).spec_key_func(),
                    old(self).index(slot as int).spec_log(),
                )
                &&& r matches Ok(b) && b == (final(self).index(slot as int).spec_bucket(
                    key_of(final(self).index(slot as int).spec_key_func(), record.data@),
                ).len() > 0)
            },
    {
        if slot >= self.indexes.len() {
            return Err(TinyBaseError::QueryBuilder("the index belongs to another table".to_string()));
        }
        let key = extract(&self.indexes[slot].key_func, &record.data);
        let found = self.search(slot, &key);
        match found {
            Ok(v) => Ok(v.len() > 0),
            Err(e) => Err(e),
        }
    }

    /// Rebuilds the index at `slot` from the records, dropping its pending
    /// events.
    pub(crate) fn resync(&mut self, slot: usize) -> (r: DbResult<()>)
        requires
            old(self).wf(),
        ensures
            final(self).wf(),
            slot >= old(self).index_count() ==> *final(self) == *old(self) && r matches Err(
                TinyBaseError::QueryBuilder(_),
            ),
            slot < old(self).index_count() ==> {
                &&& r is Ok
                &&& same_shape(old(self), final(self))
                &&& final(self).records() == old(self).records()
                &&& final(self).ordered() == old(self).ordered()
                &&& final(self).index(slot as int).pending() == 0
                &&& final(self).index(slot as int).spec_buckets() == fill(
                    Map::empty(),
                    old(self).index(slot as int).spec_key_func(),
                    old(self).ordered(),
                )
                &&& forall|i: int|
                    0 <= i < old(self).index_count() && i != slot ==> #[trigger] final(self).index(i)
                        == old(self).index(i)
            },
    {
        if slot >= self.indexes.len() {
            return Err(TinyBaseError::QueryBuilder("the index belongs to another table".to_string()));
        }
        let ghost o = *self;
        let ghost m = self.rows@;
        let all = self.rows.all();
        proof {
            lemma_listing(&self.rows, all@);
        }
        let mut ix = self.indexes.remove(slot);
        ix.store = build_store(&ix.key_func, &all, Ghost(m), Ghost(self.rows.ordered()));
        ix.log = Vec::new();
        ix.base = Ghost(m);
        self.indexes.insert(slot, ix);
        proof {
            assert(self.indexes@[slot as int].inv(m));
            assert(same_shape(&o, self));
        }
        Ok(())
    }

    /// Each record as the pair (encoded id, encoded data), in insertion
    /// order: the layout of a table's stored rows.
    pub fn export(&self) -> (r: DbResult<Vec<(Vec<u8>, Vec<u8>)>>)
        requires
            self.wf(),
        ensures
            match r {
                Ok(v) => encodes(v@, self.ordered()),
                Err(_) => false,
            },
    {
        let all = self.rows.all();
        let mut out: Vec<(Vec<u8>, Vec<u8>)> = Vec::new();
        let mut i: usize = 0;
        while i < all.len()
            invariant
                i <= all@.len(),
                all@.len() == self.ordered().len(),
                forall|j: int| 0 <= j < all@.len() ==> (#[trigger] all@[j].id, all@[j].data@) == self.ordered()[j],
                out@.len() == i,
                forall|j: int|
                    0 <= j < i ==> (#[trigger] out@[j]).0@ == id_code(self.ordered()[j].0) && out@[j].1@
                        == text_code(self.ordered()[j].1),
            decreases all@.len() - i,
        {
            let k = match encode_id(all[i].id) {
                Some(b) => b,
                None => {
                    return Err(TinyBaseError::Codec("an id could not be encoded".to_string()));
                },
            };
            let v = match encode_text(&all[i].data) {
                Some(b) => b,
                None => {
                    return Err(TinyBaseError::Codec("a value could not be encoded".to_string()));
                },
            };
            proof {
                assert((all@[i as int].id, all@[i as int].data@) == self.ordered()[i as int]);
            }
            out.push((k, v));
            i = i + 1;
        }
        Ok(out)
    }

    /// A table named `name`, with no index, holding in order the records
    /// that `pairs` encode. Fails with `Codec` where a pair does not decode,
    /// and with `Duplicate` where an id comes twice; it succeeds whenever
    /// `pairs` encodes records with distinct ids.
    pub fn load(name: String, pairs: &Vec<(Vec<u8>, Vec<u8>)>) -> (r: DbResult<Self>)
        ensures
            match r {
                Ok(t) => t.wf() && t.spec_name() == name@ && t.index_count() == 0 && t.ordered().len()
                    == pairs@.len(),
                Err(e) => e is Codec || e is Duplicate,
            },
            forall|s: Seq<(u128, Seq<char>)>|
                #[trigger] encodes(pairs@, s) && distinct_ids(s) ==> (r matches Ok(t) && t.ordered() == s),
    {
        let mut t = Table { name, rows: RowStore::new(), indexes: Vec::new() };
        let mut i: usize = 0;
        while i < pairs.len()
            invariant
                i <= pairs@.len(),
                t.wf(),
                t.spec_name() == name@,
                t.index_count() == 0,
                t.ordered().len() == i,
                forall|j: int, x: u128|
                    0 <= j < i && (#[trigger] pairs@[j]).0@ == #[trigger] id_code(x) ==> t.ordered()[j].0 == x,
                forall|j: int, y: Seq<char>|
                    0 <= j < i && (#[trigger] pairs@[j]).1@ == #[trigger] text_code(y) ==> t.ordered()[j].1 == y,
            decreases pairs@.len() - i,
        {
            let id = match decode_id(&pairs[i].0) {
                Some(x) => x,
                None => {
                    proof {
                        assert forall|s: Seq<(u128, Seq<char>)>| !#[trigger] encodes(pairs@, s) by {
                            if encodes(pairs@, s) {
                                assert(pairs@[i as int].0@ == id_code(s[i as int].0));
                            }
                        }
                    }
                    return Err(TinyBaseError::Codec("a stored id does not decode".to_string()));
                },
            };
            let data = match decode_text(&pairs[i].1) {
                Some(x) => x,
                None => {
                    proof {
                        assert forall|s: Seq<(u128, Seq<char>)>| !#[trigger] encodes(pairs@, s) by {
                            if encodes(pairs@, s) {
                                assert(pairs@[i as int].1@ == text_code(s[i as int].1));
                            }
                        }
                    }
                    return Err(TinyBaseError::Codec("a stored value does not decode".to_string()));
                },
            };
            if t.rows.get(id).is_some() {
                proof {
                    t.rows.lemma_ordered();
                    let k = choose|k: int| 0 <= k < t.ordered().len() && t.ordered()[k].0 == id;
                    assert forall|s: Seq<(u128, Seq<char>)>|
                        #[trigger] encodes(pairs@, s) implies !distinct_ids(s) by {
                        assert(pairs@[i as int].0@ == id_code(s[i as int].0));
                        assert(pairs@[k].0@ == id_code(s[k].0));
                        assert(s[k].0 == t.ordered()[k].0);
                        assert(s[i as int].0 == id);
                    }
                }
                return Err(TinyBaseError::Duplicate("a stored id comes twice".to_string()));
            }
            let ghost before = t.ordered();
            t.rows.push(Record { id, data });
            proof {
                assert(t.ordered() == before.push((id, data@)));
                assert forall|a: int| 0 <= a < t.index_count() implies (#[trigger] t.indexes@[a]).inv(t.rows@) by {}
            }
            i = i + 1;
        }
        proof {
            assert forall|s: Seq<(u128, Seq<char>)>|
                #[trigger] encodes(pairs@, s) && distinct_ids(s) implies t.ordered() == s by {
                assert forall|j: int| 0 <= j < s.len() implies t.ordered()[j] == s[j] by {
                    assert(pairs@[j].0@ == id_code(s[j].0));
                    assert(pairs@[j].1@ == text_code(s[j].1));
                }
                assert(t.ordered() =~= s);
            }
        }
        Ok(t)
    }

    /// Every record, in insertion order.
    pub fn iter(&self) -> (r: DbResult<Vec<Record>>)
        ensures
            match r {
                Ok(v) => v@.len() == self.ordered().len() && forall|j: int|
                    0 <= j < v@.len() ==> (#[trigger] v@[j].id, v@[j].data@) == self.ordered()[j],
                Err(_) => false,
            },
    {
        Ok(self.rows.all())
    }
}

/// The index at `slot` of the table it was made on.
#[derive(Debug)]
pub struct Index {
    slot: usize,
    name: String,
}

impl Index {
    pub closed spec fn spec_slot(&self) -> nat {
        self.slot as nat
    }

    pub closed spec fn spec_name(&self) -> Seq<char> {
        self.name@
    }

    /// Applies the events that `table` queued for this index, then returns
    /// the records filed under `query`, in filing order. Fails with
    /// `QueryBuilder` when the index was not made on `table`.
    pub fn select<F: Fn(&String) -> Vec<u8>>(&self, table: &mut Table<F>, query: &Vec<u8>) -> (r:
        DbResult<Vec<Record>>)
        requires
            old(table).wf(),
        ensures
            final(table).wf(),
            !old(table).owns(self) ==> *final(table) == *old(table)
                && r matches Err(TinyBaseError::QueryBuilder(_)),
            old(table).owns(self) ==> {
                &&& advanced(old(table), final(table))
                &&& final(table).index(self.spec_slot() as int).pending() == 0
                &&& final(table).index(self.spec_slot() as int).spec_buckets() == drain(
                    old(table).index(self.spec_slot() as int).spec_buckets(),
                    old(table).index(self.spec_slot() as int).spec_key_func(),
                    old(table).index(self.spec_slot() as int).spec_log(),
                )
                &&& r matches Ok(v) && ids_of(v@) == final(table).index(
                    self.spec_slot() as int,
                ).spec_bucket(query@) && forall|j: int|
                    0 <= j < v@.len() ==> final(table).records().contains_key((#[trigger] v@[j]).id)
                        && v@[j].data@ == final(table).records()[v@[j].id]
            },
    {
        if !table.check_handle(self) {
            return Err(TinyBaseError::QueryBuilder("the index belongs to another table".to_string()));
        }
        table.search(self.slot, query)
    }

    /// Whether `table` holds a record with the same key as `record` in this
    /// index.
    pub fn record_exists<F: Fn(&String) -> Vec<u8>>(&self, table: &mut Table<F>, record: &Record) -> (r:
        DbResult<bool>)
        requires
            old(table).wf(),
        ensures
            final(table).wf(),
            !old(table).owns(self) ==> *final(table) == *old(table)
                && r matches Err(TinyBaseError::QueryBuilder(_)),
            old(table).owns(self) ==> {
                &&& advanced(old(table), final(table))
                &&& final(table).index(self.spec_slot() as int).pending() == 0
                &&& final(table).index(self.spec_slot() as int).spec_buckets() == drain(
                    old(table).index(self.spec_slot() as int).spec_buckets(),
                    old(table).index(self.spec_slot() as int).spec_key_func(),
                    old(table).index(self.spec_slot() as int).spec_log(),
                )
                &&& r matches Ok(b) && b == (final(table).index(self.spec_slot() as int).spec_bucket(
                    key_of(final(table).index(self.spec_slot() as int).spec_key_func(), record.data@),
                ).len() > 0)
            },
    {
        if !table.check_handle(self) {
            return Err(TinyBaseError::QueryBuilder("the index belongs to another table".to_string()));
        }
        table.record_exists(self.slot, record)
    }

    /// Rebuilds this index from the records of `table`.
    pub fn sync<F: Fn(&String) -> Vec<u8>>(&self, table: &mut Table<F>) -> (r: DbResult<()>)
        requires
            old(table).wf(),
        ensures
            final(table).wf(),
            !old(table).owns(self) ==> *final(table) == *old(table)
                && r matches Err(TinyBaseError::QueryBuilder(_)),
            old(table).owns(self) ==> {
                &&& r is Ok
                &&& same_shape(old(table), final(table))
                &&& final(table).records() == old(table).records()
                &&& final(table).ordered() == old(table).ordered()
                &&& final(table).index(self.spec_slot() as int).pending() == 0
                &&& final(table).index(self.spec_slot() as int).spec_buckets() == fill(
                    Map::empty(),
                    old(table).index(self.spec_slot() as int).spec_key_func(),
                    old(table).ordered(),
                )
            },
    {
        if !table.check_handle(self) {
            return Err(TinyBaseError::QueryBuilder("the index belongs to another table".to_string()));
        }
        table.resync(self.slot)
    }

    pub(crate) fn duplicate(&self) -> (r: Index)
        ensures
            r == *self,
    {
        Index { slot: self.slot, name: self.name.clone() }
    }

    /// The index's name.
    pub fn index_name(&self) -> (r: String)
        ensures
            r@ == self.spec_name(),
    {
        self.name.clone()
    }
}

} // verus!
