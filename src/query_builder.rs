//! Queries: trees of index lookups joined by intersection and union, and
//! the reads, updates and deletions that run them.

use vstd::prelude::*;

use crate::record::{ids_of, lemma_ids_push, Record};
use crate::result::{DbResult, TinyBaseError};
use crate::table::{
    advanced, key_of, lemma_same_shape_trans, overwrite, present, same_shape, Index, Table,
};

verus! {

/// A condition on records.
pub enum QueryCondition {
    /// The records that an index files under a key.
    By(Index, Vec<u8>),
    /// The records of the left side that the right side also selects.
    And(Box<QueryCondition>, Box<QueryCondition>),
    /// The records of either side, each once, left side first.
    Or(Box<QueryCondition>, Box<QueryCondition>),
}

/// The ids of `a` that `b` holds, in the order of `a`.
pub open spec fn intersect(a: Seq<u128>, b: Seq<u128>) -> Seq<u128>
    decreases a.len(),
{
    if a.len() == 0 {
        Seq::empty()
    } else if b.contains(a.last()) {
        intersect(a.drop_last(), b).push(a.last())
    } else {
        intersect(a.drop_last(), b)
    }
}

/// `s` with every id after its first occurrence dropped.
pub open spec fn dedup(s: Seq<u128>) -> Seq<u128>
    decreases s.len(),
{
    if s.len() == 0 {
        Seq::empty()
    } else if dedup(s.drop_last()).contains(s.last()) {
        dedup(s.drop_last())
    } else {
        dedup(s.drop_last()).push(s.last())
    }
}

/// Every index that `c` names belongs to `t`.
pub open spec fn cond_valid<F: Fn(&String) -> Vec<u8>>(t: &Table<F>, c: QueryCondition) -> bool
    decreases c,
{
    match c {
        QueryCondition::By(ix, _) => t.owns(&ix),
        QueryCondition::And(l, r) => cond_valid(t, *l) && cond_valid(t, *r),
        QueryCondition::Or(l, r) => cond_valid(t, *l) && cond_valid(t, *r),
    }
}

/// Every index that `c` names has no pending event in `t`.
pub open spec fn drained<F: Fn(&String) -> Vec<u8>>(t: &Table<F>, c: QueryCondition) -> bool
    decreases c,
{
    match c {
        QueryCondition::By(ix, _) => ix.spec_slot() < t.index_count() && t.index(
            ix.spec_slot() as int,
        ).pending() == 0,
        QueryCondition::And(l, r) => drained(t, *l) && drained(t, *r),
        QueryCondition::Or(l, r) => drained(t, *l) && drained(t, *r),
    }
}

/// The ids that evaluating `c` on `t` yields, in order.
pub open spec fn eval<F: Fn(&String) -> Vec<u8>>(t: &Table<F>, c: QueryCondition) -> Seq<u128>
    decreases c,
{
    match c {
        QueryCondition::By(ix, k) => t.index(ix.spec_slot() as int).spec_bucket(k@),
        QueryCondition::And(l, r) => intersect(eval(t, *l), eval(t, *r)),
        QueryCondition::Or(l, r) => dedup(eval(t, *l) + eval(t, *r)),
    }
}

/// The ids of the records of `t` that satisfy `c`.
pub open spec fn matching<F: Fn(&String) -> Vec<u8>>(t: &Table<F>, c: QueryCondition) -> Set<u128>
    decreases c,
{
    match c {
        QueryCondition::By(ix, k) => Set::new(
            |id: u128|
                t.records().contains_key(id) && key_of(
                    t.index(ix.spec_slot() as int).spec_key_func(),
                    t.records()[id],
                ) == k@,
        ),
        QueryCondition::And(l, r) => matching(t, *l).intersect(matching(t, *r)),
        QueryCondition::Or(l, r) => matching(t, *l).union(matching(t, *r)),
    }
}

/// Each record of `v` carries the data that `m` holds for its id.
pub open spec fn agrees(v: Seq<Record>, m: Map<u128, Seq<char>>) -> bool {
    forall|j: int| 0 <= j < v.len() ==> m.contains_key((#[trigger] v[j]).id) && v[j].data@ == m[v[j].id]
}

proof fn lemma_intersect(a: Seq<u128>, b: Seq<u128>)
    ensures
        forall|x: u128| #[trigger] intersect(a, b).contains(x) <==> (a.contains(x) && b.contains(x)),
        a.no_duplicates() ==> intersect(a, b).no_duplicates(),
    decreases a.len(),
{
    if a.len() > 0 {
        lemma_intersect(a.drop_last(), b);
        let p = a.drop_last();
        assert forall|x: u128| #[trigger] a.contains(x) <==> (p.contains(x) || x == a.last()) by {
            if a.contains(x) {
                let i = choose|i: int| 0 <= i < a.len() && a[i] == x;
                if i < a.len() - 1 {
                    assert(p[i] == x);
                }
            }
            if p.contains(x) {
                let i = choose|i: int| 0 <= i < p.len() && p[i] == x;
                assert(a[i] == x);
            }
            assert(a[a.len() - 1] == a.last());
        }
        let q = intersect(p, b);
        assert forall|x: u128| #[trigger] q.push(a.last()).contains(x) <==> (q.contains(x) || x == a.last()) by {
            if q.push(a.last()).contains(x) {
                let i = choose|i: int| 0 <= i < q.len() + 1 && q.push(a.last())[i] == x;
                if i < q.len() {
                    assert(q[i] == x);
                }
            }
            if q.contains(x) {
                let i = choose|i: int| 0 <= i < q.len() && q[i] == x;
                assert(q.push(a.last())[i] == x);
            }
            assert(q.push(a.last())[q.len() as int] == a.last());
        }
        if a.no_duplicates() {
            assert(p.no_duplicates());
            assert(!p.contains(a.last())) by {
                if p.contains(a.last()) {
                    let i = choose|i: int| 0 <= i < p.len() && p[i] == a.last();
                    assert(a[i] == a[a.len() - 1]);
                }
            }
            if b.contains(a.last()) {
                assert(!q.contains(a.last()));
                lemma_push_no_dup(q, a.last());
            }
        }
    } else {
        assert(intersect(a, b) =~= Seq::<u128>::empty());
    }
}

proof fn lemma_push_no_dup(q: Seq<u128>, y: u128)
    requires
        q.no_duplicates(),
        !q.contains(y),
    ensures
        q.push(y).no_duplicates(),
{
    assert forall|i: int, j: int| 0 <= i < q.len() + 1 && 0 <= j < q.len() + 1 && i != j implies q.push(y)[i]
        != q.push(y)[j] by {
        if i == q.len() {
            assert(q[j] != y);
        } else if j == q.len() {
            assert(q[i] != y);
        }
    }
}

proof fn lemma_push_contains(q: Seq<u128>, y: u128)
    ensures
        forall|x: u128| #[trigger] q.push(y).contains(x) <==> (q.contains(x) || x == y),
{
    assert forall|x: u128| #[trigger] q.push(y).contains(x) <==> (q.contains(x) || x == y) by {
        if q.push(y).contains(x) {
            let i = choose|i: int| 0 <= i < q.len() + 1 && q.push(y)[i] == x;
            if i < q.len() {
                assert(q[i] == x);
            }
        }
        if q.contains(x) {
            let i = choose|i: int| 0 <= i < q.len() && q[i] == x;
            assert(q.push(y)[i] == x);
        }
        assert(q.push(y)[q.len() as int] == y);
    }
}

proof fn lemma_dedup(s: Seq<u128>)
    ensures
        forall|x: u128| #[trigger] dedup(s).contains(x) <==> s.contains(x),
        dedup(s).no_duplicates(),
        s.no_duplicates() ==> dedup(s) == s,
    decreases s.len(),
{
    if s.len() > 0 {
        let p = s.drop_last();
        lemma_dedup(p);
        assert(s == p.push(s.last()));
        lemma_push_contains(p, s.last());
        lemma_push_contains(dedup(p), s.last());
        if s.no_duplicates() {
            assert(p.no_duplicates());
            assert(!p.contains(s.last())) by {
                if p.contains(s.last()) {
                    let i = choose|i: int| 0 <= i < p.len() && p[i] == s.last();
                    assert(s[i] == s[s.len() - 1]);
                }
            }
        }
    } else {
        assert(dedup(s) =~= Seq::<u128>::empty());
    }
}

/// Dropping repeats from `s` followed by ids that `s` already holds gives
/// `s` back, where `s` has no repeat.
proof fn lemma_dedup_repeat(s: Seq<u128>, t: Seq<u128>)
    requires
        s.no_duplicates(),
        forall|x: u128| #[trigger] t.contains(x) ==> s.contains(x),
    ensures
        dedup(s + t) == s,
    decreases t.len(),
{
    if t.len() == 0 {
        assert(s + t =~= s);
        lemma_dedup(s);
    } else {
        let p = t.drop_last();
        assert forall|x: u128| #[trigger] p.contains(x) implies s.contains(x) by {
            let i = choose|i: int| 0 <= i < p.len() && p[i] == x;
            assert(t[i] == x);
            assert(t.contains(x));
        }
        lemma_dedup_repeat(s, p);
        assert((s + t).drop_last() =~= s + p);
        assert((s + t).last() == t.last());
        assert(t.contains(t.last())) by {
            assert(t[t.len() - 1] == t.last());
        }
    }
}

/// Evaluation on an index with no pending event selects exactly the
/// matching records, each once.
pub proof fn lemma_eval<F: Fn(&String) -> Vec<u8>>(t: &Table<F>, c: QueryCondition)
    requires
        t.wf(),
        drained(t, c),
    ensures
        eval(t, c).to_set() == matching(t, c),
        eval(t, c).no_duplicates(),
    decreases c,
{
    match c {
        QueryCondition::By(ix, k) => {
            t.lemma_index_drained(ix.spec_slot() as int);
            assert(eval(t, c).to_set() =~= matching(t, c));
        },
        QueryCondition::And(l, r) => {
            lemma_eval(t, *l);
            lemma_eval(t, *r);
            lemma_intersect(eval(t, *l), eval(t, *r));
            assert(eval(t, c).to_set() =~= matching(t, c));
        },
        QueryCondition::Or(l, r) => {
            lemma_eval(t, *l);
            lemma_eval(t, *r);
            let s = eval(t, *l) + eval(t, *r);
            lemma_dedup(s);
            assert forall|x: u128| #[trigger] s.contains(x) <==> (eval(t, *l).contains(x) || eval(
                t,
                *r,
            ).contains(x)) by {
                let a = eval(t, *l);
                let b = eval(t, *r);
                if s.contains(x) {
                    let i = choose|i: int| 0 <= i < s.len() && s[i] == x;
                    if i >= a.len() {
                        assert(b[i - a.len()] == x);
                    }
                }
                if a.contains(x) {
                    let i = choose|i: int| 0 <= i < a.len() && a[i] == x;
                    assert(s[i] == x);
                }
                if b.contains(x) {
                    let i = choose|i: int| 0 <= i < b.len() && b[i] == x;
                    assert(s[a.len() + i] == x);
                }
            }
            assert(eval(t, c).to_set() =~= matching(t, c));
        },
    }
}

/// Reads leave the evaluation of a condition whose indexes have no pending
/// event as it was.
pub proof fn lemma_eval_kept<F: Fn(&String) -> Vec<u8>>(a: &Table<F>, b: &Table<F>, c: QueryCondition)
    requires
        advanced(a, b),
        drained(a, c),
    ensures
        drained(b, c),
        eval(b, c) == eval(a, c),
    decreases c,
{
    match c {
        QueryCondition::By(ix, k) => {
            assert(b.index(ix.spec_slot() as int) == a.index(ix.spec_slot() as int));
        },
        QueryCondition::And(l, r) => {
            lemma_eval_kept(a, b, *l);
            lemma_eval_kept(a, b, *r);
        },
        QueryCondition::Or(l, r) => {
            lemma_eval_kept(a, b, *l);
            lemma_eval_kept(a, b, *r);
        },
    }
}

/// Which records match depends on the records and the extractors alone.
pub proof fn lemma_matching_kept<F: Fn(&String) -> Vec<u8>>(
    a: &Table<F>,
    b: &Table<F>,
    c: QueryCondition,
)
    requires
        same_shape(a, b),
        a.records() == b.records(),
        cond_valid(a, c),
    ensures
        cond_valid(b, c),
        matching(b, c) == matching(a, c),
    decreases c,
{
    match c {
        QueryCondition::By(ix, k) => {
            assert(b.index(ix.spec_slot() as int).spec_key_func() == a.index(
                ix.spec_slot() as int,
            ).spec_key_func());
            assert(b.index(ix.spec_slot() as int).spec_name() == a.index(ix.spec_slot() as int).spec_name());
            assert(matching(b, c) =~= matching(a, c));
        },
        QueryCondition::And(l, r) => {
            lemma_matching_kept(a, b, *l);
            lemma_matching_kept(a, b, *r);
        },
        QueryCondition::Or(l, r) => {
            lemma_matching_kept(a, b, *l);
            lemma_matching_kept(a, b, *r);
        },
    }
}

proof fn lemma_valid_kept<F: Fn(&String) -> Vec<u8>>(a: &Table<F>, b: &Table<F>, c: QueryCondition)
    requires
        same_shape(a, b),
    ensures
        cond_valid(b, c) == cond_valid(a, c),
    decreases c,
{
    match c {
        QueryCondition::By(ix, k) => {
            if ix.spec_slot() < a.index_count() {
                assert(b.index(ix.spec_slot() as int).spec_name() == a.index(ix.spec_slot() as int).spec_name());
            }
        },
        QueryCondition::And(l, r) => {
            lemma_valid_kept(a, b, *l);
            lemma_valid_kept(a, b, *r);
        },
        QueryCondition::Or(l, r) => {
            lemma_valid_kept(a, b, *l);
            lemma_valid_kept(a, b, *r);
        },
    }
}

proof fn lemma_advanced_trans<F: Fn(&String) -> Vec<u8>>(a: &Table<F>, b: &Table<F>, c: &Table<F>)
    requires
        advanced(a, b),
        advanced(b, c),
    ensures
        advanced(a, c),
{
    assert forall|i: int| 0 <= i < a.index_count() implies (#[trigger] c.index(i)).spec_name()
        == a.index(i).spec_name() && c.index(i).spec_key_func() == a.index(i).spec_key_func() by {
        assert(b.index(i).spec_name() == a.index(i).spec_name());
    }
    assert forall|i: int|
        0 <= i < a.index_count() && (#[trigger] a.index(i)).pending() == 0 implies c.index(i)
        == a.index(i) by {
        assert(b.index(i) == a.index(i));
    }
}

/// Whether a record of `v` has this id.
fn has_id(v: &Vec<Record>, id: u128) -> (r: bool)
    ensures
        r == ids_of(v@).contains(id),
{
    let mut i: usize = 0;
    while i < v.len()
        invariant
            i <= v@.len(),
            forall|j: int| 0 <= j < i ==> v@[j].id != id,
        decreases v@.len() - i,
    {
        if v[i].id == id {
            assert(ids_of(v@)[i as int] == id);
            return true;
        }
        i = i + 1;
    }
    assert(!ids_of(v@).contains(id)) by {
        if ids_of(v@).contains(id) {
            let j = choose|j: int| 0 <= j < ids_of(v@).len() && ids_of(v@)[j] == id;
            assert(v@[j].id == id);
        }
    }
    false
}

/// The records of `left` whose id `right` holds, in the order of `left`.
fn intersect_records(left: &Vec<Record>, right: &Vec<Record>, Ghost(m): Ghost<Map<u128, Seq<char>>>) -> (r: Vec<Record>)
    requires
        agrees(left@, m),
    ensures
        ids_of(r@) == intersect(ids_of(left@), ids_of(right@)),
        agrees(r@, m),
{
    let mut out: Vec<Record> = Vec::new();
    let mut i: usize = 0;
    while i < left.len()
        invariant
            i <= left@.len(),
            agrees(left@, m),
            agrees(out@, m),
            ids_of(out@) == intersect(ids_of(left@).subrange(0, i as int), ids_of(right@)),
        decreases left@.len() - i,
    {
        let ghost prev = out@;
        let ghost sub = ids_of(left@).subrange(0, i + 1);
        proof {
            assert(sub.drop_last() =~= ids_of(left@).subrange(0, i as int));
            assert(sub.last() == left@[i as int].id);
        }
        if has_id(right, left[i].id) {
            out.push(left[i].duplicate());
            proof {
                lemma_ids_push(prev, left@[i as int]);
            }
        }
        i = i + 1;
    }
    proof {
        assert(ids_of(left@).subrange(0, i as int) =~= ids_of(left@));
    }
    out
}

/// `all` with every record whose id came earlier dropped.
fn dedup_records(all: &Vec<Record>, Ghost(m): Ghost<Map<u128, Seq<char>>>) -> (r: Vec<Record>)
    requires
        agrees(all@, m),
    ensures
        ids_of(r@) == dedup(ids_of(all@)),
        agrees(r@, m),
{
    let mut out: Vec<Record> = Vec::new();
    let mut i: usize = 0;
    proof {
        assert(ids_of(all@).subrange(0, 0) =~= Seq::<u128>::empty());
        assert(ids_of(out@) =~= Seq::<u128>::empty());
    }
    while i < all.len()
        invariant
            i <= all@.len(),
            agrees(all@, m),
            agrees(out@, m),
            ids_of(out@) == dedup(ids_of(all@).subrange(0, i as int)),
        decreases all@.len() - i,
    {
        let ghost prev = out@;
        let ghost sub = ids_of(all@).subrange(0, i + 1);
        proof {
            assert(sub.drop_last() =~= ids_of(all@).subrange(0, i as int));
            assert(sub.last() == all@[i as int].id);
        }
        if !has_id(&out, all[i].id) {
            out.push(all[i].duplicate());
            proof {
                lemma_ids_push(prev, all@[i as int]);
            }
        }
        i = i + 1;
    }
    proof {
        assert(ids_of(all@).subrange(0, i as int) =~= ids_of(all@));
    }
    out
}

/// Evaluates `condition` on `table`, applying the pending events of each
/// index that it reads.
fn select_recursive<F: Fn(&String) -> Vec<u8>>(table: &mut Table<F>, condition: &QueryCondition) -> (r:
    DbResult<Vec<Record>>)
    requires
        old(table).wf(),
    ensures
        final(table).wf(),
        advanced(old(table), final(table)),
        cond_valid(old(table), *condition) <==> r is Ok,
        match r {
            Ok(v) => drained(final(table), *condition) && ids_of(v@) == eval(
                final(table),
                *condition,
            ) && agrees(v@, final(table).records()),
            Err(e) => e is QueryBuilder,
        },
    decreases condition,
{
    let ghost t0 = *table;
    match condition {
        QueryCondition::By(index, value) => {
            let r = index.select(table, value);
            proof {
                if !t0.owns(index) {
                    assert(advanced(&t0, table));
                }
            }
            r
        },
        QueryCondition::And(left, right) => {
            let left_records = match select_recursive(table, left) {
                Ok(v) => v,
                Err(e) => {
                    return Err(e);
                },
            };
            let ghost t1 = *table;
            proof {
                lemma_valid_kept(&t0, &t1, **right);
            }
            let right_records = match select_recursive(table, right) {
                Ok(v) => v,
                Err(e) => {
                    proof {
                        lemma_advanced_trans(&t0, &t1, table);
                    }
                    return Err(e);
                },
            };
            proof {
                lemma_advanced_trans(&t0, &t1, table);
                lemma_eval_kept(&t1, table, **left);
            }
            Ok(intersect_records(&left_records, &right_records, Ghost(table.records())))
        },
        QueryCondition::Or(left, right) => {
            let mut records = match select_recursive(table, left) {
                Ok(v) => v,
                Err(e) => {
                    return Err(e);
                },
            };
            let ghost t1 = *table;
            proof {
                lemma_valid_kept(&t0, &t1, **right);
            }
            let mut right_records = match select_recursive(table, right) {
                Ok(v) => v,
                Err(e) => {
                    proof {
                        lemma_advanced_trans(&t0, &t1, table);
                    }
                    return Err(e);
                },
            };
            proof {
                lemma_advanced_trans(&t0, &t1, table);
                lemma_eval_kept(&t1, table, **left);
            }
            let ghost l = records@;
            let ghost rr = right_records@;
            records.append(&mut right_records);
            proof {
                assert(records@ == l + rr);
                assert(ids_of(l + rr) =~= ids_of(l) + ids_of(rr));
                assert(agrees(records@, table.records())) by {
                    assert forall|j: int| 0 <= j < records@.len() implies table.records().contains_key(
                        (#[trigger] records@[j]).id,
                    ) && records@[j].data@ == table.records()[records@[j].id] by {
                        if j < l.len() {
                            assert(records@[j] == l[j]);
                        } else {
                            assert(records@[j] == rr[j - l.len()]);
                        }
                    }
                }
            }
            Ok(dedup_records(&records, Ghost(table.records())))
        },
    }
}

/// A union of a condition with itself selects what the condition selects,
/// in the same order and with no repeat.
pub proof fn lemma_or_same<F: Fn(&String) -> Vec<u8>>(t: &Table<F>, a: QueryCondition)
    requires
        t.wf(),
        drained(t, a),
    ensures
        eval(t, QueryCondition::Or(Box::new(a), Box::new(a))) == eval(t, a),
        eval(t, a).no_duplicates(),
{
    lemma_eval(t, a);
    lemma_dedup_repeat(eval(t, a), eval(t, a));
}

/// An intersection of two conditions that match no record in common
/// selects nothing.
pub proof fn lemma_and_disjoint<F: Fn(&String) -> Vec<u8>>(
    t: &Table<F>,
    a: QueryCondition,
    b: QueryCondition,
)
    requires
        t.wf(),
        drained(t, a),
        drained(t, b),
        matching(t, a).disjoint(matching(t, b)),
    ensures
        eval(t, QueryCondition::And(Box::new(a), Box::new(b))) == Seq::<u128>::empty(),
{
    lemma_eval(t, a);
    lemma_eval(t, b);
    let s = intersect(eval(t, a), eval(t, b));
    lemma_intersect(eval(t, a), eval(t, b));
    if s.len() > 0 {
        assert(s.contains(s[0]));
        assert(eval(t, a).to_set().contains(s[0]));
        assert(eval(t, b).to_set().contains(s[0]));
    }
    assert(s =~= Seq::<u128>::empty());
}

proof fn lemma_present_all(ids: Seq<u128>, m: Map<u128, Seq<char>>)
    requires
        forall|i: int| 0 <= i < ids.len() ==> m.contains_key(#[trigger] ids[i]),
    ensures
        present(ids, m) == ids,
    decreases ids.len(),
{
    if ids.len() > 0 {
        lemma_present_all(ids.drop_last(), m);
        assert(ids.drop_last().push(ids.last()) =~= ids);
    }
}

/// What a query without a condition fails with.
pub open spec fn no_condition_message() -> Seq<char> {
    "No search condition provided"@
}

/// Builds conditions from index lookups.
pub struct ConditionBuilder(QueryCondition);

impl ConditionBuilder {
    pub closed spec fn spec_condition(&self) -> QueryCondition {
        self.0
    }

    /// The records that `index` files under `value`.
    pub fn by_key(index: &Index, value: Vec<u8>) -> (r: Self)
        ensures
            r.spec_condition() == QueryCondition::By(*index, value),
    {
        ConditionBuilder(QueryCondition::By(index.duplicate(), value))
    }

    /// The records that both sides select, in the order of the left side.
    pub fn and(left: Self, right: Self) -> (r: Self)
        ensures
            r.spec_condition() == QueryCondition::And(
                Box::new(left.spec_condition()),
                Box::new(right.spec_condition()),
            ),
    {
        ConditionBuilder(QueryCondition::And(Box::new(left.0), Box::new(right.0)))
    }

    /// The records that either side selects, each once, left side first.
    pub fn or(left: Self, right: Self) -> (r: Self)
        ensures
            r.spec_condition() == QueryCondition::Or(
                Box::new(left.spec_condition()),
                Box::new(right.spec_condition()),
            ),
    {
        ConditionBuilder(QueryCondition::Or(Box::new(left.0), Box::new(right.0)))
    }

    /// The condition built.
    pub fn build(self) -> (r: QueryCondition)
        ensures
            r == self.spec_condition(),
    {
        self.0
    }
}

/// A query on a table: a condition, and what to do with what it selects.
pub struct QueryBuilder {
    condition: Option<QueryCondition>,
}

impl QueryBuilder {
    pub closed spec fn spec_condition(&self) -> Option<QueryCondition> {
        self.condition
    }

    /// A query with no condition yet.
    pub fn new() -> (r: Self)
        ensures
            r.spec_condition() is None,
    {
        QueryBuilder { condition: None }
    }

    /// The same query with `condition` as its condition.
    pub fn with_condition(self, condition: ConditionBuilder) -> (r: Self)
        ensures
            r.spec_condition() == Some(condition.spec_condition()),
    {
        QueryBuilder { condition: Some(condition.build()) }
    }

    fn check_valid(&self) -> (r: DbResult<()>)
        ensures
            r is Ok <==> self.spec_condition() is Some,
            r matches Err(e) ==> e is QueryBuilder,
            self.spec_condition() is None ==> (r matches Err(TinyBaseError::QueryBuilder(m)) && m@
                == no_condition_message()),
    {
        match &self.condition {
            Some(_) => Ok(()),
            None => {
                proof {
                    reveal_strlit("No search condition provided");
                }
                Err(TinyBaseError::QueryBuilder("No search condition provided".to_owned()))
            },
        }
    }

    /// The records that the condition selects, in evaluation order.
    pub fn select<F: Fn(&String) -> Vec<u8>>(self, table: &mut Table<F>) -> (r: DbResult<Vec<Record>>)
        requires
            old(table).wf(),
        ensures
            final(table).wf(),
            advanced(old(table), final(table)),
            match self.spec_condition() {
                None => (r matches Err(TinyBaseError::QueryBuilder(m)) && m@ == no_condition_message())
                    && *final(table) == *old(table),
                Some(c) => {
                    &&& cond_valid(old(table), c) <==> r is Ok
                    &&& r matches Err(e) ==> e is QueryBuilder
                    &&& r matches Ok(v) ==> {
                        &&& ids_of(v@) == eval(final(table), c)
                        &&& ids_of(v@).to_set() == matching(old(table), c)
                        &&& ids_of(v@).no_duplicates()
                        &&& agrees(v@, old(table).records())
                    }
                },
            },
    {
        match self.check_valid() {
            Ok(()) => {},
            Err(e) => {
                return Err(e);
            },
        }
        let condition = self.condition.unwrap();
        let ghost t0 = *table;
        let r = select_recursive(table, &condition);
        proof {
            if r is Ok {
                lemma_eval(table, condition);
                lemma_matching_kept(&t0, table, condition);
            }
        }
        r
    }

    /// Gives the data `value` to every record that the condition selects,
    /// and returns those records as they are after the change.
    pub fn update<F: Fn(&String) -> Vec<u8>>(self, table: &mut Table<F>, value: String) -> (r:
        DbResult<Vec<Record>>)
        requires
            old(table).wf(),
        ensures
            final(table).wf(),
            same_shape(old(table), final(table)),
            match self.spec_condition() {
                None => (r matches Err(TinyBaseError::QueryBuilder(m)) && m@ == no_condition_message())
                    && *final(table) == *old(table),
                Some(c) => {
                    &&& cond_valid(old(table), c) <==> r is Ok
                    &&& r matches Err(e) ==> e is QueryBuilder && final(table).records()
                        == old(table).records()
                    &&& r matches Ok(v) ==> {
                        &&& ids_of(v@).to_set() == matching(old(table), c)
                        &&& ids_of(v@).no_duplicates()
                        &&& exists|t1: Table<F>|
                            advanced(old(table), &t1) && drained(&t1, c) && ids_of(v@) == eval(&t1, c)
                        &&& forall|j: int| 0 <= j < v@.len() ==> (#[trigger] v@[j]).data@ == value@
                        &&& final(table).records() == overwrite(
                            old(table).records(),
                            ids_of(v@),
                            value@,
                        )
                    }
                },
            },
    {
        match self.check_valid() {
            Ok(()) => {},
            Err(e) => {
                return Err(e);
            },
        }
        let condition = self.condition.unwrap();
        let ghost t0 = *table;
        let selected = match select_recursive(table, &condition) {
            Ok(v) => v,
            Err(e) => {
                return Err(e);
            },
        };
        proof {
            lemma_eval(table, condition);
            lemma_matching_kept(&t0, table, condition);
        }
        let mut ids: Vec<u128> = Vec::new();
        let mut i: usize = 0;
        while i < selected.len()
            invariant
                i <= selected@.len(),
                ids@ == ids_of(selected@).subrange(0, i as int),
            decreases selected@.len() - i,
        {
            ids.push(selected[i].id);
            i = i + 1;
            assert(ids@ =~= ids_of(selected@).subrange(0, i as int));
        }
        proof {
            assert(ids@ =~= ids_of(selected@));
            assert forall|j: int| 0 <= j < ids@.len() implies table.records().contains_key(#[trigger] ids@[j]) by {
                assert(ids@[j] == selected@[j].id);
            }
            lemma_present_all(ids@, table.records());
        }
        let ghost t1 = *table;
        let r = table.update(&ids, value);
        proof {
            lemma_same_shape_trans(&t0, &t1, table);
            assert(advanced(&t0, &t1) && drained(&t1, condition) && ids@ == eval(&t1, condition));
        }
        r
    }

    /// Removes every record that the condition selects and returns them.
    pub fn delete<F: Fn(&String) -> Vec<u8>>(self, table: &mut Table<F>) -> (r: DbResult<Vec<Record>>)
        requires
            old(table).wf(),
        ensures
            final(table).wf(),
            same_shape(old(table), final(table)),
            match self.spec_condition() {
                None => (r matches Err(TinyBaseError::QueryBuilder(m)) && m@ == no_condition_message())
                    && *final(table) == *old(table),
                Some(c) => {
                    &&& cond_valid(old(table), c) <==> r is Ok
                    &&& r matches Err(e) ==> e is QueryBuilder && final(table).records()
                        == old(table).records()
                    &&& r matches Ok(v) ==> {
                        &&& ids_of(v@).to_set() == matching(old(table), c)
                        &&& ids_of(v@).no_duplicates()
                        &&& agrees(v@, old(table).records())
                        &&& exists|t1: Table<F>|
                            advanced(old(table), &t1) && drained(&t1, c) && ids_of(v@) == eval(&t1, c)
                        &&& final(table).records() == old(table).records().remove_keys(
                            matching(old(table), c),
                        )
                    }
                },
            },
    {
        match self.check_valid() {
            Ok(()) => {},
            Err(e) => {
                return Err(e);
            },
        }
        let condition = self.condition.unwrap();
        let ghost t0 = *table;
        let selected = match select_recursive(table, &condition) {
            Ok(v) => v,
            Err(e) => {
                return Err(e);
            },
        };
        let ghost t1 = *table;
        let ghost m0 = table.records();
        let ghost sel = ids_of(selected@);
        proof {
            lemma_eval(table, condition);
            lemma_matching_kept(&t0, table, condition);
            assert(m0.remove_keys(sel.subrange(0, 0).to_set()) =~= m0);
            assert(ids_of(Seq::<Record>::empty()) =~= sel.subrange(0, 0));
        }
        let mut removed: Vec<Record> = Vec::new();
        let mut i: usize = 0;
        while i < selected.len()
            invariant
                i <= selected@.len(),
                sel == ids_of(selected@),
                sel.no_duplicates(),
                agrees(selected@, m0),
                table.wf(),
                same_shape(&t1, table),
                table.records() == m0.remove_keys(sel.subrange(0, i as int).to_set()),
                ids_of(removed@) == sel.subrange(0, i as int),
                agrees(removed@, m0),
            decreases selected@.len() - i,
        {
            let id = selected[i].id;
            let ghost prev = removed@;
            let ghost before = *table;
            proof {
                assert(sel[i as int] == id);
                assert(!sel.subrange(0, i as int).to_set().contains(id)) by {
                    if sel.subrange(0, i as int).to_set().contains(id) {
                        let j = choose|j: int| 0 <= j < i && sel.subrange(0, i as int)[j] == id;
                        assert(sel[j] == sel[i as int]);
                    }
                }
                assert(table.records().contains_key(id));
            }
            match table.delete(id) {
                Ok(Some(rec)) => {
                    removed.push(rec);
                    proof {
                        lemma_ids_push(prev, rec);
                        lemma_same_shape_trans(&t1, &before, table);
                        assert(sel.subrange(0, i + 1) =~= sel.subrange(0, i as int).push(id));
                        lemma_push_contains(sel.subrange(0, i as int), id);
                        assert(sel.subrange(0, i + 1).to_set() =~= sel.subrange(0, i as int).to_set().insert(id));
                        assert(table.records() =~= m0.remove_keys(sel.subrange(0, i + 1).to_set()));
                    }
                },
                _ => {
                    proof {
                        assert(false);
                    }
                },
            }
            i = i + 1;
        }
        proof {
            assert(sel.subrange(0, i as int) =~= sel);
            lemma_same_shape_trans(&t0, &t1, table);
            assert(advanced(&t0, &t1) && drained(&t1, condition) && sel == eval(&t1, condition));
        }
        Ok(removed)
    }
}

} // verus!
