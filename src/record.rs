//! A stored value with its identifier.

use vstd::prelude::*;

verus! {

/// A value of a table with the id minted when it was inserted.
#[derive(Debug)]
pub struct Record {
    pub id: u128,
    pub data: String,
}

/// The ids of `v`, in order.
pub open spec fn ids_of(v: Seq<Record>) -> Seq<u128> {
    v.map_values(|r: Record| r.id)
}

/// Pushing a record pushes its id.
pub proof fn lemma_ids_push(v: Seq<Record>, r: Record)
    ensures
        ids_of(v.push(r)) == ids_of(v).push(r.id),
{
    assert(ids_of(v.push(r)) =~= ids_of(v).push(r.id));
}

impl Record {
    /// A copy of this record.
    pub fn duplicate(&self) -> (r: Record)
        ensures
            r == *self,
    {
        Record { id: self.id, data: self.data.clone() }
    }
}

} // verus!
