//! Dropping the records that lack a residential type.

use crate::record::Record;
use vstd::prelude::*;

verus! {

/// The records that name a residential type, in the order of the input.
pub open spec fn cleaned(records: Seq<Record>) -> Seq<Record> {
    records.filter(|r: Record| r.has_type())
}

/// Drops every record without a residential type and keeps the rest in
/// order.
pub fn clean_data(records: &[Record]) -> (kept: Vec<Record>)
    ensures
        kept@ == cleaned(records@),
{
    let mut kept: Vec<Record> = Vec::new();
    let mut i: usize = 0;
    while i < records.len()
        invariant
            i <= records.len(),
            kept@ == cleaned(records@.take(i as int)),
        decreases records.len() - i,
    {
        proof {
            let before = records@.take(i as int);
            assert(records@.take(i + 1) =~= before.push(records@[i as int]));
            before.lemma_filter_push(records@[i as int], |r: Record| r.has_type());
        }
        if records[i].residential_type.is_some() {
            kept.push(records[i].clone());
        }
        i += 1;
    }
    proof {
        assert(records@.take(records.len() as int) =~= records@);
    }
    kept
}

} // verus!
