//! Quantile binning of records by assessed value.

use crate::error::Error;
use crate::order::{
    as_keys, as_positions, ascending, lemma_ascending_is_sorted, lemma_order_covers, lemma_stable_order,
    precedes, sort_positions, stable_order,
};
use crate::record::Record;
use crate::summary::{summarize, ClusterSummary};
use std::collections::HashMap;
use vstd::arithmetic::div_mod::{lemma_div_is_ordered, lemma_div_pos_is_pos, lemma_multiply_divide_lt};
use vstd::prelude::*;
use vstd::std_specs::iter::IteratorSpec;

verus! {

/// The records that carry an assessed value, in the order of the input.
pub open spec fn valued(records: Seq<Record>) -> Seq<Record> {
    records.filter(|r: Record| r.has_value())
}

/// The assessed values that are present, in the order of their records.
pub open spec fn assessed_values(records: Seq<Record>) -> Seq<int> {
    valued(records).map_values(|r: Record| r.value())
}

/// The interior edges that cut ascending values into `bins` groups of nearly
/// equal size: edge `k` (counted from zero) is the value at position
/// `(k + 1) * n / bins` of the `n` sorted values. Without values there are
/// no edges.
pub open spec fn quantile_edges(sorted: Seq<int>, bins: int) -> Seq<int> {
    if sorted.len() == 0 || bins < 1 {
        Seq::empty()
    } else {
        Seq::new((bins - 1) as nat, |k: int| sorted[((k + 1) * sorted.len()) / bins])
    }
}

/// The bin of a value: the number of edges that it reaches.
pub open spec fn bin_index(edges: Seq<int>, value: int) -> int {
    edges.filter(|e: int| e <= value).len() as int
}

/// The edges that `records` give for `bins` bins.
pub open spec fn bin_edges(records: Seq<Record>, bins: int) -> Seq<int> {
    quantile_edges(ascending(assessed_values(records)), bins)
}

/// The records that fall into bin `b` under `edges`, in the order of the
/// input. Records without an assessed value fall into no bin.
pub open spec fn falling_into(records: Seq<Record>, edges: Seq<int>, b: int) -> Seq<Record> {
    records.filter(|r: Record| r.has_value() && bin_index(edges, r.value()) == b)
}

/// The records that binning `records` into `bins` bins assigns to bin `b`.
pub open spec fn assigned(records: Seq<Record>, bins: int, b: int) -> Seq<Record> {
    falling_into(records, bin_edges(records, bins), b)
}

/// Machine edges read as mathematical integers.
pub open spec fn as_edges(edges: Seq<u64>) -> Seq<int> {
    edges.map_values(|e: u64| e as int)
}

/// The position of edge `e` among `n` sorted values lies within them.
proof fn lemma_edge_position(e: int, n: int, bins: int)
    requires
        0 <= e < bins,
        0 < n,
    ensures
        0 <= (e * n) / bins < n,
        0 <= e * n,
{
    assert(0 <= e * n && e * n < bins * n) by (nonlinear_arith)
        requires
            0 <= e < bins,
            0 < n,
    ;
    lemma_multiply_divide_lt(e * n, bins, n);
    lemma_div_pos_is_pos(e * n, bins);
}

/// Counts the edges that `value` reaches.
pub fn locate_bin(edges: &Vec<u64>, value: u64) -> (b: usize)
    ensures
        b as int == bin_index(as_edges(edges@), value as int),
        b <= edges.len(),
{
    let mut b: usize = 0;
    let mut k: usize = 0;
    while k < edges.len()
        invariant
            k <= edges.len(),
            b <= k,
            b as int == bin_index(as_edges(edges@.take(k as int)), value as int),
        decreases edges.len() - k,
    {
        proof {
            let seen = as_edges(edges@.take(k as int));
            assert(as_edges(edges@.take(k + 1)) =~= seen.push(edges@[k as int] as int));
            seen.lemma_filter_push(edges@[k as int] as int, |e: int| e <= value as int);
        }
        if edges[k] <= value {
            b += 1;
        }
        k += 1;
    }
    assert(edges@.take(edges.len() as int) =~= edges@);
    b
}

/// Computes the quantile edges of the assessed values found in `records`.
pub fn compute_edges(records: &[Record], number_of_bins: usize) -> (edges: Vec<u64>)
    ensures
        as_edges(edges@) == bin_edges(records@, number_of_bins as int),
{
    let mut values: Vec<i128> = Vec::new();
    let mut i: usize = 0;
    while i < records.len()
        invariant
            i <= records.len(),
            as_keys(values@) == assessed_values(records@.take(i as int)),
            forall|p: int| 0 <= p < values.len() ==> 0 <= #[trigger] values[p] <= u64::MAX,
        decreases records.len() - i,
    {
        proof {
            let before = records@.take(i as int);
            let r = records@[i as int];
            assert(records@.take(i + 1) =~= before.push(r));
            before.lemma_filter_push(r, |r: Record| r.has_value());
            if r.has_value() {
                assert(assessed_values(before.push(r)) =~= assessed_values(before).push(r.value()));
            }
        }
        match records[i].assessed_value {
            Some(v) => {
                values.push(v as i128);
                assert(as_keys(values@) =~= assessed_values(records@.take(i as int)).push(v as int));
            },
            None => {},
        }
        i += 1;
    }
    assert(records@.take(records.len() as int) =~= records@);
    let ghost keys = as_keys(values@);
    let ghost sorted = ascending(keys);
    proof {
        lemma_stable_order(keys);
    }
    let n = values.len();
    let mut edges: Vec<u64> = Vec::new();
    if n == 0 || number_of_bins < 1 {
        assert(as_edges(edges@) =~= quantile_edges(sorted, number_of_bins as int));
        return edges;
    }
    let order = sort_positions(&values);
    let mut e: usize = 1;
    while e < number_of_bins
        invariant
            1 <= e <= number_of_bins,
            n == values.len(),
            n > 0,
            keys == as_keys(values@),
            sorted == ascending(keys),
            sorted.len() == n,
            as_positions(order@) == stable_order(keys),
            order.len() == n,
            forall|p: int| 0 <= p < order.len() ==> #[trigger] order[p] < n,
            forall|p: int| 0 <= p < values.len() ==> 0 <= #[trigger] values[p] <= u64::MAX,
            edges.len() == e - 1,
            forall|k: int|
                0 <= k < edges.len() ==> #[trigger] edges[k] as int == sorted[((k + 1) * n)
                    / (number_of_bins as int)],
        decreases number_of_bins - e,
    {
        proof {
            lemma_edge_position(e as int, n as int, number_of_bins as int);
            assert(e * n <= u64::MAX * u64::MAX) by (nonlinear_arith)
                requires
                    0 <= e <= u64::MAX,
                    0 <= n <= u64::MAX,
            ;
        }
        let at: usize = ((e as u128) * (n as u128) / (number_of_bins as u128)) as usize;
        let p = order[at];
        assert(as_positions(order@)[at as int] == p);
        let v = values[p];
        assert(sorted[at as int] == v);
        edges.push(v as u64);
        e += 1;
    }
    assert(as_edges(edges@) =~= quantile_edges(sorted, number_of_bins as int));
    edges
}

/// The records of one bin.
#[derive(Debug)]
pub struct Cluster {
    pub properties: Vec<Record>,
}

impl Cluster {
    /// A bin without records.
    pub fn new() -> (cluster: Self)
        ensures
            cluster.properties@ == Seq::<Record>::empty(),
    {
        Cluster { properties: Vec::new() }
    }
}

/// Some member carries the assessed value `v`.
pub open spec fn holds_value(members: Seq<Record>, v: int) -> bool {
    exists|p: int| 0 <= p < members.len() && (#[trigger] members[p]).has_value() && members[p].value() == v
}

/// `low` and `high` are the smallest and the largest assessed value among
/// `members`.
pub open spec fn is_value_range(members: Seq<Record>, low: int, high: int) -> bool {
    &&& holds_value(members, low)
    &&& holds_value(members, high)
    &&& forall|p: int|
        0 <= p < members.len() && (#[trigger] members[p]).has_value() ==> low <= members[p].value() <= high
}

/// A value that some member carries is still carried after one more member
/// has come.
proof fn lemma_value_stays(members: Seq<Record>, r: Record, v: int)
    requires
        holds_value(members, v),
    ensures
        holds_value(members.push(r), v),
{
    let p = choose|p: int|
        0 <= p < members.len() && (#[trigger] members[p]).has_value() && members[p].value() == v;
    assert(members.push(r)[p] == members[p]);
}

impl Cluster {
    /// The smallest and the largest assessed value in the bin; `None` where
    /// no record of the bin carries a value.
    pub fn value_range(&self) -> (out: Option<(u64, u64)>)
        ensures
            match out {
                Some((low, high)) => is_value_range(self.properties@, low as int, high as int),
                None => forall|p: int|
                    0 <= p < self.properties.len() ==> !(#[trigger] self.properties@[p]).has_value(),
            },
    {
        let mut range: Option<(u64, u64)> = None;
        let mut i: usize = 0;
        while i < self.properties.len()
            invariant
                i <= self.properties.len(),
                match range {
                    Some((low, high)) => is_value_range(
                        self.properties@.take(i as int),
                        low as int,
                        high as int,
                    ),
                    None => forall|p: int| 0 <= p < i ==> !(#[trigger] self.properties@[p]).has_value(),
                },
            decreases self.properties.len() - i,
        {
            let ghost before = self.properties@.take(i as int);
            let ghost r = self.properties@[i as int];
            proof {
                assert(self.properties@.take(i + 1) =~= before.push(r));
                if let Some((low, high)) = range {
                    lemma_value_stays(before, r, low as int);
                    lemma_value_stays(before, r, high as int);
                }
            }
            match self.properties[i].assessed_value {
                Some(v) => {
                    range = match range {
                        Some((low, high)) => Some(
                            (if v < low { v } else { low }, if v > high { v } else { high }),
                        ),
                        None => Some((v, v)),
                    };
                    assert(before.push(r)[i as int] == r);
                },
                None => {},
            }
            i += 1;
        }
        assert(self.properties@.take(self.properties.len() as int) =~= self.properties@);
        range
    }
}

impl Clone for Cluster {
    fn clone(&self) -> (copy: Self)
        ensures
            copy.properties@ == self.properties@,
    {
        let mut properties: Vec<Record> = Vec::new();
        let mut i: usize = 0;
        while i < self.properties.len()
            invariant
                i <= self.properties.len(),
                properties@ == self.properties@.take(i as int),
            decreases self.properties.len() - i,
        {
            properties.push(self.properties[i].clone());
            assert(self.properties@.take(i + 1) =~= self.properties@.take(i as int).push(
                self.properties@[i as int],
            ));
            i += 1;
        }
        assert(self.properties@.take(self.properties.len() as int) =~= self.properties@);
        Cluster { properties }
    }
}

/// The bins of one run, keyed by bin index. Only bins that hold a record
/// are present.
pub struct PropertyGraph {
    pub clusters: HashMap<usize, Cluster>,
    /// How close two sales ratios must be to count as similar, in the unit
    /// of the ratios. Binning does not read it.
    pub similarity_threshold: u64,
}

impl PropertyGraph {
    /// The records held in bin `b`; none where the bin is not present.
    pub open spec fn members(self, b: usize) -> Seq<Record> {
        if self.clusters@.contains_key(b) {
            self.clusters@[b].properties@
        } else {
            Seq::empty()
        }
    }

    /// No bin that is present is empty.
    pub open spec fn wf(self) -> bool {
        forall|b: usize| self.clusters@.contains_key(b) ==> self.clusters@[b].properties@.len() > 0
    }

    /// A graph without bins.
    pub fn new(similarity_threshold: u64) -> (graph: Self)
        ensures
            graph.clusters@ == Map::<usize, Cluster>::empty(),
            graph.similarity_threshold == similarity_threshold,
            graph.wf(),
    {
        PropertyGraph { clusters: HashMap::new(), similarity_threshold }
    }

    /// Appends `record` to bin `bin_index`, creating the bin if needed.
    pub fn assign_to_cluster(&mut self, record: Record, bin_index: usize)
        ensures
            final(self).similarity_threshold == old(self).similarity_threshold,
            final(self).clusters@.dom() == old(self).clusters@.dom().insert(bin_index),
            final(self).members(bin_index) == old(self).members(bin_index).push(record),
            forall|b: usize| b != bin_index ==> final(self).members(b) == old(self).members(b),
            old(self).wf() ==> final(self).wf(),
    {
        self.clusters.entry(bin_index).or_insert(Cluster::new()).properties.push(record);
    }

    /// The indices of the bins that are present, each once, in no
    /// particular order.
    pub fn cluster_ids(&self) -> (ids: Vec<usize>)
        ensures
            ids@.no_duplicates(),
            ids@.to_set() == self.clusters@.dom(),
    {
        let mut ids: Vec<usize> = Vec::new();
        let ghost all = self.clusters.keys().remaining();
        proof {
            broadcast use vstd::std_specs::hash::axiom_spec_keys_iter;
            assert(all.unref().to_set() == self.clusters@.dom());
            assert(all.no_duplicates());
        }
        for id in it: self.clusters.keys()
            invariant
                it.seq() == all,
                ids.len() == it.index(),
                forall|k: int| 0 <= k < ids.len() ==> #[trigger] ids@[k] == *all[k],
        {
            ids.push(*id);
        }
        proof {
            assert(ids@ =~= all.unref());
            assert forall|a: int, b: int| 0 <= a < ids.len() && 0 <= b < ids.len() && a != b implies ids@[a]
                != ids@[b] by {
                assert(all[a] != all[b]);
            }
        }
        ids
    }

    /// Computes the statistics of every bin that is present, in ascending
    /// order of bin index.
    pub fn analyze_clusters(&self) -> (out: Vec<ClusterSummary>)
        ensures
            out.len() == self.clusters@.dom().len(),
            forall|k: int|
                0 <= k < out.len() ==> self.clusters@.contains_key((#[trigger] out[k]).cluster_id)
                    && out[k].describes(out[k].cluster_id, self.members(out[k].cluster_id)),
            forall|a: int, b: int|
                #![trigger out[a], out[b]]
                0 <= a < b < out.len() ==> out[a].cluster_id < out[b].cluster_id,
            forall|b: usize|
                self.clusters@.contains_key(b) ==> exists|k: int|
                    0 <= k < out.len() && (#[trigger] out[k]).cluster_id == b,
    {
        let ids = self.cluster_ids();
        let n = ids.len();
        let mut keys: Vec<i128> = Vec::new();
        let mut i: usize = 0;
        while i < n
            invariant
                i <= n,
                n == ids.len(),
                keys.len() == i,
                forall|k: int| 0 <= k < i ==> #[trigger] keys[k] == ids[k],
            decreases n - i,
        {
            keys.push(ids[i] as i128);
            i += 1;
        }
        let order = sort_positions(&keys);
        let ghost ks = as_keys(keys@);
        let ghost arrangement = as_positions(order@);
        proof {
            lemma_stable_order(ks);
            ids@.unique_seq_to_set();
        }
        let mut out: Vec<ClusterSummary> = Vec::new();
        let mut k: usize = 0;
        while k < n
            invariant
                k <= n,
                n == ids.len(),
                n == order.len(),
                ids@.to_set() == self.clusters@.dom(),
                forall|j: int| 0 <= j < order.len() ==> #[trigger] order[j] < n,
                out.len() == k,
                forall|j: int|
                    0 <= j < k ==> (#[trigger] out[j]).cluster_id == ids[order[j] as int] && out[j].describes(
                        out[j].cluster_id,
                        self.members(out[j].cluster_id),
                    ),
            decreases n - k,
        {
            let id = ids[order[k]];
            assert(ids@.to_set().contains(id));
            match self.clusters.get(&id) {
                Some(cluster) => {
                    out.push(summarize(id, &cluster.properties));
                },
                None => {
                    assert(false);
                },
            }
            k += 1;
        }
        proof {
            assert forall|a: int, b: int| 0 <= a < b < out.len() implies (#[trigger] out[a]).cluster_id < (
            #[trigger] out[b]).cluster_id by {
                assert(precedes(ks, arrangement[a], arrangement[b]));
                assert(arrangement[a] == order[a] && arrangement[b] == order[b]);
                assert(ks[order[a] as int] == ids[order[a] as int]);
                assert(ks[order[b] as int] == ids[order[b] as int]);
            }
            assert forall|b: usize| self.clusters@.contains_key(b) implies exists|k: int|
                0 <= k < out.len() && (#[trigger] out[k]).cluster_id == b by {
                assert(ids@.to_set().contains(b));
                let at = choose|at: int| 0 <= at < ids.len() && ids@[at] == b;
                let k = lemma_order_covers(arrangement, ks, 0, n as int, at);
                assert(arrangement[k] == order[k]);
                assert(out[k].cluster_id == b);
            }
            assert forall|k: int| 0 <= k < out.len() implies self.clusters@.contains_key(
                (#[trigger] out[k]).cluster_id,
            ) by {
                assert(ids@.to_set().contains(ids@[order[k] as int]));
            }
        }
        out
    }

    /// Bins `records` by assessed value into `number_of_bins` quantile bins
    /// and appends each record that has a value to its bin.
    ///
    /// Fewer than one bin is refused, and the graph stays as it was.
    pub fn create_bins(&mut self, records: &[Record], number_of_bins: usize) -> (out: Result<
        (),
        Error,
    >)
        ensures
            number_of_bins < 1 ==> out == Err::<(), Error>(Error::InvalidInput) && *final(self) == *old(
                self,
            ),
            number_of_bins >= 1 ==> out == Ok::<(), Error>(()),
            final(self).similarity_threshold == old(self).similarity_threshold,
            number_of_bins >= 1 ==> forall|b: usize|
                #[trigger] final(self).members(b) == old(self).members(b) + assigned(
                    records@,
                    number_of_bins as int,
                    b as int,
                ),
            number_of_bins >= 1 ==> final(self).clusters@.dom() == old(self).clusters@.dom().union(
                Set::new(|b: usize| assigned(records@, number_of_bins as int, b as int).len() > 0),
            ),
            old(self).wf() ==> final(self).wf(),
    {
        if number_of_bins < 1 {
            return Err(Error::InvalidInput);
        }
        let edges = compute_edges(records, number_of_bins);
        let ghost cuts = as_edges(edges@);
        let mut i: usize = 0;
        while i < records.len()
            invariant
                i <= records.len(),
                cuts == as_edges(edges@),
                self.similarity_threshold == old(self).similarity_threshold,
                forall|b: usize|
                    #[trigger] self.members(b) == old(self).members(b) + falling_into(
                        records@.take(i as int),
                        cuts,
                        b as int,
                    ),
                self.clusters@.dom() == old(self).clusters@.dom().union(
                    Set::new(|b: usize| falling_into(records@.take(i as int), cuts, b as int).len() > 0),
                ),
                old(self).wf() ==> self.wf(),
            decreases records.len() - i,
        {
            let ghost before = records@.take(i as int);
            let ghost r = records@[i as int];
            let ghost held = *self;
            proof {
                assert(records@.take(i + 1) =~= before.push(r));
                assert forall|b: usize|
                    #[trigger] falling_into(before.push(r), cuts, b as int) == if r.has_value() && bin_index(
                        cuts,
                        r.value(),
                    ) == b {
                        falling_into(before, cuts, b as int).push(r)
                    } else {
                        falling_into(before, cuts, b as int)
                    } by {
                    before.lemma_filter_push(
                        r,
                        |r: Record| r.has_value() && bin_index(cuts, r.value()) == b as int,
                    );
                }
            }
            match records[i].assessed_value {
                Some(v) => {
                    let b = locate_bin(&edges, v);
                    self.assign_to_cluster(records[i].clone(), b);
                    proof {
                        assert forall|c: usize|
                            #[trigger] self.members(c) == old(self).members(c) + falling_into(
                                before.push(r),
                                cuts,
                                c as int,
                            ) by {
                            assert(held.members(c) == old(self).members(c) + falling_into(
                                before,
                                cuts,
                                c as int,
                            ));
                            if c == b {
                                assert(self.members(c) =~= old(self).members(c) + falling_into(
                                    before,
                                    cuts,
                                    c as int,
                                ).push(r));
                            }
                        }
                        assert(self.clusters@.dom() =~= old(self).clusters@.dom().union(
                            Set::new(
                                |c: usize| falling_into(before.push(r), cuts, c as int).len() > 0,
                            ),
                        )) by {
                            assert(falling_into(before.push(r), cuts, b as int).len() > 0);
                        }
                    }
                },
                None => {
                    assert(self.clusters@.dom() =~= old(self).clusters@.dom().union(
                        Set::new(|c: usize| falling_into(before.push(r), cuts, c as int).len() > 0),
                    ));
                },
            }
            i += 1;
        }
        assert(records@.take(records.len() as int) =~= records@);
        Ok(())
    }
}

/// How many records the bins below `upto` hold together under `edges`.
pub open spec fn held_below(records: Seq<Record>, edges: Seq<int>, upto: int) -> int
    decreases upto,
{
    if upto <= 0 {
        0
    } else {
        held_below(records, edges, upto - 1) + falling_into(records, edges, upto - 1).len()
    }
}

/// The bin of the larger of two values is never the lower one, whatever the
/// edges, and no bin lies beyond the number of edges.
pub proof fn lemma_bin_index_monotone(edges: Seq<int>, low: int, high: int)
    requires
        low <= high,
    ensures
        0 <= bin_index(edges, low) <= bin_index(edges, high) <= edges.len(),
    decreases edges.len(),
{
    if edges.len() > 0 {
        let rest = edges.drop_last();
        lemma_bin_index_monotone(rest, low, high);
        rest.lemma_filter_push(edges.last(), |e: int| e <= low);
        rest.lemma_filter_push(edges.last(), |e: int| e <= high);
        assert(rest.push(edges.last()) =~= edges);
    } else {
        edges.lemma_filter_len(|e: int| e <= low);
        edges.lemma_filter_len(|e: int| e <= high);
    }
}

/// Where the edges ascend, the bin of a value is the place at which the
/// value parts them: every edge below the bin is reached, none from the bin
/// on. So the bin is one more than the highest edge reached, and zero where
/// none is.
pub proof fn lemma_bin_index_parts_edges(edges: Seq<int>, value: int)
    requires
        forall|i: int, j: int| 0 <= i <= j < edges.len() ==> edges[i] <= edges[j],
    ensures
        0 <= bin_index(edges, value) <= edges.len(),
        forall|k: int| 0 <= k < bin_index(edges, value) ==> edges[k] <= value,
        forall|k: int| bin_index(edges, value) <= k < edges.len() ==> value < edges[k],
    decreases edges.len(),
{
    if edges.len() > 0 {
        let rest = edges.drop_last();
        assert forall|i: int, j: int| 0 <= i <= j < rest.len() implies rest[i] <= rest[j] by {
            assert(rest[i] == edges[i] && rest[j] == edges[j]);
        }
        lemma_bin_index_parts_edges(rest, value);
        rest.lemma_filter_push(edges.last(), |e: int| e <= value);
        assert(rest.push(edges.last()) =~= edges);
        let below = bin_index(rest, value);
        if edges.last() <= value {
            if below < rest.len() {
                assert(value < rest[below]);
                assert(rest[below] == edges[below]);
                assert(edges[below] <= edges[edges.len() - 1]);
            }
        }
        assert forall|k: int| 0 <= k < bin_index(edges, value) implies edges[k] <= value by {
            if k < rest.len() {
                assert(rest[k] == edges[k]);
                assert(edges[k] <= edges[edges.len() - 1]);
            }
        }
        assert forall|k: int| bin_index(edges, value) <= k < edges.len() implies value < edges[k] by {
            if k < rest.len() {
                assert(rest[k] == edges[k]);
            }
        }
    } else {
        edges.lemma_filter_len(|e: int| e <= value);
    }
}

/// The quantile edges of ascending values ascend, and there is one edge
/// less than bins.
pub proof fn lemma_quantile_edges_ascend(sorted: Seq<int>, bins: int)
    requires
        forall|i: int, j: int| 0 <= i <= j < sorted.len() ==> sorted[i] <= sorted[j],
        bins >= 1,
    ensures
        quantile_edges(sorted, bins).len() == if sorted.len() == 0 {
            0
        } else {
            bins - 1
        },
        forall|a: int, b: int|
            0 <= a <= b < quantile_edges(sorted, bins).len() ==> quantile_edges(sorted, bins)[a]
                <= quantile_edges(sorted, bins)[b],
{
    let edges = quantile_edges(sorted, bins);
    let n = sorted.len() as int;
    assert forall|a: int, b: int| 0 <= a <= b < edges.len() implies edges[a] <= edges[b] by {
        lemma_edge_position(a + 1, n, bins);
        lemma_edge_position(b + 1, n, bins);
        assert((a + 1) * n <= (b + 1) * n) by (nonlinear_arith)
            requires
                0 <= a <= b,
                0 <= n,
        ;
        lemma_div_is_ordered((a + 1) * n, (b + 1) * n, bins);
    }
}

/// The edges that binning computes ascend.
pub proof fn lemma_bin_edges_ascend(records: Seq<Record>, bins: int)
    requires
        bins >= 1,
    ensures
        bin_edges(records, bins).len() <= bins - 1,
        forall|a: int, b: int|
            0 <= a <= b < bin_edges(records, bins).len() ==> bin_edges(records, bins)[a] <= bin_edges(
                records,
                bins,
            )[b],
{
    let keys = assessed_values(records);
    lemma_stable_order(keys);
    lemma_ascending_is_sorted(keys);
    let sorted = ascending(keys);
    assert forall|i: int, j: int| 0 <= i <= j < sorted.len() implies sorted[i] <= sorted[j] by {
        assert(ascending(keys)[i] <= ascending(keys)[j]);
    }
    lemma_quantile_edges_ascend(sorted, bins);
}

/// One more record adds one to the count of the bins below `upto` if it
/// carries a value whose bin is among them, and nothing otherwise.
proof fn lemma_held_below_push(records: Seq<Record>, r: Record, edges: Seq<int>, upto: int)
    ensures
        held_below(records.push(r), edges, upto) == held_below(records, edges, upto) + if r.has_value()
            && 0 <= bin_index(edges, r.value()) < upto {
            1int
        } else {
            0int
        },
    decreases upto,
{
    if upto > 0 {
        lemma_held_below_push(records, r, edges, upto - 1);
        records.lemma_filter_push(r, |r: Record| r.has_value() && bin_index(edges, r.value()) == upto - 1);
    }
}

/// The bins of no records hold nothing.
proof fn lemma_held_below_empty(edges: Seq<int>, upto: int)
    ensures
        held_below(Seq::<Record>::empty(), edges, upto) == 0,
    decreases upto,
{
    if upto > 0 {
        lemma_held_below_empty(edges, upto - 1);
        Seq::<Record>::empty().lemma_filter_len(
            |r: Record| r.has_value() && bin_index(edges, r.value()) == upto - 1,
        );
    }
}

/// Bins that reach beyond the last edge hold, together, as many records as
/// carry a value.
proof fn lemma_held_below_counts_valued(records: Seq<Record>, edges: Seq<int>, upto: int)
    requires
        edges.len() < upto,
    ensures
        held_below(records, edges, upto) == valued(records).len(),
    decreases records.len(),
{
    if records.len() == 0 {
        assert(records =~= Seq::<Record>::empty());
        lemma_held_below_empty(edges, upto);
        records.lemma_filter_len(|r: Record| r.has_value());
    } else {
        let rest = records.drop_last();
        let r = records.last();
        assert(rest.push(r) =~= records);
        lemma_held_below_counts_valued(rest, edges, upto);
        lemma_held_below_push(rest, r, edges, upto);
        rest.lemma_filter_push(r, |r: Record| r.has_value());
        lemma_bin_index_monotone(edges, r.value(), r.value());
    }
}

/// Binning puts every record that carries an assessed value into exactly
/// one bin, that of its value, and puts no other record anywhere: each such
/// record is among those assigned to its bin, a bin is assigned only records
/// whose value falls into it, all bins together are assigned as many records
/// as carry a value, and no bin outside `0..bins` is assigned any.
pub proof fn lemma_binning_covers(records: Seq<Record>, bins: int)
    requires
        bins >= 1,
    ensures
        forall|i: int|
            0 <= i < records.len() && (#[trigger] records[i]).has_value() ==> {
                let b = bin_index(bin_edges(records, bins), records[i].value());
                0 <= b < bins && assigned(records, bins, b).contains(records[i])
            },
        forall|b: int, k: int|
            0 <= k < assigned(records, bins, b).len() ==> {
                let r = #[trigger] assigned(records, bins, b)[k];
                r.has_value() && bin_index(bin_edges(records, bins), r.value()) == b
            },
        held_below(records, bin_edges(records, bins), bins) == valued(records).len(),
        forall|b: int| #[trigger] assigned(records, bins, b).len() > 0 ==> 0 <= b < bins,
{
    let edges = bin_edges(records, bins);
    lemma_bin_edges_ascend(records, bins);
    lemma_held_below_counts_valued(records, edges, bins);
    assert forall|b: int| #[trigger] assigned(records, bins, b).len() > 0 implies 0 <= b < bins by {
        let r = assigned(records, bins, b)[0];
        records.lemma_filter_pred(|r: Record| r.has_value() && bin_index(edges, r.value()) == b, 0);
        lemma_bin_index_monotone(edges, r.value(), r.value());
    }
    assert forall|i: int| 0 <= i < records.len() && (#[trigger] records[i]).has_value() implies {
        let b = bin_index(edges, records[i].value());
        0 <= b < bins && assigned(records, bins, b).contains(records[i])
    } by {
        let b = bin_index(edges, records[i].value());
        lemma_bin_index_monotone(edges, records[i].value(), records[i].value());
        records.lemma_filter_contains(|r: Record| r.has_value() && bin_index(edges, r.value()) == b, i);
    }
    assert forall|b: int, k: int| 0 <= k < assigned(records, bins, b).len() implies {
        let r = #[trigger] assigned(records, bins, b)[k];
        r.has_value() && bin_index(edges, r.value()) == b
    } by {
        records.lemma_filter_pred(|r: Record| r.has_value() && bin_index(edges, r.value()) == b, k);
    }
}

} // verus!
