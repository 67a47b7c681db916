//! Statistics of one bin: exact means and the most common residential type.

use crate::record::Record;
use vstd::prelude::*;

verus! {

/// An arithmetic mean, kept exact: the sum of the values and how many they
/// are. The mean is `total / count`; `count` is never zero in a mean that
/// this library returns.
#[derive(Debug, PartialEq, Eq)]
pub struct Mean<T> {
    pub total: T,
    pub count: usize,
}

impl<T: Copy> Clone for Mean<T> {
    fn clone(&self) -> (copy: Self)
        ensures
            copy == *self,
    {
        Mean { total: self.total, count: self.count }
    }
}

impl<T: Copy> Copy for Mean<T> {

}

/// The statistics of one bin.
///
/// A mean over no values is `None`, never a made-up number.
#[derive(Debug)]
pub struct ClusterSummary {
    pub cluster_id: usize,
    /// Sum of the assessed values over the number of records.
    pub avg_assessed_value: Option<Mean<u128>>,
    /// Sum of the sales ratios that are present over their number.
    pub avg_sales_ratio: Option<Mean<i128>>,
    /// The residential type that most records name; among equally frequent
    /// types the one that appears first.
    pub most_common_residential_type: Option<String>,
}

/// The sum of the assessed values of `members`, a blank counting as zero.
pub open spec fn total_value(members: Seq<Record>) -> int
    decreases members.len(),
{
    if members.len() == 0 {
        0
    } else {
        total_value(members.drop_last()) + members.last().value()
    }
}

/// The sum of the sales ratios of `members`, a blank counting as zero.
pub open spec fn total_ratio(members: Seq<Record>) -> int
    decreases members.len(),
{
    if members.len() == 0 {
        0
    } else {
        total_ratio(members.drop_last()) + members.last().ratio()
    }
}

/// How many of `members` carry a sales ratio.
pub open spec fn ratio_count(members: Seq<Record>) -> nat {
    members.filter(|r: Record| r.has_ratio()).len()
}

/// `avg` is the mean assessed value of `members`: the divisor is the number
/// of members, and there is no mean of no members.
pub open spec fn is_value_mean(avg: Option<Mean<u128>>, members: Seq<Record>) -> bool {
    match avg {
        Some(mean) => members.len() > 0 && mean.total == total_value(members) && mean.count
            == members.len(),
        None => members.len() == 0,
    }
}

/// `avg` is the mean sales ratio of `members`: blanks add nothing to the sum
/// and are not counted in the divisor, and there is no mean where every
/// ratio is blank.
pub open spec fn is_ratio_mean(avg: Option<Mean<i128>>, members: Seq<Record>) -> bool {
    match avg {
        Some(mean) => ratio_count(members) > 0 && mean.total == total_ratio(members) && mean.count
            == ratio_count(members),
        None => ratio_count(members) == 0,
    }
}

/// How many of `members` name the residential type `name`.
pub open spec fn tally(members: Seq<Record>, name: Seq<char>) -> nat {
    members.filter(|r: Record| r.category() == Some(name)).len()
}

/// How many of `members` name the type that the member at `p` names; zero
/// where that member names none.
pub open spec fn tally_at(members: Seq<Record>, p: int) -> nat {
    match members[p].category() {
        Some(name) => tally(members, name),
        None => 0,
    }
}

/// The member at `p` is the first one whose residential type is named as
/// often as any: no type is named more often, and every earlier member
/// names a less frequent type or none.
pub open spec fn is_modal_position(members: Seq<Record>, p: int) -> bool {
    &&& 0 <= p < members.len()
    &&& members[p].has_type()
    &&& forall|q: int| 0 <= q < members.len() ==> tally_at(members, q) <= tally_at(members, p)
    &&& forall|q: int| 0 <= q < p ==> tally_at(members, q) < tally_at(members, p)
}

/// The most common residential type of `members`, ties going to the type
/// seen first; `None` where no member names a type.
pub open spec fn modal_type(members: Seq<Record>) -> Option<Seq<char>> {
    if exists|p: int| is_modal_position(members, p) {
        members[choose|p: int| is_modal_position(members, p)].category()
    } else {
        None
    }
}

/// An optional name as a sequence of characters.
pub open spec fn name_view(name: Option<String>) -> Option<Seq<char>> {
    match name {
        Some(n) => Some(n@),
        None => None,
    }
}

impl ClusterSummary {
    /// The summary is that of a bin `cluster_id` holding `members`.
    pub open spec fn describes(self, cluster_id: usize, members: Seq<Record>) -> bool {
        &&& self.cluster_id == cluster_id
        &&& is_value_mean(self.avg_assessed_value, members)
        &&& is_ratio_mean(self.avg_sales_ratio, members)
        &&& name_view(self.most_common_residential_type) == modal_type(members)
    }
}

impl Clone for ClusterSummary {
    fn clone(&self) -> (copy: Self)
        ensures
            copy == *self,
    {
        let most_common_residential_type = match &self.most_common_residential_type {
            Some(t) => Some(t.clone()),
            None => None,
        };
        ClusterSummary {
            cluster_id: self.cluster_id,
            avg_assessed_value: self.avg_assessed_value,
            avg_sales_ratio: self.avg_sales_ratio,
            most_common_residential_type,
        }
    }
}

/// There is at most one modal position.
pub proof fn lemma_modal_position_unique(members: Seq<Record>, p: int, q: int)
    requires
        is_modal_position(members, p),
        is_modal_position(members, q),
    ensures
        p == q,
{
    if p < q {
        assert(tally_at(members, p) < tally_at(members, q));
    } else if q < p {
        assert(tally_at(members, q) < tally_at(members, p));
    }
}

/// One more member raises the tally of the type it names by one and leaves
/// the others.
proof fn lemma_tally_push(members: Seq<Record>, r: Record, name: Seq<char>)
    ensures
        tally(members.push(r), name) == tally(members, name) + if r.category() == Some(name) {
            1nat
        } else {
            0nat
        },
{
    members.lemma_filter_push(r, |r: Record| r.category() == Some(name));
}

/// A type that no member names has tally zero.
proof fn lemma_tally_none(members: Seq<Record>, name: Seq<char>)
    requires
        forall|q: int| 0 <= q < members.len() ==> (#[trigger] members[q]).category() != Some(name),
    ensures
        tally(members, name) == 0,
    decreases members.len(),
{
    if members.len() > 0 {
        let rest = members.drop_last();
        assert forall|q: int| 0 <= q < rest.len() implies (#[trigger] rest[q]).category() != Some(name) by {
            assert(rest[q] == members[q]);
        }
        lemma_tally_none(rest, name);
        lemma_tally_push(rest, members.last(), name);
        assert(rest.push(members.last()) =~= members);
    } else {
        assert(members.filter(|r: Record| r.category() == Some(name)).len() <= members.len()) by {
            members.lemma_filter_len(|r: Record| r.category() == Some(name));
        }
    }
}

/// The exact mean of the assessed values of `members`.
pub fn average_value(members: &Vec<Record>) -> (avg: Option<Mean<u128>>)
    ensures
        is_value_mean(avg, members@),
{
    if members.len() == 0 {
        return None;
    }
    let mut total: u128 = 0;
    let mut i: usize = 0;
    while i < members.len()
        invariant
            i <= members.len(),
            total == total_value(members@.take(i as int)),
            total <= i * 0xffff_ffff_ffff_ffff,
        decreases members.len() - i,
    {
        assert(members@.take(i + 1).drop_last() =~= members@.take(i as int));
        match members[i].assessed_value {
            Some(v) => {
                total = total + v as u128;
            },
            None => {},
        }
        i += 1;
    }
    assert(members@.take(members.len() as int) =~= members@);
    Some(Mean { total, count: members.len() })
}

/// The exact mean of the sales ratios that `members` carry.
pub fn average_ratio(members: &Vec<Record>) -> (avg: Option<Mean<i128>>)
    ensures
        is_ratio_mean(avg, members@),
{
    let mut total: i128 = 0;
    let mut count: usize = 0;
    let mut i: usize = 0;
    while i < members.len()
        invariant
            i <= members.len(),
            count <= i,
            count == ratio_count(members@.take(i as int)),
            total == total_ratio(members@.take(i as int)),
            -(i * 0x8000_0000_0000_0000) <= total <= i * 0x8000_0000_0000_0000,
        decreases members.len() - i,
    {
        proof {
            let before = members@.take(i as int);
            assert(members@.take(i + 1).drop_last() =~= before);
            assert(members@.take(i + 1) =~= before.push(members@[i as int]));
            before.lemma_filter_push(members@[i as int], |r: Record| r.has_ratio());
        }
        match members[i].sales_ratio {
            Some(ratio) => {
                total = total + ratio as i128;
                count += 1;
            },
            None => {},
        }
        i += 1;
    }
    assert(members@.take(members.len() as int) =~= members@);
    if count == 0 {
        None
    } else {
        Some(Mean { total, count })
    }
}

/// The type that the member at `p` names; empty where it names none.
pub open spec fn name_at(members: Seq<Record>, p: int) -> Seq<char> {
    match members[p].category() {
        Some(name) => name,
        None => Seq::empty(),
    }
}

/// Finds the most common residential type of `members`. Among types that
/// are equally frequent the one whose first record comes first wins.
pub fn most_common_type(members: &Vec<Record>) -> (out: Option<String>)
    ensures
        name_view(out) == modal_type(members@),
{
    // One entry per type, in order of first appearance: where it was first
    // seen, and how often so far.
    let mut firsts: Vec<usize> = Vec::new();
    let mut counts: Vec<usize> = Vec::new();
    let ghost mut slots: Seq<int> = Seq::empty();
    let mut i: usize = 0;
    while i < members.len()
        invariant
            i <= members.len(),
            firsts.len() == counts.len(),
            slots.len() == i,
            forall|j: int|
                0 <= j < firsts.len() ==> #[trigger] firsts[j] < i && members@[firsts[j] as int].has_type(),
            forall|a: int, b: int|
                #![trigger firsts[a], firsts[b]]
                0 <= a < b < firsts.len() ==> firsts[a] < firsts[b] && name_at(members@, firsts[a] as int)
                    != name_at(members@, firsts[b] as int),
            forall|j: int|
                0 <= j < counts.len() ==> #[trigger] counts[j] == tally(
                    members@.take(i as int),
                    name_at(members@, firsts[j] as int),
                ) && counts[j] >= 1,
            forall|q: int|
                0 <= q < i && members@[q].has_type() ==> 0 <= #[trigger] slots[q] < firsts.len()
                    && firsts[slots[q]] <= q && name_at(members@, firsts[slots[q]] as int) == name_at(
                    members@,
                    q,
                ),
        decreases members.len() - i,
    {
        let ghost before = members@.take(i as int);
        let ghost r = members@[i as int];
        proof {
            assert(members@.take(i + 1) =~= before.push(r));
            assert forall|j: int| 0 <= j < counts.len() implies tally(
                before.push(r),
                name_at(members@, #[trigger] firsts[j] as int),
            ) == counts[j] + if r.category() == Some(name_at(members@, firsts[j] as int)) {
                1nat
            } else {
                0nat
            } && counts[j] <= i by {
                let name = name_at(members@, firsts[j] as int);
                lemma_tally_push(before, r, name);
                before.lemma_filter_len(|r: Record| r.category() == Some(name));
            }
        }
        match &members[i].residential_type {
            Some(name) => {
                let mut j: usize = 0;
                let mut found = false;
                while j < firsts.len() && !found
                    invariant
                        j <= firsts.len(),
                        i < members.len(),
                        forall|k: int| 0 <= k < firsts.len() ==> #[trigger] firsts[k] < i,
                        forall|k: int| 0 <= k < j ==> name_at(members@, #[trigger] firsts[k] as int) != name@,
                        found ==> j < firsts.len() && name_at(members@, firsts[j as int] as int) == name@
                            && members@[firsts[j as int] as int].has_type(),
                        forall|k: int|
                            0 <= k < firsts.len() ==> members@[#[trigger] firsts[k] as int].has_type(),
                    decreases firsts.len() - j + if found { 0int } else { 1int },
                {
                    let same = match &members[firsts[j]].residential_type {
                        Some(other) => *other == *name,
                        None => false,
                    };
                    if same {
                        found = true;
                    } else {
                        j += 1;
                    }
                }
                if found {
                    assert(counts[j as int] <= i);
                    let raised = counts[j] + 1;
                    counts.set(j, raised);
                    proof {
                        slots = slots.push(j as int);
                        assert forall|k: int| 0 <= k < counts.len() implies #[trigger] counts[k] == tally(
                            before.push(r),
                            name_at(members@, firsts[k] as int),
                        ) by {
                            if k < j {
                                assert(name_at(members@, firsts[k] as int) != name_at(
                                    members@,
                                    firsts[j as int] as int,
                                ));
                            } else if k > j {
                                assert(name_at(members@, firsts[j as int] as int) != name_at(
                                    members@,
                                    firsts[k] as int,
                                ));
                            }
                        }
                    }
                } else {
                    proof {
                        assert forall|q: int| 0 <= q < before.len() implies (#[trigger] before[q]).category()
                            != Some(name@) by {
                            if before[q].has_type() {
                                assert(members@[q].has_type());
                                let k = slots[q];
                                assert(name_at(members@, firsts[k] as int) != name@);
                            }
                        }
                        lemma_tally_none(before, name@);
                        lemma_tally_push(before, r, name@);
                        slots = slots.push(firsts.len() as int);
                    }
                    firsts.push(i);
                    counts.push(1);
                }
            },
            None => {
                proof {
                    slots = slots.push(-1);
                }
            },
        }
        i += 1;
    }
    assert(members@.take(members.len() as int) =~= members@);
    if firsts.len() == 0 {
        proof {
            assert forall|p: int| !is_modal_position(members@, p) by {
                if 0 <= p < members.len() && members@[p].has_type() {
                    assert(0 <= slots[p] < firsts.len());
                }
            }
        }
        return None;
    }
    let mut best: usize = 0;
    let mut j: usize = 1;
    while j < firsts.len()
        invariant
            firsts.len() == counts.len(),
            best < j <= firsts.len(),
            forall|k: int| 0 <= k < j ==> #[trigger] counts[k] <= counts[best as int],
            forall|k: int| 0 <= k < best ==> #[trigger] counts[k] < counts[best as int],
        decreases firsts.len() - j,
    {
        if counts[j] > counts[best] {
            best = j;
        }
        j += 1;
    }
    let at = firsts[best];
    proof {
        let top = counts[best as int];
        assert(tally_at(members@, at as int) == top);
        assert forall|q: int| 0 <= q < members.len() implies tally_at(members@, q) <= top && (q < at
            ==> tally_at(members@, q) < top) by {
            if members@[q].has_type() {
                let k = slots[q];
                assert(tally_at(members@, q) == counts[k]);
                if q < at && k >= best {
                    if k > best {
                        assert(firsts[best as int] < firsts[k]);
                    }
                }
            }
        }
        assert(is_modal_position(members@, at as int));
        lemma_modal_position_unique(members@, at as int, choose|p: int| is_modal_position(members@, p));
    }
    match &members[at].residential_type {
        Some(name) => Some(name.clone()),
        None => None,
    }
}

/// Computes the statistics of one bin.
pub fn summarize(cluster_id: usize, members: &Vec<Record>) -> (summary: ClusterSummary)
    ensures
        summary.describes(cluster_id, members@),
{
    ClusterSummary {
        cluster_id,
        avg_assessed_value: average_value(members),
        avg_sales_ratio: average_ratio(members),
        most_common_residential_type: most_common_type(members),
    }
}

} // verus!
