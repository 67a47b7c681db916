//! Random sampling after a trim of the records with the lowest and the
//! highest sales ratios.

use crate::data_cleaner::cleaned;
use crate::error::Error;
use crate::order::{
    as_keys, as_positions, before, lemma_place_is_rank, lemma_sorted_keys_stay, lemma_stable_order, precedes,
    sort_positions, stable_order,
};
use crate::record::Record;
use rand::rngs::ThreadRng;
use rand::seq::SliceRandom;
use vstd::prelude::*;

verus! {

/// How many records are cut from each end of the ratio-sorted records before
/// sampling. The cut is a fixed count, not a share of the input, and is made
/// only when more than twice as many records are there.
pub const OUTLIER_TRIM: usize = 150;

/// The sales ratios of `records`, zero where one is blank.
pub open spec fn ratio_keys(records: Seq<Record>) -> Seq<int> {
    records.map_values(|r: Record| r.ratio())
}

/// `records` in ascending order of sales ratio, records of equal ratio in
/// the order in which they came.
pub open spec fn sorted_by_ratio(records: Seq<Record>) -> Seq<Record> {
    stable_order(ratio_keys(records)).map_values(|p: int| records[p])
}

/// `sorted` without its first and last [`OUTLIER_TRIM`] items, or all of it
/// where it holds no more than the two cuts together.
pub open spec fn trimmed<T>(sorted: Seq<T>) -> Seq<T> {
    if sorted.len() > 2 * OUTLIER_TRIM {
        sorted.subrange(OUTLIER_TRIM as int, sorted.len() - OUTLIER_TRIM)
    } else {
        sorted
    }
}

/// The records that a sample is drawn from: those with a residential type,
/// sorted by sales ratio and trimmed.
pub open spec fn trimmed_pool(records: Seq<Record>) -> Seq<Record> {
    trimmed(sorted_by_ratio(cleaned(records)))
}

/// The positions of the records that name a residential type, ascending.
pub open spec fn typed_positions(records: Seq<Record>) -> Seq<int>
    decreases records.len(),
{
    if records.len() == 0 {
        Seq::empty()
    } else {
        let rest = typed_positions(records.drop_last());
        if records.last().has_type() {
            rest.push(records.len() - 1)
        } else {
            rest
        }
    }
}

/// The positions, within `records`, of the records of the trimmed pool, in
/// pool order.
pub open spec fn pool_places(records: Seq<Record>) -> Seq<int> {
    trimmed(stable_order(ratio_keys(cleaned(records))).map_values(|p: int| typed_positions(records)[p]))
}

/// Some record with a residential type has no sales ratio, so the records
/// cannot be ordered.
pub open spec fn lacks_ratio(records: Seq<Record>) -> bool {
    exists|i: int| 0 <= i < records.len() && (#[trigger] records[i]).has_type() && !records[i].has_ratio()
}

/// `picks` names positions below `n`, none of them twice.
pub open spec fn is_selection(picks: Seq<int>, n: nat) -> bool {
    &&& picks.no_duplicates()
    &&& forall|i: int| 0 <= i < picks.len() ==> 0 <= #[trigger] picks[i] < n
}

/// `sample` is drawn from `pool` without replacement: its items are the
/// items at some selection of positions of `pool`, in the order drawn.
pub open spec fn is_draw<T>(sample: Seq<T>, pool: Seq<T>) -> bool {
    exists|picks: Seq<int>| #[trigger]
        is_selection(picks, pool.len()) && sample == picks.map_values(|p: int| pool[p])
}

/// The smaller of two counts.
pub open spec fn at_most(a: int, b: int) -> int {
    if a <= b {
        a
    } else {
        b
    }
}

/// `rand::rngs::ThreadRng`, the random number generator of the calling
/// thread. Nothing inside it is visible here: it is only handed on.
#[verifier::external_type_specification]
#[verifier::external_body]
pub struct ExThreadRng(ThreadRng);

/// `rand::thread_rng`: hands out the calling thread's generator, seeded by
/// the system. Nothing is claimed of it. It panics where the system's source
/// of randomness cannot be read.
pub assume_specification[ rand::thread_rng ]() -> (rng: ThreadRng)
;

/// `rand::seq::SliceRandom::choose_multiple` on a slice of positions,
/// collected into a vector.
///
/// The call draws `amount` items, or all of them where the slice holds
/// fewer, each from a different place of the slice. Which ones, and in what
/// order, is left open.
#[verifier::external_body]
fn choose_multiple(pool: &Vec<usize>, rng: &mut ThreadRng, amount: usize) -> (picked: Vec<usize>)
    ensures
        picked.len() == at_most(amount as int, pool.len() as int),
        is_draw(picked@, pool@),
{
    pool.choose_multiple(rng, amount).copied().collect()
}

/// Copies the records at `positions`, in that order.
pub fn gather(records: &[Record], positions: &Vec<usize>) -> (out: Vec<Record>)
    requires
        forall|i: int| 0 <= i < positions.len() ==> #[trigger] positions[i] < records.len(),
    ensures
        out@ == as_positions(positions@).map_values(|p: int| records@[p]),
{
    let mut out: Vec<Record> = Vec::new();
    let mut i: usize = 0;
    while i < positions.len()
        invariant
            i <= positions.len(),
            forall|i: int| 0 <= i < positions.len() ==> #[trigger] positions[i] < records.len(),
            out.len() == i,
            forall|k: int| 0 <= k < i ==> #[trigger] out@[k] == records@[positions@[k] as int],
        decreases positions.len() - i,
    {
        out.push(records[positions[i]].clone());
        i += 1;
    }
    assert(out@ =~= as_positions(positions@).map_values(|p: int| records@[p]));
    out
}

/// Finds the positions, within `records`, of the trimmed pool, in pool
/// order.
///
/// A record with a residential type but without a sales ratio cannot be
/// ordered: the input is then refused.
pub fn pool_positions(records: &[Record]) -> (out: Result<Vec<usize>, Error>)
    ensures
        match out {
            Ok(pool) => {
                &&& !lacks_ratio(records@)
                &&& as_positions(pool@) == pool_places(records@)
                &&& pool@.no_duplicates()
                &&& forall|i: int| 0 <= i < pool.len() ==> #[trigger] pool[i] < records.len()
                &&& as_positions(pool@).map_values(|p: int| records@[p]) == trimmed_pool(records@)
            },
            Err(e) => e == Error::InvalidInput && lacks_ratio(records@),
        },
{
    let mut kept: Vec<usize> = Vec::new();
    let mut keys: Vec<i128> = Vec::new();
    let mut i: usize = 0;
    while i < records.len()
        invariant
            i <= records.len(),
            kept.len() == keys.len(),
            forall|k: int| 0 <= k < kept.len() ==> #[trigger] kept[k] < i,
            forall|a: int, b: int| 0 <= a < b < kept.len() ==> #[trigger] kept[a] < #[trigger] kept[b],
            as_positions(kept@) == typed_positions(records@.take(i as int)),
            as_positions(kept@).map_values(|p: int| records@[p]) == cleaned(records@.take(i as int)),
            as_keys(keys@) == ratio_keys(cleaned(records@.take(i as int))),
            forall|k: int| 0 <= k < i ==> (#[trigger] records@[k]).has_type() ==> records@[k].has_ratio(),
        decreases records.len() - i,
    {
        let ghost before = records@.take(i as int);
        let ghost r = records@[i as int];
        proof {
            assert(records@.take(i + 1) =~= before.push(r));
            assert(records@.take(i + 1).drop_last() =~= before);
            before.lemma_filter_push(r, |r: Record| r.has_type());
        }
        if records[i].residential_type.is_some() {
            match records[i].sales_ratio {
                Some(ratio) => {
                    kept.push(i);
                    keys.push(ratio as i128);
                    assert(as_positions(kept@) =~= typed_positions(before).push(i as int));
                    assert(as_positions(kept@).map_values(|p: int| records@[p]) =~= cleaned(before).push(r));
                    assert(as_keys(keys@) =~= ratio_keys(cleaned(before)).push(r.ratio()));
                },
                None => {
                    return Err(Error::InvalidInput);
                },
            }
        }
        i += 1;
    }
    assert(records@.take(records.len() as int) =~= records@);
    let ghost clean = cleaned(records@);
    let order = sort_positions(&keys);
    let n = order.len();
    let (start, end) = if n > 2 * OUTLIER_TRIM {
        (OUTLIER_TRIM, n - OUTLIER_TRIM)
    } else {
        (0, n)
    };
    proof {
        lemma_stable_order(ratio_keys(clean));
        assert(sorted_by_ratio(clean).len() == n);
    }
    let mut pool: Vec<usize> = Vec::new();
    let mut k: usize = start;
    while k < end
        invariant
            start <= k <= end <= n,
            n == order.len(),
            n == kept.len(),
            forall|j: int| 0 <= j < order.len() ==> #[trigger] order[j] < kept.len(),
            forall|j: int| 0 <= j < kept.len() ==> #[trigger] kept[j] < records.len(),
            pool.len() == k - start,
            forall|q: int| 0 <= q < pool.len() ==> #[trigger] pool[q] == kept[order[start + q] as int],
        decreases end - k,
    {
        pool.push(kept[order[k]]);
        k += 1;
    }
    proof {
        let arrangement = stable_order(ratio_keys(clean));
        assert(as_positions(order@) == arrangement);
        assert forall|q: int| 0 <= q < pool.len() implies records@[#[trigger] pool[q] as int] == trimmed_pool(
            records@,
        )[q] by {
            let at = order[start + q] as int;
            assert(as_positions(order@)[start + q] == at);
            assert(as_positions(kept@).map_values(|p: int| records@[p])[at] == clean[at]);
        }
        assert(as_positions(pool@).map_values(|p: int| records@[p]) =~= trimmed_pool(records@));
        assert(as_positions(pool@) =~= pool_places(records@)) by {
            assert forall|q: int| 0 <= q < pool.len() implies as_positions(pool@)[q] == pool_places(
                records@,
            )[q] by {
                assert(as_positions(order@)[start + q] == order[start + q]);
                assert(as_positions(kept@)[order[start + q] as int] == kept[order[start + q] as int]);
            }
        }
        assert forall|a: int, b: int| 0 <= a < pool.len() && 0 <= b < pool.len() && a != b implies pool[a]
            != pool[b] by {
            let x = order[start + a] as int;
            let y = order[start + b] as int;
            assert(as_positions(order@)[start + a] == x);
            assert(as_positions(order@)[start + b] == y);
            assert(x != y) by {
                if start + a < start + b {
                    assert(precedes(ratio_keys(clean), arrangement[start + a], arrangement[start + b]));
                } else {
                    assert(precedes(ratio_keys(clean), arrangement[start + b], arrangement[start + a]));
                }
            }
            if x < y {
                assert(kept[x] < kept[y]);
            } else {
                assert(kept[y] < kept[x]);
            }
        }
        assert(!lacks_ratio(records@));
    }
    Ok(pool)
}

/// Draws a random sample of at most `sample_size` records.
///
/// Records without a residential type are left out, the rest is sorted by
/// sales ratio and trimmed (see [`trimmed_pool`]), and the sample is drawn
/// from what remains, without replacement. A pool smaller than
/// `sample_size` is returned whole. The order of the sample is not that of
/// the input.
pub fn sample_data(records: &[Record], sample_size: usize) -> (out: Result<Vec<Record>, Error>)
    ensures
        match out {
            Ok(sample) => {
                &&& !lacks_ratio(records@)
                &&& sample.len() == at_most(sample_size as int, trimmed_pool(records@).len() as int)
                &&& is_draw(sample@, trimmed_pool(records@))
            },
            Err(e) => e == Error::InvalidInput && lacks_ratio(records@),
        },
{
    let pool = match pool_positions(records) {
        Ok(pool) => pool,
        Err(e) => {
            return Err(e);
        },
    };
    let mut rng = rand::thread_rng();
    let picked = choose_multiple(&pool, &mut rng, sample_size);
    proof {
        lemma_draw_through(picked@, pool@, records@);
    }
    let sample = gather(records, &picked);
    Ok(sample)
}

/// A draw of positions, read through the records at those positions, is a
/// draw of the records there.
pub proof fn lemma_draw_through(picked: Seq<usize>, pool: Seq<usize>, records: Seq<Record>)
    requires
        is_draw(picked, pool),
        forall|i: int| 0 <= i < pool.len() ==> #[trigger] pool[i] < records.len(),
    ensures
        forall|i: int| 0 <= i < picked.len() ==> #[trigger] picked[i] < records.len(),
        is_draw(
            as_positions(picked).map_values(|p: int| records[p]),
            as_positions(pool).map_values(|p: int| records[p]),
        ),
{
    let picks = choose|picks: Seq<int>| #[trigger]
        is_selection(picks, pool.len()) && picked == picks.map_values(|p: int| pool[p]);
    let there = as_positions(pool).map_values(|p: int| records[p]);
    let drawn = as_positions(picked).map_values(|p: int| records[p]);
    assert forall|i: int| 0 <= i < picked.len() implies #[trigger] picked[i] < records.len() by {
        assert(picked[i] == pool[picks[i]]);
    }
    assert(drawn =~= picks.map_values(|p: int| there[p])) by {
        assert forall|i: int| 0 <= i < drawn.len() implies drawn[i] == there[picks[i]] by {
            assert(picked[i] == pool[picks[i]]);
        }
    }
    assert(is_selection(picks, there.len()));
}

/// Cleaning twice changes nothing more, so sampling cleaned records draws
/// from the same pool as sampling the records themselves.
pub proof fn lemma_cleaned_twice(records: Seq<Record>)
    ensures
        cleaned(cleaned(records)) == cleaned(records),
        trimmed_pool(cleaned(records)) == trimmed_pool(records),
        forall|k: int| 0 <= k < cleaned(records).len() ==> (#[trigger] cleaned(records)[k]).has_type(),
    decreases records.len(),
{
    if records.len() > 0 {
        let rest = records.drop_last();
        let r = records.last();
        assert(rest.push(r) =~= records);
        lemma_cleaned_twice(rest);
        rest.lemma_filter_push(r, |r: Record| r.has_type());
        if r.has_type() {
            cleaned(rest).lemma_filter_push(r, |r: Record| r.has_type());
        }
    } else {
        records.lemma_filter_len(|r: Record| r.has_type());
    }
    assert forall|k: int| 0 <= k < cleaned(records).len() implies (#[trigger] cleaned(
        records,
    )[k]).has_type() by {
        records.lemma_filter_pred(|r: Record| r.has_type(), k);
    }
}

/// The sorted records are as many as the records, every one of them is one
/// of the records, and their ratios never decrease.
pub proof fn lemma_sorted_by_ratio(records: Seq<Record>)
    ensures
        sorted_by_ratio(records).len() == records.len(),
        is_draw(sorted_by_ratio(records), records),
        forall|i: int, j: int|
            #![trigger sorted_by_ratio(records)[i], sorted_by_ratio(records)[j]]
            0 <= i <= j < records.len() ==> sorted_by_ratio(records)[i].ratio() <= sorted_by_ratio(
                records,
            )[j].ratio(),
{
    let keys = ratio_keys(records);
    lemma_stable_order(keys);
    let order = stable_order(keys);
    assert forall|i: int, j: int| 0 <= i < order.len() && 0 <= j < order.len() && i != j implies order[i]
        != order[j] by {
        if i < j {
            assert(precedes(keys, order[i], order[j]));
        } else {
            assert(precedes(keys, order[j], order[i]));
        }
    }
    assert(is_selection(order, records.len()));
    assert forall|i: int, j: int| 0 <= i <= j < records.len() implies sorted_by_ratio(records)[i].ratio()
        <= sorted_by_ratio(records)[j].ratio() by {
        if i < j {
            assert(precedes(keys, order[i], order[j]));
        }
    }
}

/// A draw from a draw is a draw from the first pool.
pub proof fn lemma_draw_of_draw<T>(sample: Seq<T>, middle: Seq<T>, pool: Seq<T>)
    requires
        is_draw(sample, middle),
        is_draw(middle, pool),
    ensures
        is_draw(sample, pool),
{
    let inner = choose|picks: Seq<int>| #[trigger]
        is_selection(picks, middle.len()) && sample == picks.map_values(|p: int| middle[p]);
    let outer = choose|picks: Seq<int>| #[trigger]
        is_selection(picks, pool.len()) && middle == picks.map_values(|p: int| pool[p]);
    let both = inner.map_values(|p: int| outer[p]);
    assert(is_selection(both, pool.len()));
    assert(sample =~= both.map_values(|p: int| pool[p]));
}

/// The trimmed pool is a stretch of the sorted cleaned records: all of them
/// where they are no more than twice the trim, else all but the trim at
/// either end. It is drawn from the cleaned records, and every record in it
/// has a residential type.
pub proof fn lemma_trimmed_pool(records: Seq<Record>)
    ensures
        trimmed_pool(records).len() == if cleaned(records).len() > 2 * OUTLIER_TRIM {
            cleaned(records).len() - 2 * OUTLIER_TRIM
        } else {
            cleaned(records).len() as int
        },
        is_draw(trimmed_pool(records), cleaned(records)),
        forall|k: int|
            0 <= k < trimmed_pool(records).len() ==> (#[trigger] trimmed_pool(records)[k]).has_type(),
        forall|i: int, j: int|
            #![trigger trimmed_pool(records)[i], trimmed_pool(records)[j]]
            0 <= i <= j < trimmed_pool(records).len() ==> trimmed_pool(records)[i].ratio() <= trimmed_pool(
                records,
            )[j].ratio(),
{
    let clean = cleaned(records);
    let sorted = sorted_by_ratio(clean);
    let pool = trimmed_pool(records);
    lemma_cleaned_twice(records);
    lemma_sorted_by_ratio(clean);
    let start: int = if sorted.len() > 2 * OUTLIER_TRIM {
        OUTLIER_TRIM as int
    } else {
        0
    };
    let stretch = Seq::new(pool.len(), |k: int| start + k);
    assert(is_selection(stretch, sorted.len()));
    assert(pool =~= stretch.map_values(|p: int| sorted[p]));
    assert(is_draw(pool, sorted));
    lemma_draw_of_draw(pool, sorted, clean);
    assert forall|i: int, j: int| 0 <= i <= j < pool.len() implies pool[i].ratio() <= pool[j].ratio() by {
        assert(sorted[start + i].ratio() <= sorted[start + j].ratio());
    }
    let picks = choose|picks: Seq<int>| #[trigger]
        is_selection(picks, clean.len()) && pool == picks.map_values(|p: int| clean[p]);
    assert forall|k: int| 0 <= k < pool.len() implies (#[trigger] pool[k]).has_type() by {
        assert(pool[k] == clean[picks[k]]);
    }
}

/// Cleaning and then sampling yields records of the cleaned input, each
/// taken from a place of its own, and each with a residential type.
pub proof fn lemma_sample_within_cleaned(records: Seq<Record>, sample: Seq<Record>)
    requires
        is_draw(sample, trimmed_pool(cleaned(records))),
    ensures
        is_draw(sample, cleaned(records)),
        forall|i: int| 0 <= i < sample.len() ==> (#[trigger] sample[i]).has_type(),
{
    lemma_cleaned_twice(records);
    lemma_trimmed_pool(records);
    let pool = trimmed_pool(records);
    lemma_draw_of_draw(sample, pool, cleaned(records));
    let picks = choose|picks: Seq<int>| #[trigger]
        is_selection(picks, pool.len()) && sample == picks.map_values(|p: int| pool[p]);
    assert forall|i: int| 0 <= i < sample.len() implies (#[trigger] sample[i]).has_type() by {
        assert(sample[i] == pool[picks[i]]);
    }
}

/// Where more than twice the trim of typed records come in ascending order
/// of ratio, the pool is those records without the first and the last
/// [`OUTLIER_TRIM`]; a sample of up to `target` of them is drawn from that
/// stretch and is as large as the stretch allows.
pub proof fn lemma_sample_of_ascending_records(records: Seq<Record>, sample: Seq<Record>, target: int)
    requires
        cleaned(records).len() > 2 * OUTLIER_TRIM,
        forall|i: int, j: int|
            0 <= i <= j < cleaned(records).len() ==> cleaned(records)[i].ratio() <= cleaned(
                records,
            )[j].ratio(),
        is_draw(sample, trimmed_pool(records)),
        sample.len() == at_most(target, trimmed_pool(records).len() as int),
    ensures
        trimmed_pool(records) == cleaned(records).subrange(
            OUTLIER_TRIM as int,
            cleaned(records).len() - OUTLIER_TRIM,
        ),
        is_draw(
            sample,
            cleaned(records).subrange(OUTLIER_TRIM as int, cleaned(records).len() - OUTLIER_TRIM),
        ),
        sample.len() == at_most(target, cleaned(records).len() - 2 * OUTLIER_TRIM),
{
    let clean = cleaned(records);
    let keys = ratio_keys(clean);
    assert forall|i: int, j: int| 0 <= i <= j < keys.len() implies keys[i] <= keys[j] by {
        assert(clean[i].ratio() <= clean[j].ratio());
    }
    lemma_sorted_keys_stay(keys);
    assert(sorted_by_ratio(clean) =~= clean);
}

/// The positions of the records whose sales ratio is smaller than `ratio`.
pub open spec fn smaller_ratios(records: Seq<Record>, ratio: int) -> Set<int> {
    Set::new(|q: int| 0 <= q < records.len() && records[q].ratio() < ratio)
}

/// Where more than twice the trim of typed records have ratios that all
/// differ, the pool holds them by rank: exactly [`OUTLIER_TRIM`]` + k` of
/// them have a smaller ratio than the record at place `k` of the pool. So
/// the pool is the records of the ranks past the trim, up to the trim
/// before the last.
pub proof fn lemma_pool_holds_middle_ranks(records: Seq<Record>, k: int)
    requires
        cleaned(records).len() > 2 * OUTLIER_TRIM,
        0 <= k < cleaned(records).len() - 2 * OUTLIER_TRIM,
        forall|i: int, j: int|
            0 <= i < j < cleaned(records).len() ==> cleaned(records)[i].ratio() != cleaned(
                records,
            )[j].ratio(),
    ensures
        trimmed_pool(records).len() == cleaned(records).len() - 2 * OUTLIER_TRIM,
        smaller_ratios(cleaned(records), trimmed_pool(records)[k].ratio()).finite(),
        smaller_ratios(cleaned(records), trimmed_pool(records)[k].ratio()).len() == OUTLIER_TRIM + k,
{
    let clean = cleaned(records);
    let keys = ratio_keys(clean);
    lemma_stable_order(keys);
    lemma_place_is_rank(keys, OUTLIER_TRIM + k);
    let p = stable_order(keys)[OUTLIER_TRIM + k];
    assert(trimmed_pool(records)[k] == clean[p]);
    assert(smaller_ratios(clean, clean[p].ratio()) =~= before(keys, p)) by {
        assert forall|q: int| 0 <= q < clean.len() implies (clean[q].ratio() < clean[p].ratio()) == precedes(
            keys,
            q,
            p,
        ) by {
            if q < p {
                assert(clean[q].ratio() != clean[p].ratio());
            } else if p < q {
                assert(clean[p].ratio() != clean[q].ratio());
            }
        }
    }
}

} // verus!
