//! The bars of the histogram of run durations, one row of bars per
//! algorithm.
use vstd::prelude::*;

verus! {

/// The shortest first duration of the rows.
pub open spec fn min_first(ds: Seq<Seq<u64>>) -> u64
    decreases ds.len(),
{
    if ds.len() <= 1 {
        ds[0][0]
    } else {
        let m = min_first(ds.drop_last());
        if ds.last()[0] < m {
            ds.last()[0]
        } else {
            m
        }
    }
}

/// The longest last duration of the rows.
pub open spec fn max_last(ds: Seq<Seq<u64>>) -> u64
    decreases ds.len(),
{
    if ds.len() <= 1 {
        ds[0].last()
    } else {
        let m = max_last(ds.drop_last());
        if ds.last().last() > m {
            ds.last().last()
        } else {
            m
        }
    }
}

/// The width of a bar: the range of durations split in `bars_number`.
pub open spec fn slot_width(ds: Seq<Seq<u64>>, bars_number: nat) -> int {
    (max_last(ds) - min_first(ds)) / bars_number as int
}

/// The bar of duration `d`, before the last bar absorbs all that lie past it.
pub open spec fn raw_bar(d: u64, min: u64, slot: int) -> int {
    if slot == 0 {
        0
    } else {
        (d - min) / slot
    }
}

/// The bar that duration `d` falls in: the last bar for all durations past
/// it (the longest one among them).
pub open spec fn bar_of(d: u64, min: u64, slot: int, bars_number: nat) -> int {
    if raw_bar(d, min, slot) >= bars_number {
        bars_number - 1
    } else {
        raw_bar(d, min, slot)
    }
}

/// Number of the first `k` durations of `row` that fall in bar `b`.
pub open spec fn bar_count(row: Seq<u64>, min: u64, slot: int, bars_number: nat, b: int, k: nat) -> nat
    decreases k,
{
    if k == 0 {
        0
    } else {
        bar_count(row, min, slot, bars_number, b, (k - 1) as nat) + if bar_of(
            row[k - 1],
            min,
            slot,
            bars_number,
        ) == b {
            1nat
        } else {
            0nat
        }
    }
}

/// There are rows and bars, each row is non-empty, and no duration is below
/// the least first duration, which is not above the greatest last one.
pub open spec fn histogram_input_ok(ds: Seq<Seq<u64>>, bars_number: nat) -> bool {
    &&& ds.len() > 0
    &&& bars_number > 0
    &&& forall|a: int| 0 <= a < ds.len() ==> (#[trigger] ds[a]).len() > 0
    &&& forall|a: int, i: int| 0 <= a < ds.len() && 0 <= i < ds[a].len() ==> min_first(ds) <= #[trigger] ds[a][i]
    &&& min_first(ds) <= max_last(ds)
}

/// The bounds of a histogram are the extreme durations: the least first
/// duration is at most the first duration of every row and is the first
/// duration of some row; the greatest last duration is at least the last
/// duration of every row and is the last duration of some row.
pub proof fn lemma_bounds_are_extremes(ds: Seq<Seq<u64>>)
    requires
        ds.len() > 0,
        forall|a: int| 0 <= a < ds.len() ==> (#[trigger] ds[a]).len() > 0,
    ensures
        forall|a: int| 0 <= a < ds.len() ==> min_first(ds) <= (#[trigger] ds[a])[0] && ds[a].last() <= max_last(ds),
        exists|a: int| 0 <= a < ds.len() && min_first(ds) == (#[trigger] ds[a])[0],
        exists|a: int| 0 <= a < ds.len() && max_last(ds) == (#[trigger] ds[a]).last(),
    decreases ds.len(),
{
    if ds.len() > 1 {
        let d = ds.drop_last();
        assert forall|a: int| 0 <= a < d.len() implies (#[trigger] d[a]).len() > 0 by {
            assert(d[a] == ds[a]);
        }
        lemma_bounds_are_extremes(d);
        assert forall|a: int| 0 <= a < ds.len() implies min_first(ds) <= (#[trigger] ds[a])[0] && ds[a].last()
            <= max_last(ds) by {
            if a < d.len() {
                assert(d[a] == ds[a]);
            }
        }
        let i = choose|a: int| 0 <= a < d.len() && min_first(d) == (#[trigger] d[a])[0];
        let j = choose|a: int| 0 <= a < d.len() && max_last(d) == (#[trigger] d[a]).last();
        assert(d[i] == ds[i] && d[j] == ds[j]);
        if ds.last()[0] < min_first(d) {
            assert(min_first(ds) == ds[ds.len() - 1][0]);
        } else {
            assert(min_first(ds) == ds[i][0]);
        }
        if ds.last().last() > max_last(d) {
            assert(max_last(ds) == ds[ds.len() - 1].last());
        } else {
            assert(max_last(ds) == ds[j].last());
        }
    } else {
        assert(min_first(ds) == ds[0][0]);
        assert(max_last(ds) == ds[0].last());
    }
}

/// Sum of counts.
pub open spec fn counts_sum(s: Seq<usize>) -> nat
    decreases s.len(),
{
    if s.len() == 0 {
        0
    } else {
        counts_sum(s.drop_last()) + s.last() as nat
    }
}

/// Adding one to a count adds one to the sum.
proof fn lemma_counts_sum_increment(s: Seq<usize>, j: int)
    requires
        0 <= j < s.len(),
        s[j] < usize::MAX,
    ensures
        counts_sum(s.update(j, (s[j] + 1) as usize)) == counts_sum(s) + 1,
    decreases s.len(),
{
    let t = s.update(j, (s[j] + 1) as usize);
    if j < s.len() - 1 {
        assert(t.drop_last() == s.drop_last().update(j, (s[j] + 1) as usize));
        lemma_counts_sum_increment(s.drop_last(), j);
    } else {
        assert(t.drop_last() == s.drop_last());
    }
}

proof fn lemma_counts_sum_zero(s: Seq<usize>)
    requires
        forall|c: int| 0 <= c < s.len() ==> s[c] == 0,
    ensures
        counts_sum(s) == 0,
    decreases s.len(),
{
    if s.len() > 0 {
        lemma_counts_sum_zero(s.drop_last());
    }
}

/// The least first duration and the greatest last duration of the rows
/// (the shortest and the longest when rows are sorted, as run durations
/// are), and for each row the number of its durations in each of
/// `bars_number` bars of equal width between them (a duration at the top
/// counts in the last bar).
pub fn histogram_bars(durations: &Vec<Vec<u64>>, bars_number: usize) -> (r: (u64, u64, Vec<Vec<usize>>))
    requires
        histogram_input_ok(durations@.map_values(|v: Vec<u64>| v@), bars_number as nat),
    ensures
        r.0 == min_first(durations@.map_values(|v: Vec<u64>| v@)),
        r.1 == max_last(durations@.map_values(|v: Vec<u64>| v@)),
        forall|a: int|
            0 <= a < durations@.len() ==> r.0 <= (#[trigger] durations@[a])@[0] && durations@[a]@.last() <= r.1,
        exists|a: int| 0 <= a < durations@.len() && r.0 == (#[trigger] durations@[a])@[0],
        exists|a: int| 0 <= a < durations@.len() && r.1 == (#[trigger] durations@[a])@.last(),
        r.2@.len() == durations@.len(),
        forall|a: int| 0 <= a < r.2@.len() ==> (#[trigger] r.2@[a])@.len() == bars_number,
        forall|a: int| 0 <= a < r.2@.len() ==> counts_sum((#[trigger] r.2@[a])@) == durations@[a]@.len(),
        forall|a: int, b: int|
            0 <= a < r.2@.len() && 0 <= b < bars_number ==> #[trigger] r.2@[a]@[b] == bar_count(
                durations@[a]@,
                r.0,
                slot_width(durations@.map_values(|v: Vec<u64>| v@), bars_number as nat),
                bars_number as nat,
                b,
                durations@[a]@.len(),
            ),
{
    let ghost ds = durations@.map_values(|v: Vec<u64>| v@);
    proof {
        lemma_bounds_are_extremes(ds);
        assert forall|a: int| 0 <= a < durations@.len() implies (#[trigger] durations@[a])@ == ds[a] by {}
        let i = choose|a: int| 0 <= a < ds.len() && min_first(ds) == (#[trigger] ds[a])[0];
        let j = choose|a: int| 0 <= a < ds.len() && max_last(ds) == (#[trigger] ds[a]).last();
        assert(durations@[i]@ == ds[i] && durations@[j]@ == ds[j]);
        assert(ds[0] == durations@[0]@);
        assert(ds.take(1).drop_last() == Seq::<Seq<u64>>::empty());
    }
    let mut min = durations[0][0];
    let mut max = durations[0][durations[0].len() - 1];
    let mut a: usize = 1;
    while a < durations.len()
        invariant
            1 <= a <= durations@.len(),
            ds == durations@.map_values(|v: Vec<u64>| v@),
            histogram_input_ok(ds, bars_number as nat),
            min == min_first(ds.take(a as int)),
            max == max_last(ds.take(a as int)),
        decreases durations@.len() - a,
    {
        assert(ds.take(a + 1).drop_last() == ds.take(a as int));
        assert(ds[a as int] == durations@[a as int]@);
        let row = &durations[a];
        if row[0] < min {
            min = row[0];
        }
        if row[row.len() - 1] > max {
            max = row[row.len() - 1];
        }
        a = a + 1;
    }
    assert(ds.take(durations@.len() as int) == ds);
    assert(min <= max);
    let slot = (max - min) / (bars_number as u64);
    let ghost slot_i = slot_width(ds, bars_number as nat);
    assert(slot == slot_i);
    let mut bars: Vec<Vec<usize>> = Vec::new();
    let mut a: usize = 0;
    while a < durations.len()
        invariant
            a <= durations@.len(),
            ds == durations@.map_values(|v: Vec<u64>| v@),
            histogram_input_ok(ds, bars_number as nat),
            forall|x: int, i: int| 0 <= x < ds.len() && 0 <= i < ds[x].len() ==> min <= #[trigger] ds[x][i],
            min == min_first(ds),
            slot == slot_i,
            slot_i == slot_width(ds, bars_number as nat),
            bars@.len() == a,
            forall|x: int| 0 <= x < a ==> (#[trigger] bars@[x])@.len() == bars_number,
            forall|x: int| 0 <= x < a ==> counts_sum((#[trigger] bars@[x])@) == durations@[x]@.len(),
            forall|x: int, b: int|
                0 <= x < a && 0 <= b < bars_number ==> #[trigger] bars@[x]@[b] == bar_count(
                    durations@[x]@,
                    min,
                    slot_i,
                    bars_number as nat,
                    b,
                    durations@[x]@.len(),
                ),
        decreases durations@.len() - a,
    {
        let row = &durations[a];
        assert(ds[a as int] == row@);
        let mut counts: Vec<usize> = Vec::new();
        let mut b: usize = 0;
        while b < bars_number
            invariant
                b <= bars_number,
                counts@.len() == b,
                forall|c: int| 0 <= c < b ==> counts@[c] == 0,
            decreases bars_number - b,
        {
            counts.push(0);
            b = b + 1;
        }
        proof {
            lemma_counts_sum_zero(counts@);
        }
        let mut i: usize = 0;
        while i < row.len()
            invariant
                i <= row@.len(),
                a < ds.len(),
                ds[a as int] == row@,
                histogram_input_ok(ds, bars_number as nat),
                forall|x: int, i: int| 0 <= x < ds.len() && 0 <= i < ds[x].len() ==> min <= #[trigger] ds[x][i],
                min == min_first(ds),
                slot == slot_i,
                slot_i == slot_width(ds, bars_number as nat),
                counts@.len() == bars_number,
                forall|c: int|
                    0 <= c < bars_number ==> #[trigger] counts@[c] == bar_count(
                        row@,
                        min,
                        slot_i,
                        bars_number as nat,
                        c,
                        i as nat,
                    ),
                forall|c: int| 0 <= c < bars_number ==> #[trigger] counts@[c] <= i,
                counts_sum(counts@) == i,
            decreases row@.len() - i,
        {
            let d = row[i];
            assert(ds[a as int][i as int] == d);
            assert(min <= d);
            let raw: u64 = if slot == 0 {
                0
            } else {
                (d - min) / slot
            };
            let index: usize = if raw >= bars_number as u64 {
                bars_number - 1
            } else {
                raw as usize
            };
            assert(index == bar_of(d, min, slot_i, bars_number as nat));
            let old_count = counts[index];
            proof {
                lemma_counts_sum_increment(counts@, index as int);
            }
            counts.set(index, old_count + 1);
            i = i + 1;
        }
        bars.push(counts);
        a = a + 1;
    }
    (min, max, bars)
}

} // verus!
