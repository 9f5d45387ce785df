//! Longest-increasing-subsequence routines: a quadratic table of
//! chain lengths over a fixed 32-slot buffer, the greatest such
//! length, and the envelope-nesting count computed by sorting and
//! patience piles.

use vstd::prelude::*;

verus! {

/// The length of the longest strictly increasing subsequence of `a`
/// that ends exactly at index `i`: one more than the best chain ending
/// at an earlier index with a smaller value.
pub open spec fn lis_end(a: Seq<i32>, i: int) -> int
    decreases i, i + 1,
{
    if i < 0 {
        1
    } else {
        1 + best_prev(a, i, i)
    }
}

/// The best chain length over indices below `k` whose value is below
/// `a[i]`, or 0 when there is none. Only `k <= i` is ever asked for.
pub open spec fn best_prev(a: Seq<i32>, i: int, k: int) -> int
    decreases i, k,
{
    if k <= 0 || i < k {
        0
    } else {
        let rest = best_prev(a, i, k - 1);
        let cand = if a[k - 1] < a[i] {
            lis_end(a, k - 1)
        } else {
            0
        };
        if cand > rest {
            cand
        } else {
            rest
        }
    }
}

/// The greatest chain length over the first `k` indices, at least 1:
/// what scanning a table of chain lengths seeded with ones yields.
pub open spec fn lis_max(a: Seq<i32>, k: int) -> int
    decreases k,
{
    if k <= 0 {
        1
    } else {
        let rest = lis_max(a, k - 1);
        if lis_end(a, k - 1) > rest {
            lis_end(a, k - 1)
        } else {
            rest
        }
    }
}

proof fn lemma_lis_end_bound(a: Seq<i32>, i: int)
    requires
        0 <= i,
    ensures
        1 <= lis_end(a, i) <= i + 1,
    decreases i, i + 1,
{
    lemma_best_prev_bound(a, i, i);
}

proof fn lemma_best_prev_bound(a: Seq<i32>, i: int, k: int)
    requires
        0 <= k,
    ensures
        0 <= best_prev(a, i, k) <= k,
    decreases i, k,
{
    if k <= 0 || i < k {
    } else {
        lemma_best_prev_bound(a, i, k - 1);
        lemma_lis_end_bound(a, k - 1);
    }
}

/// Fills the classic 32-slot chain-length table: slot `i` holds the
/// longest increasing chain ending at `i`, untouched slots keep 1.
fn fill_chain_table(array: &[i32]) -> (r: Vec<i32>)
    requires
        array@.len() <= 32,
    ensures
        r@.len() == 32,
        forall|i: int| 0 <= i < array@.len() ==> r@[i] == lis_end(array@, i),
        forall|i: int| array@.len() <= i < 32 ==> r@[i] == 1,
{
    let mut dp: Vec<i32> = vec![1i32; 32];
    let mut big_index: usize = 1;
    while big_index < array.len()
        invariant
            1 <= big_index,
            array@.len() <= 32,
            dp@.len() == 32,
            forall|i: int| 0 <= i < big_index && i < array@.len() ==> dp@[i] == lis_end(array@, i),
            forall|i: int| big_index <= i < 32 ==> dp@[i] == 1,
            forall|i: int| array@.len() <= i < 32 ==> dp@[i] == 1,
        decreases array@.len() - big_index,
    {
        let mut small_index: usize = 0;
        proof {
            assert(dp@[big_index as int] == 1 + best_prev(array@, big_index as int, 0));
        }
        while small_index < big_index
            invariant
                small_index <= big_index < array@.len() <= 32,
                dp@.len() == 32,
                forall|i: int|
                    0 <= i < big_index && i < array@.len() ==> dp@[i] == lis_end(array@, i),
                forall|i: int| big_index < i < 32 ==> dp@[i] == 1,
                dp@[big_index as int] == 1 + best_prev(array@, big_index as int, small_index as int),
            decreases big_index - small_index,
        {
            proof {
                lemma_best_prev_bound(array@, big_index as int, small_index as int);
                lemma_lis_end_bound(array@, small_index as int);
            }
            if array[big_index] > array[small_index] {
                let cand = dp[small_index] + 1;
                if cand > dp[big_index] {
                    dp.set(big_index, cand);
                }
            }
            small_index = small_index + 1;
        }
        big_index = big_index + 1;
    }
    dp
}

/// The chain-length table itself, padded with ones up to 32 slots.
pub fn lis(array: &[i32]) -> (r: Vec<i32>)
    requires
        array@.len() <= 32,
    ensures
        r@.len() == 32,
        forall|i: int| 0 <= i < array@.len() ==> r@[i] == lis_end(array@, i),
        forall|i: int| array@.len() <= i < 32 ==> r@[i] == 1,
{
    fill_chain_table(array)
}

/// The greatest chain length, at least 1 even for an empty input.
pub fn lis_1(array: &[i32]) -> (r: i32)
    requires
        array@.len() <= 32,
    ensures
        r == lis_max(array@, array@.len() as int),
{
    let dp = fill_chain_table(array);
    let alen = array.len();
    let mut biggest_len: i32 = 1;
    let mut idx: usize = 0;
    while idx < 32
        invariant
            idx <= 32,
            alen == array@.len(),
            dp@.len() == 32,
            forall|i: int| 0 <= i < alen ==> dp@[i] == lis_end(array@, i),
            forall|i: int| alen <= i < 32 ==> dp@[i] == 1,
            biggest_len == (if idx <= alen {
                lis_max(array@, idx as int)
            } else {
                lis_max(array@, alen as int)
            }),
            biggest_len >= 1,
        decreases 32 - idx,
    {
        if dp[idx] > biggest_len {
            biggest_len = dp[idx];
        }
        idx = idx + 1;
    }
    biggest_len
}

/// The order the envelope routines sort by: ascending width, and
/// descending height among equal widths.
pub open spec fn pair_lt(x: (i32, i32), y: (i32, i32)) -> bool {
    x.0 < y.0 || (x.0 == y.0 && y.1 < x.1)
}

/// `x` placed into an already sorted sequence, before the first
/// element it precedes.
pub open spec fn insert_pair(s: Seq<(i32, i32)>, x: (i32, i32)) -> Seq<(i32, i32)>
    decreases s.len(),
{
    if s.len() == 0 {
        seq![x]
    } else if pair_lt(x, s[0]) {
        seq![x] + s
    } else {
        seq![s[0]] + insert_pair(s.drop_first(), x)
    }
}

/// The stable insertion sort of `s` under `pair_lt`.
pub open spec fn sort_pairs(s: Seq<(i32, i32)>) -> Seq<(i32, i32)>
    decreases s.len(),
{
    if s.len() == 0 {
        seq![]
    } else {
        insert_pair(sort_pairs(s.drop_last()), s.last())
    }
}

proof fn lemma_insert_pair_len(s: Seq<(i32, i32)>, x: (i32, i32))
    ensures
        insert_pair(s, x).len() == s.len() + 1,
    decreases s.len(),
{
    if s.len() > 0 && !pair_lt(x, s[0]) {
        lemma_insert_pair_len(s.drop_first(), x);
    }
}

proof fn lemma_sort_pairs_len(s: Seq<(i32, i32)>)
    ensures
        sort_pairs(s).len() == s.len(),
    decreases s.len(),
{
    if s.len() > 0 {
        lemma_sort_pairs_len(s.drop_last());
        lemma_insert_pair_len(sort_pairs(s.drop_last()), s.last());
    }
}

/// Where the scan of a sorted sequence stops is where the insertion
/// spec puts the new element.
proof fn lemma_insert_pair_at(s: Seq<(i32, i32)>, x: (i32, i32), idx: int)
    requires
        0 <= idx <= s.len(),
        forall|j: int| 0 <= j < idx ==> !pair_lt(x, #[trigger] s[j]),
        idx < s.len() ==> pair_lt(x, s[idx]),
    ensures
        insert_pair(s, x) == s.subrange(0, idx) + seq![x] + s.skip(idx),
    decreases idx,
{
    if idx == 0 {
        if s.len() == 0 {
            assert(insert_pair(s, x) =~= s.subrange(0, 0) + seq![x] + s.skip(0));
        } else {
            assert(pair_lt(x, s[0]));
            assert(seq![x] + s =~= s.subrange(0, 0) + seq![x] + s.skip(0));
        }
    } else {
        assert(!pair_lt(x, s[0]));
        let rest = s.drop_first();
        assert forall|j: int| 0 <= j < idx - 1 implies !pair_lt(x, #[trigger] rest[j]) by {
            assert(rest[j] == s[j + 1]);
        }
        assert(idx - 1 < rest.len() ==> pair_lt(x, rest[idx - 1]));
        lemma_insert_pair_at(rest, x, idx - 1);
        assert(seq![s[0]] + (rest.subrange(0, idx - 1) + seq![x] + rest.skip(idx - 1)) =~= s
            .subrange(0, idx) + seq![x] + s.skip(idx));
    }
}

fn pair_before(x: (i32, i32), y: (i32, i32)) -> (r: bool)
    ensures
        r == pair_lt(x, y),
{
    if x.0 < y.0 {
        true
    } else {
        x.0 == y.0 && y.1 < x.1
    }
}

/// Sorts the pairs by width ascending, height descending on ties,
/// into a fresh vector: an insertion sort that lands exactly on the
/// specification-level sort.
fn sort_env(pairs: &Vec<(i32, i32)>) -> (r: Vec<(i32, i32)>)
    ensures
        r@ == sort_pairs(pairs@),
{
    let mut out: Vec<(i32, i32)> = Vec::new();
    let mut i: usize = 0;
    proof {
        assert(pairs@.subrange(0, 0) =~= Seq::<(i32, i32)>::empty());
    }
    while i < pairs.len()
        invariant
            i <= pairs@.len(),
            out@ == sort_pairs(pairs@.subrange(0, i as int)),
        decreases pairs@.len() - i,
    {
        proof {
            lemma_sort_pairs_len(pairs@.subrange(0, i as int));
        }
        let x = pairs[i];
        let mut idx: usize = 0;
        loop
            invariant
                idx <= out@.len(),
                forall|j: int| 0 <= j < idx ==> !pair_lt(x, #[trigger] out@[j]),
            ensures
                idx <= out@.len(),
                forall|j: int| 0 <= j < idx ==> !pair_lt(x, #[trigger] out@[j]),
                idx < out@.len() ==> pair_lt(x, out@[idx as int]),
            decreases out@.len() - idx,
        {
            if idx >= out.len() {
                break ;
            }
            if pair_before(x, out[idx]) {
                break ;
            }
            idx = idx + 1;
        }
        let ghost out0 = out@;
        out.insert(idx, x);
        i = i + 1;
        proof {
            lemma_insert_pair_at(out0, x, idx as int);
            assert(out@ =~= out0.subrange(0, idx as int) + seq![x] + out0.skip(idx as int));
            let taken = pairs@.subrange(0, i as int);
            assert(taken.drop_last() =~= pairs@.subrange(0, i as int - 1));
            assert(taken.last() == pairs@[i as int - 1]);
            assert(out@ == sort_pairs(taken));
        }
    }
    proof {
        assert(pairs@.subrange(0, pairs@.len() as int) =~= pairs@);
    }
    out
}

/// The first pile whose top is at least `x`, or one past the piles.
pub open spec fn lower_bound(top: Seq<i32>, x: i32) -> int
    decreases top.len(),
{
    if top.len() == 0 {
        0
    } else if top[0] >= x {
        0
    } else {
        1 + lower_bound(top.drop_first(), x)
    }
}

proof fn lemma_lower_bound_props(top: Seq<i32>, x: i32)
    ensures
        0 <= lower_bound(top, x) <= top.len(),
        forall|j: int| 0 <= j < lower_bound(top, x) ==> #[trigger] top[j] < x,
        lower_bound(top, x) < top.len() ==> top[lower_bound(top, x)] >= x,
    decreases top.len(),
{
    if top.len() > 0 && top[0] < x {
        let rest = top.drop_first();
        lemma_lower_bound_props(rest, x);
        assert forall|j: int| 0 <= j < lower_bound(top, x) implies #[trigger] top[j] < x by {
            if j > 0 {
                assert(rest[j - 1] < x);
            }
        }
    }
}

/// The pile tops never decrease from left to right.
proof fn lemma_patience_sorted(hs: Seq<i32>, k: int)
    requires
        0 <= k,
    ensures
        forall|i: int, j: int|
            0 <= i <= j < patience_state(hs, k).len() ==> #[trigger] patience_state(hs, k)[i]
                <= #[trigger] patience_state(hs, k)[j],
    decreases k,
{
    if k > 0 {
        lemma_patience_sorted(hs, k - 1);
        let prev = patience_state(hs, k - 1);
        let x = hs[k - 1];
        lemma_lower_bound_props(prev, x);
        let lb = lower_bound(prev, x);
        let cur = patience_state(hs, k);
        assert forall|i: int, j: int| 0 <= i <= j < cur.len() implies #[trigger] cur[i]
            <= #[trigger] cur[j] by {
            if lb == prev.len() {
                if j == prev.len() && i < j {
                    assert(prev[i] < x);
                }
            } else {
                if j == lb && i < j {
                    assert(prev[i] < x);
                }
                if i == lb && i < j {
                    assert(prev[lb] >= x);
                    assert(prev[lb] <= prev[j]);
                }
            }
        }
    }
}

proof fn lemma_lower_bound_at(top: Seq<i32>, x: i32, idx: int)
    requires
        0 <= idx <= top.len(),
        forall|j: int| 0 <= j < idx ==> #[trigger] top[j] < x,
        idx < top.len() ==> top[idx] >= x,
    ensures
        lower_bound(top, x) == idx,
    decreases idx,
{
    if idx == 0 {
    } else {
        assert(top[0] < x);
        let rest = top.drop_first();
        assert forall|j: int| 0 <= j < idx - 1 implies #[trigger] rest[j] < x by {
            assert(rest[j] == top[j + 1]);
        }
        lemma_lower_bound_at(rest, x, idx - 1);
    }
}

/// The pile tops after playing the first `k` cards: each card lands
/// on the first pile whose top is at least it, or opens a new pile.
pub open spec fn patience_state(hs: Seq<i32>, k: int) -> Seq<i32>
    decreases k,
{
    if k <= 0 {
        seq![]
    } else {
        let prev = patience_state(hs, k - 1);
        let x = hs[k - 1];
        let i = lower_bound(prev, x);
        if i == prev.len() {
            prev.push(x)
        } else {
            prev.update(i, x)
        }
    }
}

/// How many piles the whole hand needs.
pub open spec fn pile_count(hs: Seq<i32>) -> int {
    patience_state(hs, hs.len() as int).len() as int
}

proof fn lemma_patience_len(hs: Seq<i32>, k: int)
    requires
        0 <= k,
    ensures
        patience_state(hs, k).len() <= k,
    decreases k,
{
    if k > 0 {
        lemma_patience_len(hs, k - 1);
        let prev = patience_state(hs, k - 1);
        let x = hs[k - 1];
        let lb = lower_bound(prev, x);
        lemma_lower_bound_props(prev, x);
        if lb == prev.len() {
            assert(patience_state(hs, k) == prev.push(x));
            assert(patience_state(hs, k).len() == prev.len() + 1);
        } else {
            assert(patience_state(hs, k) == prev.update(lb, x));
            assert(patience_state(hs, k).len() == prev.len());
        }
    }
}

/// Plays the cards onto piles, the landing pile found by binary
/// search, and counts the piles.
fn patience_run(heights: &Vec<i32>) -> (r: usize)
    ensures
        r == pile_count(heights@),
{
    let mut top: Vec<i32> = Vec::new();
    let mut i: usize = 0;
    while i < heights.len()
        invariant
            i <= heights@.len(),
            top@ == patience_state(heights@, i as int),
        decreases heights@.len() - i,
    {
        let x = heights[i];
        proof {
            lemma_patience_sorted(heights@, i as int);
        }
        let mut left: usize = 0;
        let mut right: usize = top.len();
        while left < right
            invariant
                left <= right <= top@.len(),
                forall|a: int, b: int|
                    0 <= a <= b < top@.len() ==> #[trigger] top@[a] <= #[trigger] top@[b],
                left > 0 ==> top@[left - 1] < x,
                right < top@.len() ==> top@[right as int] >= x,
            decreases right - left,
        {
            let mid = left + (right - left) / 2;
            if top[mid] >= x {
                right = mid;
            } else {
                left = mid + 1;
            }
        }
        proof {
            assert forall|j: int| 0 <= j < left implies #[trigger] top@[j] < x by {
                assert(top@[j] <= top@[left - 1]);
            }
            lemma_lower_bound_at(top@, x, left as int);
        }
        if left == top.len() {
            top.push(x);
        } else {
            top.set(left, x);
        }
        i = i + 1;
    }
    top.len()
}

/// The heights, in order, of a sequence of width/height pairs.
pub open spec fn heights_of(s: Seq<(i32, i32)>) -> Seq<i32> {
    s.map_values(|p: (i32, i32)| p.1)
}

/// The width/height key of each envelope: its first two extents.
pub open spec fn key_pairs(s: Seq<Vec<i32>>) -> Seq<(i32, i32)> {
    s.map_values(|v: Vec<i32>| (v@[0], v@[1]))
}

/// Sorts the envelopes in place — width ascending, height descending
/// on ties — and counts the longest chain of strictly growing heights
/// with the quadratic table.
pub fn max_envelopes(envelope_size: &mut Vec<(i32, i32)>) -> (r: i32)
    requires
        old(envelope_size)@.len() <= 32,
    ensures
        final(envelope_size)@ == sort_pairs(old(envelope_size)@),
        r == lis_max(
            heights_of(sort_pairs(old(envelope_size)@)),
            old(envelope_size)@.len() as int,
        ),
{
    proof {
        lemma_sort_pairs_len(envelope_size@);
    }
    let sorted = sort_env(envelope_size);
    *envelope_size = sorted;
    let mut heights: Vec<i32> = Vec::new();
    let mut i: usize = 0;
    while i < envelope_size.len()
        invariant
            i <= envelope_size@.len(),
            envelope_size@ == sort_pairs(old(envelope_size)@),
            envelope_size@.len() == old(envelope_size)@.len() <= 32,
            heights@ == heights_of(envelope_size@).subrange(0, i as int),
        decreases envelope_size@.len() - i,
    {
        heights.push(envelope_size[i].1);
        i = i + 1;
        proof {
            assert(heights@ =~= heights_of(envelope_size@).subrange(0, i as int));
        }
    }
    proof {
        assert(heights@ =~= heights_of(envelope_size@));
    }
    lis_1(heights.as_slice())
}

/// Sorts the envelopes by width ascending and height descending on
/// ties, then counts the piles of the patience game over the heights:
/// the longest chain of envelopes that nest.
pub fn max_envelopes_1(envelopes: Vec<Vec<i32>>) -> (r: i32)
    requires
        forall|i: int| 0 <= i < envelopes@.len() ==> (#[trigger] envelopes@[i])@.len() >= 2,
        envelopes@.len() <= i32::MAX,
    ensures
        r == pile_count(heights_of(sort_pairs(key_pairs(envelopes@)))),
{
    let mut pairs: Vec<(i32, i32)> = Vec::new();
    let mut i: usize = 0;
    while i < envelopes.len()
        invariant
            i <= envelopes@.len(),
            forall|k: int| 0 <= k < envelopes@.len() ==> (#[trigger] envelopes@[k])@.len() >= 2,
            pairs@ == key_pairs(envelopes@).subrange(0, i as int),
        decreases envelopes@.len() - i,
    {
        let v: &Vec<i32> = &envelopes[i];
        proof {
            assert(envelopes@[i as int]@.len() >= 2);
        }
        pairs.push((v[0], v[1]));
        i = i + 1;
        proof {
            assert(pairs@ =~= key_pairs(envelopes@).subrange(0, i as int));
        }
    }
    proof {
        assert(pairs@ =~= key_pairs(envelopes@));
    }
    let sorted = sort_env(&pairs);
    let mut heights: Vec<i32> = Vec::new();
    let mut j: usize = 0;
    while j < sorted.len()
        invariant
            j <= sorted@.len(),
            sorted@ == sort_pairs(key_pairs(envelopes@)),
            heights@ == heights_of(sorted@).subrange(0, j as int),
        decreases sorted@.len() - j,
    {
        heights.push(sorted[j].1);
        j = j + 1;
        proof {
            assert(heights@ =~= heights_of(sorted@).subrange(0, j as int));
        }
    }
    proof {
        assert(heights@ =~= heights_of(sorted@));
        lemma_sort_pairs_len(key_pairs(envelopes@));
        lemma_patience_len(heights_of(sorted@), heights_of(sorted@).len() as int);
    }
    let piles = patience_run(&heights);
    piles as i32
}

} // verus!
