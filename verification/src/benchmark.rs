use vstd::prelude::*;
use vstd::arithmetic::power2::{pow2, lemma_pow2_unfold, lemma_pow2_pos, lemma2_to64};
use vstd::arithmetic::div_mod::lemma_div_denominator;

verus! {

/// The number of bits set in `m`.
pub open spec fn bits(m: nat) -> nat
    decreases m,
{
    if m == 0 {
        0
    } else {
        m % 2 + bits(m / 2)
    }
}

/// Bit `i` of `m` is set.
pub open spec fn bit_set(m: nat, i: nat) -> bool {
    (m / pow2(i)) % 2 == 1
}

/// The masks from 1 up to `end - 1`, in increasing order, that have at most
/// `max_size` bits set.
pub open spec fn masks_below(end: nat, max_size: nat) -> Seq<u32>
    decreases end,
{
    if end <= 1 {
        Seq::empty()
    } else {
        let rest = masks_below((end - 1) as nat, max_size);
        if bits((end - 1) as nat) <= max_size {
            rest.push((end - 1) as u32)
        } else {
            rest
        }
    }
}

/// The positions below `count` whose bit is set in `mask`, in increasing
/// order.
pub open spec fn members_below(mask: nat, count: nat) -> Seq<usize>
    decreases count,
{
    if count == 0 {
        Seq::empty()
    } else {
        let rest = members_below(mask, (count - 1) as nat);
        if bit_set(mask, (count - 1) as nat) {
            rest.push((count - 1) as usize)
        } else {
            rest
        }
    }
}

/// The sum of the counts in `results` that are there.
pub open spec fn sum_some(results: Seq<Option<usize>>) -> nat
    decreases results.len(),
{
    if results.len() == 0 {
        0
    } else {
        sum_some(results.drop_last()) + match results.last() {
            Some(k) => k as nat,
            None => 0,
        }
    }
}

/// The number of results that are missing.
pub open spec fn count_none(results: Seq<Option<usize>>) -> nat
    decreases results.len(),
{
    if results.len() == 0 {
        0
    } else {
        count_none(results.drop_last()) + if results.last() is None { 1nat } else { 0nat }
    }
}

/// Bit `i + 1` of `m` is bit `i` of `m / 2`.
proof fn lemma_bit_shift(m: nat, i: nat)
    ensures
        bit_set(m, i + 1) == bit_set(m / 2, i),
{
    lemma_pow2_pos(i);
    lemma_pow2_unfold(i + 1);
    lemma_div_denominator(m as int, 2, pow2(i) as int);
    assert(2 * pow2(i) == pow2(i + 1));
}

/// The set bits of `m` below `c + 1` are bit 0, where set, and the set bits
/// of `m / 2` below `c`, one place up.
proof fn lemma_members_shift(m: nat, c: nat)
    ensures
        members_below(m, c + 1).len() == (if bit_set(m, 0) { 1nat } else { 0nat }) + members_below(m / 2, c).len(),
    decreases c,
{
    if c > 0 {
        let c1 = (c - 1) as nat;
        lemma_members_shift(m, c1);
        lemma_bit_shift(m, c1);
        assert(c1 + 1 == c);
        assert(bit_set(m, c) == bit_set(m / 2, c1));
        assert(members_below(m, c + 1).len() == members_below(m, c).len()
            + if bit_set(m, c) { 1nat } else { 0nat });
        assert(members_below(m / 2, c).len() == members_below(m / 2, c1).len()
            + if bit_set(m / 2, c1) { 1nat } else { 0nat });
    } else {
        assert(members_below(m, 1).len() == members_below(m, 0).len()
            + if bit_set(m, 0) { 1nat } else { 0nat });
    }
}

/// The bits set in a number below `2^c` are its set positions below `c`.
pub proof fn lemma_bits_are_members(m: nat, c: nat)
    requires
        m < pow2(c),
    ensures
        bits(m) == members_below(m, c).len(),
    decreases c,
{
    if c == 0 {
        lemma2_to64();
    } else {
        let c1 = (c - 1) as nat;
        lemma_pow2_unfold(c);
        lemma_bits_are_members(m / 2, c1);
        lemma_members_shift(m, c1);
        lemma2_to64();
        assert(bit_set(m, 0) == (m % 2 == 1));
        assert(bits(m) == m % 2 + bits(m / 2));
    }
}

/// The positions listed below `count` are exactly those whose bit is set
/// in `mask`, in increasing order.
proof fn lemma_members_below(mask: nat, count: nat)
    requires
        count <= 32,
    ensures
        forall|k: int| 0 <= k < members_below(mask, count).len() ==>
            #[trigger] members_below(mask, count)[k] < count
                && bit_set(mask, members_below(mask, count)[k] as nat),
        forall|i: nat| i < count && bit_set(mask, i) ==> #[trigger] members_below(mask, count).contains(i as usize),
        forall|a: int, b: int| 0 <= a < b < members_below(mask, count).len() ==>
            #[trigger] members_below(mask, count)[a] < #[trigger] members_below(mask, count)[b],
    decreases count,
{
    if count > 0 {
        let c1 = (count - 1) as nat;
        lemma_members_below(mask, c1);
        let rest = members_below(mask, c1);
        let all = members_below(mask, count);
        assert forall|i: nat| i < count && bit_set(mask, i) implies #[trigger] all.contains(i as usize) by {
            if i < c1 {
                assert(rest.contains(i as usize));
                let k = choose|k: int| 0 <= k < rest.len() && rest[k] == i as usize;
                assert(all[k] == i as usize);
            } else {
                assert(all[all.len() - 1] == i as usize);
            }
        }
    }
}

/// No more bits are set in `m` than `m` itself.
proof fn lemma_bits_le(m: nat)
    ensures
        bits(m) <= m,
    decreases m,
{
    if m > 0 {
        lemma_bits_le(m / 2);
    }
}

/// The number of bits set in `m`.
pub fn pop_count(m: u32) -> (c: u32)
    ensures
        c == bits(m as nat),
        c == members_below(m as nat, 32).len(),
{
    proof {
        lemma2_to64();
        lemma_bits_are_members(m as nat, 32);
    }
    proof {
        lemma_bits_le(m as nat);
    }
    let mut rest = m;
    let mut c: u32 = 0;
    while rest > 0
        invariant
            c + bits(rest as nat) == bits(m as nat),
            bits(m as nat) <= m,
        decreases rest,
    {
        assert(bits(rest as nat) == rest % 2 + bits((rest / 2) as nat));
        c = c + rest % 2;
        rest = rest / 2;
    }
    c
}

/// The masks listed below `end` are exactly the numbers from 1 to
/// `end - 1` with at most `max_size` bits set, in increasing order.
proof fn lemma_masks_below(end: nat, max_size: nat)
    requires
        end <= u32::MAX + 1,
    ensures
        forall|k: int| 0 <= k < masks_below(end, max_size).len() ==> {
            let m = #[trigger] masks_below(end, max_size)[k];
            &&& 1 <= m < end
            &&& bits(m as nat) <= max_size
        },
        forall|m: nat| 1 <= m < end && bits(m) <= max_size ==> #[trigger] masks_below(end, max_size).contains(m as u32),
        forall|a: int, b: int| 0 <= a < b < masks_below(end, max_size).len() ==>
            #[trigger] masks_below(end, max_size)[a] < #[trigger] masks_below(end, max_size)[b],
    decreases end,
{
    if end > 1 {
        let e1 = (end - 1) as nat;
        lemma_masks_below(e1, max_size);
        let rest = masks_below(e1, max_size);
        let all = masks_below(end, max_size);
        assert forall|m: nat| 1 <= m < end && bits(m) <= max_size implies #[trigger] all.contains(m as u32) by {
            if m < e1 {
                assert(rest.contains(m as u32));
                let k = choose|k: int| 0 <= k < rest.len() && rest[k] == m as u32;
                assert(all[k] == m as u32);
            } else {
                assert(all[all.len() - 1] == m as u32);
            }
        }
    }
}

/// The masks of the combinations of at most `max_size` of `count` items:
/// the numbers from 1 to `2^count - 1` with at most `max_size` bits set, in
/// increasing order.
pub fn combo_masks(count: u32, max_size: u32) -> (masks: Vec<u32>)
    requires
        count < 32,
    ensures
        masks@ == masks_below(pow2(count as nat), max_size as nat),
        forall|k: int| 0 <= k < masks@.len() ==> 1 <= #[trigger] masks@[k] < pow2(count as nat)
            && bits(masks@[k] as nat) <= max_size,
        forall|m: u32| 1 <= m < pow2(count as nat) && bits(m as nat) <= max_size ==> #[trigger] masks@.contains(m),
        forall|a: int, b: int| 0 <= a < b < masks@.len() ==> #[trigger] masks@[a] < #[trigger] masks@[b],
{
    proof {
        lemma2_to64();
        vstd::arithmetic::power2::lemma_pow2_strictly_increases(count as nat, 32);
        lemma_pow2_pos(count as nat);
        assert(1 * pow2(count as nat) <= u32::MAX);
    }
    proof {
        lemma_masks_below(pow2(count as nat), max_size as nat);
        assert forall|m: u32| 1 <= m < pow2(count as nat) && bits(m as nat) <= max_size implies
            #[trigger] masks_below(pow2(count as nat), max_size as nat).contains(m) by {
            assert(masks_below(pow2(count as nat), max_size as nat).contains((m as nat) as u32));
        }
    }
    let end: u32 = 1u32 << count;
    assert(end == pow2(count as nat)) by {
        vstd::bits::lemma_u32_shl_is_mul(1, count);
    }
    let mut masks: Vec<u32> = Vec::new();
    let mut m: u32 = 1;
    while m < end
        invariant
            1 <= m <= end,
            end == pow2(count as nat),
            masks@ == masks_below(m as nat, max_size as nat),
        decreases end - m,
    {
        if pop_count(m) <= max_size {
            masks.push(m);
        }
        m = m + 1;
    }
    masks
}

/// The items of the combination `mask` among `count` items: the positions
/// below `count` whose bit is set, in increasing order.
pub fn combo_members(mask: u32, count: u32) -> (members: Vec<usize>)
    requires
        count < 32,
    ensures
        members@ == members_below(mask as nat, count as nat),
        forall|k: int| 0 <= k < members@.len() ==> #[trigger] members@[k] < count
            && bit_set(mask as nat, members@[k] as nat),
        forall|i: usize| i < count && bit_set(mask as nat, i as nat) ==> #[trigger] members@.contains(i),
        forall|a: int, b: int| 0 <= a < b < members@.len() ==> #[trigger] members@[a] < #[trigger] members@[b],
{
    proof {
        lemma_members_below(mask as nat, count as nat);
        assert forall|i: usize| i < count && bit_set(mask as nat, i as nat) implies
            #[trigger] members_below(mask as nat, count as nat).contains(i) by {
            assert(members_below(mask as nat, count as nat).contains((i as nat) as usize));
        }
    }
    let mut members: Vec<usize> = Vec::new();
    let mut rest = mask;
    let mut i: u32 = 0;
    proof {
        lemma2_to64();
    }
    while i < count
        invariant
            i <= count < 32,
            rest == mask as nat / pow2(i as nat),
            members@ == members_below(mask as nat, i as nat),
        decreases count - i,
    {
        if rest % 2 == 1 {
            members.push(i as usize);
        }
        proof {
            lemma_pow2_pos(i as nat);
            lemma_pow2_unfold((i + 1) as nat);
            lemma_div_denominator(mask as int, pow2(i as nat) as int, 2);
            assert(pow2(i as nat) * 2 == pow2((i + 1) as nat));
        }
        rest = rest / 2;
        i = i + 1;
    }
    members
}

/// Adding up one more result.
proof fn lemma_sum_prefix(results: Seq<Option<usize>>, k: int)
    requires
        0 <= k < results.len(),
    ensures
        sum_some(results.subrange(0, k + 1)) == sum_some(results.subrange(0, k)) + match results[k] {
            Some(v) => v as nat,
            None => 0,
        },
        count_none(results.subrange(0, k + 1)) == count_none(results.subrange(0, k))
            + if results[k] is None { 1nat } else { 0nat },
{
    assert(results.subrange(0, k + 1).drop_last() =~= results.subrange(0, k));
}

/// A sum of a part of the results from the start is no larger than the sum
/// of them all.
proof fn lemma_sum_prefix_le(results: Seq<Option<usize>>, k: int)
    requires
        0 <= k <= results.len(),
    ensures
        sum_some(results.subrange(0, k)) <= sum_some(results),
    decreases results.len() - k,
{
    if k < results.len() {
        lemma_sum_prefix(results, k);
        lemma_sum_prefix_le(results, k + 1);
    } else {
        assert(results.subrange(0, k) =~= results);
    }
}

/// The total of the step counts of the runs that finished, and the number
/// of runs that did not; `None` where the total does not fit in a `u64`.
pub fn tally(results: &[Option<usize>]) -> (res: Option<(u64, usize)>)
    ensures
        match res {
            Some((total, failures)) => {
                &&& sum_some(results@) <= u64::MAX
                &&& total == sum_some(results@)
                &&& failures == count_none(results@)
            },
            None => sum_some(results@) > u64::MAX,
        },
{
    let mut total: u64 = 0;
    let mut failures: usize = 0;
    let mut k: usize = 0;
    while k < results.len()
        invariant
            k <= results@.len(),
            total == sum_some(results@.subrange(0, k as int)),
            failures == count_none(results@.subrange(0, k as int)),
            failures <= k,
        decreases results@.len() - k,
    {
        proof {
            lemma_sum_prefix(results@, k as int);
        }
        match results[k] {
            Some(v) => {
                match total.checked_add(v as u64) {
                    Some(t) => {
                        total = t;
                    },
                    None => {
                        proof {
                            lemma_sum_prefix_le(results@, k + 1);
                        }
                        return None;
                    },
                }
            },
            None => {
                failures = failures + 1;
            },
        }
        k = k + 1;
    }
    assert(results@.subrange(0, k as int) =~= results@);
    Some((total, failures))
}

} // verus!
