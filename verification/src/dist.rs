//! Main-axis distribution for one flex line: grow/shrink proportional
//! distribution with iterative min/max clamp relaxation, and the
//! justify-content spacing computation.
//!
//! The fixed point is computed round by round: raw sizes are distributed over
//! the still-active items; items whose raw size violates their min/max bound
//! are frozen at the clamped value and the remaining space is redistributed
//! among the rest, until a round produces no new violation.

use vstd::prelude::*;

use crate::style::FlexAlign;
use crate::style::MAX_FACTOR;
use crate::style::MAX_POINT;

verus! {

/// Upper bound for an imposed size or a resolved content size.
pub const SIZE_LIMIT: u64 = 0x1000_0000_0000;

/// Upper bound for any size a distribution round can produce.
pub const BOUND_SZ: u64 = 0x4000_0000_0000;

/// Largest number of children one node may own.
pub const MAX_CHILDREN: usize = 0x1_0000;

/// One child as the main-axis distributor sees it: its flex basis, the sum of
/// its two main-axis margins, its effective flex factors (zero for `fixed`
/// nodes), and its main-axis min/max bounds.
#[derive(Clone, Copy, Debug)]
pub struct LineItem {
    pub basis: u64,
    pub margins: u64,
    pub grow: u64,
    pub shrink: u64,
    pub min: u64,
    pub max: Option<u64>,
}

pub open spec fn wf_item(it: LineItem) -> bool {
    &&& it.basis <= SIZE_LIMIT
    &&& it.margins <= 2 * MAX_POINT
    &&& it.grow <= MAX_FACTOR
    &&& it.shrink <= MAX_FACTOR
    &&& it.min <= MAX_POINT
    &&& (it.max is Some ==> it.max->0 <= MAX_POINT)
}

pub open spec fn wf_items(items: Seq<LineItem>) -> bool {
    &&& items.len() <= MAX_CHILDREN
    &&& forall|i: int| 0 <= i < items.len() ==> wf_item(#[trigger] items[i])
}

/// Frozen sizes are in range; `None` marks a still-active item.
pub open spec fn wf_fz(fz: Seq<Option<int>>) -> bool {
    forall|i: int|
        0 <= i < fz.len() ==> ((#[trigger] fz[i]) is Some ==> 0 <= fz[i]->0 <= BOUND_SZ)
}

/// Clamp `v` to the closed interval given by `lo` and (when present) `hi`;
/// the lower bound wins when the two conflict.
pub open spec fn clamp_spec(lo: u64, hi: Option<u64>, v: int) -> int {
    let h = if hi is Some && v > hi->0 {
        hi->0 as int
    } else {
        v
    };
    if h < lo {
        lo as int
    } else {
        h
    }
}

/// Main-axis space consumed by the first `k` items: margins plus the frozen
/// size where one is fixed, the flex basis otherwise.
pub open spec fn used_upto(items: Seq<LineItem>, fz: Seq<Option<int>>, k: int) -> int
    decreases k,
{
    if k <= 0 {
        0
    } else {
        used_upto(items, fz, k - 1) + items[k - 1].margins + (if fz[k - 1] is Some {
            fz[k - 1]->0
        } else {
            items[k - 1].basis as int
        })
    }
}

/// Sum of grow factors of the active items among the first `k`.
pub open spec fn grow_upto(items: Seq<LineItem>, fz: Seq<Option<int>>, k: int) -> int
    decreases k,
{
    if k <= 0 {
        0
    } else {
        grow_upto(items, fz, k - 1) + (if fz[k - 1] is Some {
            0
        } else {
            items[k - 1].grow as int
        })
    }
}

/// Sum of shrink weights (shrink factor times basis) of the active items
/// among the first `k`.
pub open spec fn weight_upto(items: Seq<LineItem>, fz: Seq<Option<int>>, k: int) -> int
    decreases k,
{
    if k <= 0 {
        0
    } else {
        weight_upto(items, fz, k - 1) + (if fz[k - 1] is Some {
            0
        } else {
            items[k - 1].shrink * items[k - 1].basis
        })
    }
}

/// Space left in a content box of size `m` after the frozen sizes, the active
/// bases and all margins. Negative when the line overflows.
pub open spec fn free_space(items: Seq<LineItem>, fz: Seq<Option<int>>, m: int) -> int {
    m - used_upto(items, fz, items.len() as int)
}

/// The size the current round assigns to active item `i` before clamping:
/// its basis plus its proportional share of positive free space, or minus its
/// weighted share of the shortfall.
pub open spec fn raw_size(items: Seq<LineItem>, fz: Seq<Option<int>>, m: int, i: int) -> int {
    let free = free_space(items, fz, m);
    let it = items[i];
    if free > 0 {
        let g = grow_upto(items, fz, items.len() as int);
        if g > 0 {
            it.basis + free * it.grow / g
        } else {
            it.basis as int
        }
    } else if free < 0 {
        let w = weight_upto(items, fz, items.len() as int);
        if w > 0 {
            it.basis - (-free) * (it.shrink * it.basis) / w
        } else {
            it.basis as int
        }
    } else {
        it.basis as int
    }
}

/// Active item `i` would leave its min/max range this round.
pub open spec fn violates(items: Seq<LineItem>, fz: Seq<Option<int>>, m: int, i: int) -> bool {
    fz[i] is None && clamp_spec(items[i].min, items[i].max, raw_size(items, fz, m, i))
        != raw_size(items, fz, m, i)
}

/// Some item among the first `k` violates its bounds this round.
pub open spec fn any_violation_upto(
    items: Seq<LineItem>,
    fz: Seq<Option<int>>,
    m: int,
    k: int,
) -> bool
    decreases k,
{
    if k <= 0 {
        false
    } else {
        any_violation_upto(items, fz, m, k - 1) || violates(items, fz, m, k - 1)
    }
}

/// Freeze every violating item at its clamped size.
pub open spec fn freeze_step(items: Seq<LineItem>, fz: Seq<Option<int>>, m: int) -> Seq<
    Option<int>,
> {
    Seq::new(
        fz.len(),
        |i: int|
            if violates(items, fz, m, i) {
                Some(clamp_spec(items[i].min, items[i].max, raw_size(items, fz, m, i)))
            } else {
                fz[i]
            },
    )
}

/// Sizes when the relaxation stops: the frozen size, or the clamped basis for
/// items that never took part in distribution.
pub open spec fn settle(items: Seq<LineItem>, fz: Seq<Option<int>>) -> Seq<int> {
    Seq::new(
        items.len(),
        |i: int|
            if fz[i] is Some {
                fz[i]->0
            } else {
                clamp_spec(items[i].min, items[i].max, items[i].basis as int)
            },
    )
}

/// The relaxation fixed point: distribute, clamp violators, redistribute,
/// until a round is violation-free. `fuel` bounds the rounds; one more round
/// than there are items always suffices, since every continued round freezes
/// at least one item.
pub open spec fn relax(items: Seq<LineItem>, fz: Seq<Option<int>>, m: int, fuel: nat) -> Seq<int>
    decreases fuel,
{
    if fuel == 0 {
        settle(items, fz)
    } else if !any_violation_upto(items, fz, m, items.len() as int) {
        Seq::new(
            items.len(),
            |i: int|
                if fz[i] is Some {
                    fz[i]->0
                } else {
                    raw_size(items, fz, m, i)
                },
        )
    } else {
        relax(items, freeze_step(items, fz, m), m, (fuel - 1) as nat)
    }
}

/// All items of a line start active.
pub open spec fn all_active(n: nat) -> Seq<Option<int>> {
    Seq::new(n, |i: int| None::<int>)
}

/// Resolved main-axis sizes of one flex line with content size `m`.
pub open spec fn line_sizes(items: Seq<LineItem>, m: int) -> Seq<int> {
    relax(items, all_active(items.len()), m, (items.len() + 1) as nat)
}

/// Leading offset and inter-child gap with which leftover main-axis space is
/// placed, per justify-content policy, for `n` children.
pub open spec fn justify_parts(j: FlexAlign, leftover: int, n: int) -> (int, int) {
    if leftover <= 0 || n <= 0 {
        (0int, 0int)
    } else {
        match j {
            FlexAlign::End => (leftover, 0int),
            FlexAlign::Center => (leftover / 2, 0int),
            FlexAlign::SpaceBetween => if n >= 2 {
                (0int, leftover / (n - 1))
            } else {
                (0int, 0int)
            },
            FlexAlign::SpaceAround => ((leftover / n) / 2, leftover / n),
            _ => (0int, 0int),
        }
    }
}

/// The justify layout never places more space than is left over.
pub proof fn lemma_justify_fits(j: FlexAlign, leftover: int, n: int)
    requires
        n >= 1,
    ensures
        justify_parts(j, leftover, n).0 >= 0,
        justify_parts(j, leftover, n).1 >= 0,
        justify_parts(j, leftover, n).0 + (n - 1) * justify_parts(j, leftover, n).1 <= if leftover
            >= 0 {
            leftover
        } else {
            0
        },
        justify_parts(j, leftover, n).1 <= if leftover >= 0 {
            leftover
        } else {
            0
        },
{
    if leftover > 0 {
        match j {
            FlexAlign::SpaceBetween => {
                if n >= 2 {
                    assert(leftover / (n - 1) <= leftover) by (nonlinear_arith)
                        requires
                            n >= 2,
                            leftover > 0,
                    ;
                }
            },
            FlexAlign::SpaceAround => {
                assert(leftover / n <= leftover) by (nonlinear_arith)
                    requires
                        n >= 1,
                        leftover > 0,
                ;
            },
            _ => {},
        }
    }
    if leftover > 0 {
        match j {
            FlexAlign::Center => {
                assert(leftover / 2 + (n - 1) * 0 <= leftover);
            },
            FlexAlign::SpaceBetween => {
                if n >= 2 {
                    let g = leftover / (n - 1);
                    assert(g >= 0 && (n - 1) * g <= leftover) by (nonlinear_arith)
                        requires
                            n >= 2,
                            leftover > 0,
                            g == leftover / (n - 1),
                    ;
                }
            },
            FlexAlign::SpaceAround => {
                let g = leftover / n;
                assert(g >= 0 && n * g <= leftover) by (nonlinear_arith)
                    requires
                        n >= 1,
                        leftover > 0,
                        g == leftover / n,
                ;
                assert(g / 2 + (n - 1) * g <= n * g) by (nonlinear_arith)
                    requires
                        g >= 0,
                        n >= 1,
                ;
            },
            _ => {},
        }
    } else {
        assert((n - 1) * 0 == 0) by (nonlinear_arith);
    }
}

pub open spec fn int_seq(s: Seq<u64>) -> Seq<int> {
    Seq::new(s.len(), |i: int| s[i] as int)
}

pub open spec fn fz_view(s: Seq<Option<u64>>) -> Seq<Option<int>> {
    Seq::new(
        s.len(),
        |i: int|
            match s[i] {
                Some(v) => Some(v as int),
                None => None,
            },
    )
}

pub proof fn lemma_sums_nonneg(items: Seq<LineItem>, fz: Seq<Option<int>>, k: int)
    requires
        fz.len() == items.len(),
        wf_fz(fz),
        k <= items.len(),
    ensures
        used_upto(items, fz, k) >= 0,
        grow_upto(items, fz, k) >= 0,
        weight_upto(items, fz, k) >= 0,
    decreases (if k > 0 {
        k
    } else {
        0
    }),
{
    if k > 0 {
        lemma_sums_nonneg(items, fz, k - 1);
        assert(items[k - 1].shrink * items[k - 1].basis >= 0) by (nonlinear_arith);
    }
}

pub proof fn lemma_member_le_sum(items: Seq<LineItem>, fz: Seq<Option<int>>, k: int, i: int)
    requires
        fz.len() == items.len(),
        wf_fz(fz),
        0 <= i < k <= items.len(),
        fz[i] is None,
    ensures
        items[i].grow <= grow_upto(items, fz, k),
        items[i].shrink * items[i].basis <= weight_upto(items, fz, k),
    decreases k,
{
    if i == k - 1 {
        lemma_sums_nonneg(items, fz, k - 1);
    } else {
        lemma_member_le_sum(items, fz, k - 1, i);
        assert(items[k - 1].shrink * items[k - 1].basis >= 0) by (nonlinear_arith);
    }
}

/// The raw size of an active item stays below its basis plus the positive
/// free space, and its clamped value stays in `[0, BOUND_SZ]`.
pub proof fn lemma_raw_bounds(items: Seq<LineItem>, fz: Seq<Option<int>>, m: int, i: int)
    requires
        wf_items(items),
        fz.len() == items.len(),
        wf_fz(fz),
        0 <= m <= SIZE_LIMIT,
        0 <= i < items.len(),
        fz[i] is None,
    ensures
        raw_size(items, fz, m, i) <= items[i].basis + (if free_space(items, fz, m) > 0 {
            free_space(items, fz, m)
        } else {
            0
        }),
        raw_size(items, fz, m, i) <= 2 * SIZE_LIMIT,
        0 <= clamp_spec(items[i].min, items[i].max, raw_size(items, fz, m, i)) <= BOUND_SZ,
{
    let free = free_space(items, fz, m);
    let it = items[i];
    lemma_sums_nonneg(items, fz, items.len() as int);
    if free > 0 {
        let g = grow_upto(items, fz, items.len() as int);
        if g > 0 {
            lemma_member_le_sum(items, fz, items.len() as int, i);
            assert(free * it.grow / g <= free) by (nonlinear_arith)
                requires
                    free > 0,
                    g > 0,
                    0 <= it.grow <= g,
            ;
            assert(free * it.grow >= 0) by (nonlinear_arith)
                requires
                    free > 0,
                    it.grow >= 0,
            ;
            assert(free * it.grow / g >= 0) by (nonlinear_arith)
                requires
                    free * it.grow >= 0,
                    g > 0,
            ;
        }
        assert(free <= m);
    } else if free < 0 {
        let w = weight_upto(items, fz, items.len() as int);
        if w > 0 {
            let sh = it.shrink as int;
            let ba = it.basis as int;
            vstd::arithmetic::mul::lemma_mul_nonnegative(sh, ba);
            vstd::arithmetic::mul::lemma_mul_nonnegative(-free, sh * ba);
            vstd::arithmetic::div_mod::lemma_div_pos_is_pos((-free) * (sh * ba), w);
            assert(it.shrink * it.basis == sh * ba);
        }
    }
    let raw = raw_size(items, fz, m, i);
    let c = clamp_spec(it.min, it.max, raw);
    assert(c >= 0);
    assert(c <= BOUND_SZ);
}

/// Freezing violators keeps every frozen size in range.
pub proof fn lemma_freeze_wf(items: Seq<LineItem>, fz: Seq<Option<int>>, m: int)
    requires
        wf_items(items),
        fz.len() == items.len(),
        wf_fz(fz),
        0 <= m <= SIZE_LIMIT,
    ensures
        freeze_step(items, fz, m).len() == items.len(),
        wf_fz(freeze_step(items, fz, m)),
{
    let fz2 = freeze_step(items, fz, m);
    assert forall|i: int| 0 <= i < fz2.len() && (#[trigger] fz2[i]) is Some implies 0 <= fz2[i]->0
        <= BOUND_SZ by {
        if violates(items, fz, m, i) {
            lemma_raw_bounds(items, fz, m, i);
        }
    }
}

/// Every size the relaxation yields is in `[0, BOUND_SZ]`, and there is one
/// size per item.
pub proof fn lemma_relax_bounds(items: Seq<LineItem>, fz: Seq<Option<int>>, m: int, fuel: nat)
    requires
        wf_items(items),
        fz.len() == items.len(),
        wf_fz(fz),
        0 <= m <= SIZE_LIMIT,
    ensures
        relax(items, fz, m, fuel).len() == items.len(),
        forall|i: int|
            0 <= i < items.len() ==> 0 <= #[trigger] relax(items, fz, m, fuel)[i] <= BOUND_SZ,
    decreases fuel,
{
    let r = relax(items, fz, m, fuel);
    if fuel == 0 {
        assert forall|i: int| 0 <= i < items.len() implies 0 <= #[trigger] r[i] <= BOUND_SZ by {
            if fz[i] is None {
                assert(0 <= clamp_spec(items[i].min, items[i].max, items[i].basis as int)
                    <= BOUND_SZ);
            }
        }
    } else if !any_violation_upto(items, fz, m, items.len() as int) {
        assert forall|i: int| 0 <= i < items.len() implies 0 <= #[trigger] r[i] <= BOUND_SZ by {
            if fz[i] is None {
                lemma_raw_bounds(items, fz, m, i);
                lemma_no_violation_at(items, fz, m, i);
            }
        }
    } else {
        lemma_freeze_wf(items, fz, m);
        lemma_relax_bounds(items, freeze_step(items, fz, m), m, (fuel - 1) as nat);
    }
}

/// In a violation-free round, each active item's raw size equals its clamp.
pub proof fn lemma_no_violation_at(items: Seq<LineItem>, fz: Seq<Option<int>>, m: int, i: int)
    requires
        0 <= i < items.len() <= fz.len(),
        !any_violation_upto(items, fz, m, items.len() as int),
    ensures
        !violates(items, fz, m, i),
    decreases items.len() - i,
{
    lemma_any_violation(items, fz, m, i + 1, items.len() as int);
}

pub proof fn lemma_any_violation(items: Seq<LineItem>, fz: Seq<Option<int>>, m: int, k1: int, k2: int)
    requires
        0 < k1 <= k2,
        !any_violation_upto(items, fz, m, k2),
    ensures
        !any_violation_upto(items, fz, m, k1),
        !violates(items, fz, m, k1 - 1),
    decreases k2 - k1,
{
    if k1 < k2 {
        lemma_any_violation(items, fz, m, k1 + 1, k2);
    }
}

/// An item with zero grow and shrink factors and no binding min/max keeps
/// exactly its flex basis, whatever its siblings do.
pub proof fn lemma_relax_inflexible(
    items: Seq<LineItem>,
    fz: Seq<Option<int>>,
    m: int,
    fuel: nat,
    i: int,
)
    requires
        wf_items(items),
        fz.len() == items.len(),
        wf_fz(fz),
        0 <= m <= SIZE_LIMIT,
        0 <= i < items.len(),
        fz[i] is None,
        items[i].grow == 0,
        items[i].shrink == 0,
        items[i].min == 0,
        items[i].max is None,
    ensures
        relax(items, fz, m, fuel)[i] == items[i].basis,
    decreases fuel,
{
    let it = items[i];
    let free = free_space(items, fz, m);
    assert(it.shrink * it.basis == 0) by (nonlinear_arith)
        requires
            it.shrink == 0,
    ;
    if free > 0 {
        let g = grow_upto(items, fz, items.len() as int);
        if g > 0 {
            assert(free * it.grow == 0) by (nonlinear_arith)
                requires
                    it.grow == 0,
            ;
        }
    } else if free < 0 {
        let w = weight_upto(items, fz, items.len() as int);
        if w > 0 {
            assert((-free) * (it.shrink * it.basis) == 0) by (nonlinear_arith)
                requires
                    it.shrink * it.basis == 0,
            ;
        }
    }
    assert(raw_size(items, fz, m, i) == it.basis);
    assert(clamp_spec(it.min, it.max, it.basis as int) == it.basis);
    assert(!violates(items, fz, m, i));
    if fuel == 0 {
    } else if !any_violation_upto(items, fz, m, items.len() as int) {
    } else {
        lemma_freeze_wf(items, fz, m);
        assert(freeze_step(items, fz, m)[i] is None);
        lemma_relax_inflexible(items, freeze_step(items, fz, m), m, (fuel - 1) as nat, i);
    }
}

pub fn clamp_ex(lo: u64, hi: Option<u64>, v: u64) -> (r: u64)
    ensures
        r as int == clamp_spec(lo, hi, v as int),
{
    let h = match hi {
        Some(x) => if v > x {
            x
        } else {
            v
        },
        None => v,
    };
    if h < lo {
        lo
    } else {
        h
    }
}

/// One relaxation round and its recursive continuation, computing exactly
/// the sizes `relax` describes.
pub fn relax_ex(items: &Vec<LineItem>, fzv: Vec<Option<u64>>, m: u64, fuel: u64) -> (r: Vec<u64>)
    requires
        wf_items(items@),
        fzv@.len() == items@.len(),
        wf_fz(fz_view(fzv@)),
        m <= SIZE_LIMIT,
        forall|i: int|
            0 <= i < fzv@.len() ==> ((#[trigger] fzv@[i]) is Some ==> fzv@[i]->0 <= BOUND_SZ),
    ensures
        int_seq(r@) == relax(items@, fz_view(fzv@), m as int, fuel as nat),
        r@.len() == items@.len(),
    decreases fuel,
{
    let ghost fz = fz_view(fzv@);
    let n = items.len();
    if fuel == 0 {
        let mut out: Vec<u64> = Vec::new();
        let mut i: usize = 0;
        while i < n
            invariant
                i <= n,
                n == items@.len(),
                n == fzv@.len(),
                fz == fz_view(fzv@),
                wf_items(items@),
                out@.len() == i,
                forall|j: int| 0 <= j < i ==> out@[j] as int == settle(items@, fz)[j],
            decreases n - i,
        {
            let it = items[i];
            let v = match fzv[i] {
                Some(x) => x,
                None => clamp_ex(it.min, it.max, it.basis),
            };
            out.push(v);
            i += 1;
        }
        proof {
            assert(int_seq(out@) =~= settle(items@, fz));
        }
        return out;
    }
    let mut used: u64 = 0;
    let mut gsum: u64 = 0;
    let mut wsum: u128 = 0;
    let mut i: usize = 0;
    while i < n
        invariant
            i <= n,
            n == items@.len(),
            n == fzv@.len(),
            n <= MAX_CHILDREN,
            fz == fz_view(fzv@),
            wf_items(items@),
            wf_fz(fz),
            forall|k: int|
                0 <= k < fzv@.len() ==> ((#[trigger] fzv@[k]) is Some ==> fzv@[k]->0 <= BOUND_SZ),
            used as int == used_upto(items@, fz, i as int),
            gsum as int == grow_upto(items@, fz, i as int),
            wsum as int == weight_upto(items@, fz, i as int),
            used <= (i as u64) * 0x8000_0000_0000,
            gsum <= (i as u64) * 0x1_0000,
            wsum <= (i as u128) * 0x1000_0000_0000_0000,
        decreases n - i,
    {
        let it = items[i];
        match fzv[i] {
            Some(x) => {
                used = used + it.margins + x;
            },
            None => {
                used = used + it.margins + it.basis;
                gsum = gsum + it.grow;
                proof {
                    assert((it.shrink as u128) * (it.basis as u128) <= 0x1000_0000_0000_0000)
                        by (nonlinear_arith)
                        requires
                            it.shrink <= MAX_FACTOR,
                            it.basis <= SIZE_LIMIT,
                    ;
                }
                wsum = wsum + (it.shrink as u128) * (it.basis as u128);
            },
        }
        i += 1;
    }
    let ghost freeint = (m as int) - used_upto(items@, fz, n as int);
    let mut fz2: Vec<Option<u64>> = Vec::new();
    let mut raws: Vec<u64> = Vec::new();
    let mut any: bool = false;
    let mut i: usize = 0;
    while i < n
        invariant
            i <= n,
            n == items@.len(),
            n == fzv@.len(),
            n <= MAX_CHILDREN,
            fz == fz_view(fzv@),
            wf_items(items@),
            wf_fz(fz),
            forall|k: int|
                0 <= k < fzv@.len() ==> ((#[trigger] fzv@[k]) is Some ==> fzv@[k]->0 <= BOUND_SZ),
            m <= SIZE_LIMIT,
            used as int == used_upto(items@, fz, n as int),
            gsum as int == grow_upto(items@, fz, n as int),
            wsum as int == weight_upto(items@, fz, n as int),
            used <= 0x8000_0000_0000_0000,
            freeint == (m as int) - (used as int),
            fz2@.len() == i,
            raws@.len() == i,
            forall|j: int|
                0 <= j < i ==> fz_view(fz2@)[j] == freeze_step(items@, fz, m as int)[j],
            forall|j: int|
                0 <= j < i ==> ((#[trigger] fz2@[j]) is Some ==> fz2@[j]->0 <= BOUND_SZ),
            any == any_violation_upto(items@, fz, m as int, i as int),
            !any ==> forall|j: int|
                0 <= j < i ==> raws@[j] as int == (if fz[j] is Some {
                    fz[j]->0
                } else {
                    raw_size(items@, fz, m as int, j)
                }),
        decreases n - i,
    {
        let ghost fz2_pre = fz2@;
        let it = items[i];
        match fzv[i] {
            Some(x) => {
                fz2.push(Some(x));
                raws.push(x);
                proof {
                    assert(!violates(items@, fz, m as int, i as int));
                }
            },
            None => {
                proof {
                    lemma_member_le_sum(items@, fz, n as int, i as int);
                }
                let mut neg: bool = false;
                let mut rawv: u64 = 0;
                if used < m {
                    if gsum > 0 {
                        let free = m - used;
                        proof {
                            let fi = free as int;
                            let gri = it.grow as int;
                            let gsi = gsum as int;
                            assert(fi * gri <= fi * gsi && fi * gri <= 0x1000_0000_0000_0000)
                                by (nonlinear_arith)
                                requires
                                    0 <= gri <= gsi,
                                    0 <= fi <= 0x1000_0000_0000,
                                    gri <= 0x1_0000,
                            ;
                            assert(fi * gsi / gsi == fi && fi * gri / gsi <= fi * gsi / gsi && fi
                                * gri / gsi >= 0) by (nonlinear_arith)
                                requires
                                    gsi > 0,
                                    fi >= 0,
                                    0 <= fi * gri <= fi * gsi,
                            ;
                        }
                        let give = free * it.grow / gsum;
                        rawv = it.basis + give;
                    } else {
                        rawv = it.basis;
                    }
                } else if used > m {
                    if wsum > 0 {
                        let short = used - m;
                        proof {
                            assert((it.shrink as u128) * (it.basis as u128)
                                <= 0x1000_0000_0000_0000) by (nonlinear_arith)
                                requires
                                    it.shrink <= MAX_FACTOR,
                                    it.basis <= SIZE_LIMIT,
                            ;
                        }
                        let wi: u128 = (it.shrink as u128) * (it.basis as u128);
                        proof {
                            let shorti = short as int;
                            let wii = wi as int;
                            let wsi = wsum as int;
                            assert((short as u128) * wi <= u128::MAX) by (nonlinear_arith)
                                requires
                                    short <= 0x8000_0000_0000_0000u64,
                                    wi <= 0x1000_0000_0000_0000u128,
                            ;
                            assert(shorti * wii / wsi <= shorti) by (nonlinear_arith)
                                requires
                                    shorti >= 0,
                                    wsi > 0,
                                    0 <= wii <= wsi,
                            ;
                            vstd::arithmetic::mul::lemma_mul_nonnegative(shorti, wii);
                            vstd::arithmetic::div_mod::lemma_div_pos_is_pos(shorti * wii, wsi);
                        }
                        let take128: u128 = (short as u128) * wi / wsum;
                        let take: u64 = take128 as u64;
                        if take > it.basis {
                            neg = true;
                        } else {
                            rawv = it.basis - take;
                        }
                    } else {
                        rawv = it.basis;
                    }
                } else {
                    rawv = it.basis;
                }
                if neg {
                    proof {
                        assert(raw_size(items@, fz, m as int, i as int) < 0);
                        assert(violates(items@, fz, m as int, i as int));
                        assert(clamp_spec(
                            it.min,
                            it.max,
                            raw_size(items@, fz, m as int, i as int),
                        ) == it.min);
                    }
                    fz2.push(Some(it.min));
                    raws.push(0);
                    any = true;
                } else {
                    proof {
                        assert(rawv as int == raw_size(items@, fz, m as int, i as int));
                    }
                    let c = clamp_ex(it.min, it.max, rawv);
                    if c != rawv {
                        proof {
                            lemma_raw_bounds(items@, fz, m as int, i as int);
                        }
                        fz2.push(Some(c));
                        raws.push(rawv);
                        any = true;
                    } else {
                        fz2.push(None);
                        raws.push(rawv);
                    }
                }
            },
        }
        proof {
            assert(fz_view(fz2@)[i as int] == freeze_step(items@, fz, m as int)[i as int]);
            assert forall|j: int|
                0 <= j < i implies fz_view(fz2@)[j] == freeze_step(items@, fz, m as int)[j] by {
                assert(fz2@[j] == fz2_pre[j]);
                assert(fz_view(fz2_pre)[j] == freeze_step(items@, fz, m as int)[j]);
            }
        }
        i += 1;
    }
    if !any {
        proof {
            assert(int_seq(raws@) =~= relax(items@, fz, m as int, fuel as nat));
        }
        raws
    } else {
        proof {
            lemma_freeze_wf(items@, fz, m as int);
            assert(fz_view(fz2@) =~= freeze_step(items@, fz, m as int));
        }
        let r = relax_ex(items, fz2, m, fuel - 1);
        r
    }
}

/// Resolved main-axis sizes of one flex line, as `line_sizes` states.
pub fn line_sizes_ex(items: &Vec<LineItem>, m: u64) -> (r: Vec<u64>)
    requires
        wf_items(items@),
        m <= SIZE_LIMIT,
    ensures
        int_seq(r@) == line_sizes(items@, m as int),
        r@.len() == items@.len(),
        forall|i: int| 0 <= i < r@.len() ==> #[trigger] r@[i] <= BOUND_SZ,
{
    let n = items.len();
    let mut fzv: Vec<Option<u64>> = Vec::new();
    let mut i: usize = 0;
    while i < n
        invariant
            i <= n,
            fzv@.len() == i,
            forall|j: int| 0 <= j < i ==> fzv@[j] is None,
        decreases n - i,
    {
        fzv.push(None);
        i += 1;
    }
    proof {
        assert(fz_view(fzv@) =~= all_active(items@.len()));
        lemma_relax_bounds(items@, all_active(items@.len()), m as int, (items@.len() + 1) as nat);
    }
    let r = relax_ex(items, fzv, m, (n + 1) as u64);
    proof {
        assert forall|i2: int| 0 <= i2 < r@.len() implies #[trigger] r@[i2] <= BOUND_SZ by {
            assert(r@[i2] as int == int_seq(r@)[i2]);
        }
    }
    r
}

/// Leading offset and gap for justify-content, as `justify_parts` states.
pub fn justify_parts_ex(j: FlexAlign, leftover: u64, n: usize) -> (r: (u64, u64))
    ensures
        r.0 as int == justify_parts(j, leftover as int, n as int).0,
        r.1 as int == justify_parts(j, leftover as int, n as int).1,
{
    if leftover == 0 || n == 0 {
        (0, 0)
    } else {
        match j {
            FlexAlign::End => (leftover, 0),
            FlexAlign::Center => (leftover / 2, 0),
            FlexAlign::SpaceBetween => if n >= 2 {
                (0, leftover / ((n - 1) as u64))
            } else {
                (0, 0)
            },
            FlexAlign::SpaceAround => {
                let g = leftover / (n as u64);
                (g / 2, g)
            },
            _ => (0, 0),
        }
    }
}

} // verus!
