//! A flexbox-style layout engine: given a container size and a list of item
//! constraints, it computes one rectangle per item, honouring direction,
//! wrapping, grow/shrink distribution, justification and cross-axis alignment.
//!
//! All dimensions are unsigned integer units; a percentage is stored in
//! thousandths (per-mille), so `Percent(500)` is half of the container.

use vstd::prelude::*;

verus! {

/// Denominator for percentage sizes: a `Size::Percent(p)` resolves to
/// `container * p / PERMILLE`.
pub const PERMILLE: u64 = 1000;

/// A length specification for one axis: absolute units, or a per-mille
/// fraction of the container's size on that axis.
#[derive(Clone, Copy, Debug, PartialEq, Eq, Structural)]
pub enum Size {
    Points(u64),
    Percent(u64),
}

/// What `Size` means against a container length, in the mathematical model.
pub open spec fn resolve_size(s: Size, container: int) -> int {
    match s {
        Size::Points(p) => p as int,
        Size::Percent(p) => container * p / (PERMILLE as int),
    }
}

impl Size {
    /// Resolve this size against a container length.
    ///
    /// A percent size resolves against the container itself, never against
    /// leftover space, so the result is independent of any sibling item.
    pub fn resolve(self, container: u64) -> (r: u64)
        requires
            container <= MAX_DIM,
            size_bounded(self),
        ensures
            r == resolve_size(self, container as int),
            r <= MAX_DIM,
    {
        match self {
            Size::Points(p) => p,
            Size::Percent(p) => {
                proof {
                    lemma_resolve_percent_bound(container as int, p as int);
                }
                let wide: u128 = (container as u128) * (p as u128) / (PERMILLE as u128);
                wide as u64
            },
        }
    }
}

/// Upper bound on every input dimension, factor and item count, so that all
/// intermediate products fit the machine integers used by the engine.
pub const MAX_DIM: u64 = 0x1000_0000;

/// A size specification stays within the engine's arithmetic range.
pub open spec fn size_bounded(s: Size) -> bool {
    match s {
        Size::Points(p) => p <= MAX_DIM,
        Size::Percent(p) => p <= PERMILLE,
    }
}

proof fn lemma_resolve_percent_bound(container: int, p: int)
    requires
        0 <= container <= MAX_DIM,
        0 <= p <= PERMILLE,
    ensures
        0 <= container * p / (PERMILLE as int) <= MAX_DIM,
{
    assert(0 <= container * p <= MAX_DIM * PERMILLE) by (nonlinear_arith)
        requires
            0 <= container <= MAX_DIM,
            0 <= p <= PERMILLE,
    ;
    assert(container * p / (PERMILLE as int) <= MAX_DIM) by (nonlinear_arith)
        requires
            0 <= container * p <= MAX_DIM * PERMILLE,
    ;
}

/// Upper bound on any sum the engine forms: `MAX_DIM` items of `MAX_DIM`
/// units each.
pub const MAX_TOTAL: u64 = 0x100_0000_0000_0000;

/// Sum of a sequence of dimensions.
pub open spec fn sum(s: Seq<u64>) -> int
    decreases s.len(),
{
    if s.len() == 0 {
        0
    } else {
        s[0] + sum(s.skip(1))
    }
}

/// Sum of a sequence of mathematical integers.
pub open spec fn sum_int(s: Seq<int>) -> int
    decreases s.len(),
{
    if s.len() == 0 {
        0
    } else {
        s[0] + sum_int(s.skip(1))
    }
}

pub proof fn lemma_sum_nonneg(s: Seq<u64>)
    ensures
        sum(s) >= 0,
    decreases s.len(),
{
    if s.len() > 0 {
        lemma_sum_nonneg(s.skip(1));
    }
}

pub proof fn lemma_sum_bound(s: Seq<u64>, m: u64)
    requires
        forall|i: int| 0 <= i < s.len() ==> s[i] <= m,
    ensures
        sum(s) <= s.len() * m,
    decreases s.len(),
{
    if s.len() > 0 {
        lemma_sum_bound(s.skip(1), m);
        assert((s.len() - 1) * m + m == s.len() * m) by (nonlinear_arith);
    }
}

/// The share of `amount` that a weight `w` takes out of weight total `total`.
pub open spec fn share(amount: int, w: u64, total: int) -> int {
    if total > 0 {
        amount * w / total
    } else {
        0
    }
}

/// Distribute `amount` over the given weights, in proportion to each weight.
/// Each element takes its floor share of what is still undistributed, against
/// the total weight that is still ahead, so that with a positive weight total
/// the whole amount is handed out exactly.
pub open spec fn distribute(amount: int, ws: Seq<u64>) -> Seq<int>
    decreases ws.len(),
{
    if ws.len() == 0 {
        Seq::empty()
    } else {
        let g = share(amount, ws[0], sum(ws));
        seq![g] + distribute(amount - g, ws.skip(1))
    }
}

pub proof fn lemma_distribute_len(amount: int, ws: Seq<u64>)
    ensures
        distribute(amount, ws).len() == ws.len(),
    decreases ws.len(),
{
    if ws.len() > 0 {
        let g = share(amount, ws[0], sum(ws));
        lemma_distribute_len(amount - g, ws.skip(1));
    }
}

proof fn lemma_share_range(amount: int, w: u64, total: int)
    requires
        amount >= 0,
        w <= total,
    ensures
        0 <= share(amount, w, total) <= amount,
        w == 0 ==> share(amount, w, total) == 0,
{
    if total > 0 {
        assert(0 <= amount * w <= amount * total) by (nonlinear_arith)
            requires
                amount >= 0,
                0 <= w <= total,
        ;
        assert(amount * w / total <= amount) by (nonlinear_arith)
            requires
                total > 0,
                amount * w <= amount * total,
                amount * w >= 0,
        ;
        assert(amount * w / total >= 0) by (nonlinear_arith)
            requires
                total > 0,
                amount * w >= 0,
        ;
    }
}

proof fn lemma_sum_first_le(ws: Seq<u64>)
    requires
        ws.len() > 0,
    ensures
        ws[0] <= sum(ws),
{
    lemma_sum_nonneg(ws.skip(1));
}

/// Every element of a distribution is between zero and the amount handed in,
/// and a zero weight receives nothing.
pub proof fn lemma_distribute_elem(amount: int, ws: Seq<u64>)
    requires
        amount >= 0,
    ensures
        forall|i: int|
            0 <= i < ws.len() ==> 0 <= #[trigger] distribute(amount, ws)[i] <= amount,
        forall|i: int|
            0 <= i < ws.len() && ws[i] == 0 ==> #[trigger] distribute(amount, ws)[i] == 0,
    decreases ws.len(),
{
    if ws.len() > 0 {
        let t = sum(ws);
        let g = share(amount, ws[0], t);
        lemma_sum_first_le(ws);
        lemma_share_range(amount, ws[0], t);
        lemma_distribute_elem(amount - g, ws.skip(1));
        lemma_distribute_len(amount - g, ws.skip(1));
        let d = distribute(amount, ws);
        assert forall|i: int| 0 <= i < ws.len() implies 0 <= #[trigger] d[i] <= amount by {
            if i > 0 {
                assert(d[i] == distribute(amount - g, ws.skip(1))[i - 1]);
            }
        }
        assert forall|i: int| 0 <= i < ws.len() && ws[i] == 0 implies #[trigger] d[i] == 0 by {
            if i > 0 {
                assert(ws.skip(1)[i - 1] == ws[i]);
                assert(d[i] == distribute(amount - g, ws.skip(1))[i - 1]);
            }
        }
    }
}

proof fn lemma_sum_zero_distributes_zero(amount: int, ws: Seq<u64>)
    requires
        sum(ws) == 0,
    ensures
        sum_int(distribute(amount, ws)) == 0,
    decreases ws.len(),
{
    if ws.len() > 0 {
        lemma_sum_nonneg(ws.skip(1));
        lemma_sum_first_le(ws);
        assert(sum(ws.skip(1)) == 0);
        lemma_sum_zero_distributes_zero(amount, ws.skip(1));
        let d = distribute(amount, ws);
        assert(d == seq![0int] + distribute(amount, ws.skip(1)));
        assert(d.skip(1) =~= distribute(amount, ws.skip(1)));
    }
}

/// With a positive weight total, a distribution hands out the amount exactly:
/// the shares sum to what was put in. This is what makes a flex line
/// conserve its container size when grow or shrink applies.
pub proof fn lemma_distribute_conserves(amount: int, ws: Seq<u64>)
    requires
        amount >= 0,
        sum(ws) > 0,
    ensures
        sum_int(distribute(amount, ws)) == amount,
    decreases ws.len(),
{
    let t = sum(ws);
    let g = share(amount, ws[0], t);
    lemma_sum_first_le(ws);
    lemma_share_range(amount, ws[0], t);
    let d = distribute(amount, ws);
    assert(d.skip(1) =~= distribute(amount - g, ws.skip(1)));
    if sum(ws.skip(1)) > 0 {
        lemma_distribute_conserves(amount - g, ws.skip(1));
    } else {
        lemma_sum_nonneg(ws.skip(1));
        assert(sum(ws.skip(1)) == 0);
        assert(ws[0] == t);
        assert(amount * ws[0] / t == amount) by (nonlinear_arith)
            requires
                t > 0,
                ws[0] == t,
        ;
        lemma_sum_zero_distributes_zero(amount - g, ws.skip(1));
    }
}

/// When the amount does not exceed the weight total, no element's share
/// exceeds its weight. This is what keeps a shrunken item at or above its
/// minimum size.
pub proof fn lemma_distribute_capped(amount: int, ws: Seq<u64>)
    requires
        0 <= amount <= sum(ws),
    ensures
        forall|i: int|
            0 <= i < ws.len() ==> #[trigger] distribute(amount, ws)[i] <= ws[i],
    decreases ws.len(),
{
    if ws.len() > 0 {
        let t = sum(ws);
        let g = share(amount, ws[0], t);
        lemma_sum_first_le(ws);
        lemma_share_range(amount, ws[0], t);
        if t > 0 {
            assert(g <= ws[0]) by (nonlinear_arith)
                requires
                    t > 0,
                    0 <= amount <= t,
                    0 <= ws[0],
                    g == amount * ws[0] / t,
            ;
            assert(amount - g <= t - ws[0]) by (nonlinear_arith)
                requires
                    t > 0,
                    0 <= amount <= t,
                    0 <= ws[0] <= t,
                    g == amount * ws[0] / t,
            ;
        } else {
            lemma_sum_nonneg(ws);
        }
        assert(sum(ws.skip(1)) == t - ws[0]);
        lemma_distribute_capped(amount - g, ws.skip(1));
        lemma_distribute_len(amount - g, ws.skip(1));
        let d = distribute(amount, ws);
        assert forall|i: int| 0 <= i < ws.len() implies #[trigger] d[i] <= ws[i] by {
            if i > 0 {
                assert(ws.skip(1)[i - 1] == ws[i]);
                assert(d[i] == distribute(amount - g, ws.skip(1))[i - 1]);
            }
        }
    }
}

/// A sequence of dimensions, read as mathematical integers.
pub open spec fn seq_int(s: Seq<u64>) -> Seq<int> {
    s.map_values(|x: u64| x as int)
}

/// Primary layout direction: the main axis is horizontal for `Row` and
/// vertical for `Column`.
#[derive(Clone, Copy, Debug, PartialEq, Eq, Structural)]
pub enum Direction {
    Row,
    Column,
}

/// How a line's items are placed along the main axis when free space is left.
#[derive(Clone, Copy, Debug, PartialEq, Eq, Structural)]
pub enum Justify {
    Start,
    Center,
    End,
    SpaceBetween,
    SpaceAround,
    SpaceEvenly,
}

/// How whole lines are placed on the cross axis: the justify modes, plus
/// `Stretch`, which grows the lines to fill the container.
#[derive(Clone, Copy, Debug, PartialEq, Eq, Structural)]
pub enum AlignContent {
    Start,
    Center,
    End,
    SpaceBetween,
    SpaceAround,
    SpaceEvenly,
    Stretch,
}

/// The justify mode that places lines once their sizes are settled;
/// stretched lines fill the axis, so they are packed from the start.
pub open spec fn content_justify(a: AlignContent) -> Justify {
    match a {
        AlignContent::Start => Justify::Start,
        AlignContent::Center => Justify::Center,
        AlignContent::End => Justify::End,
        AlignContent::SpaceBetween => Justify::SpaceBetween,
        AlignContent::SpaceAround => Justify::SpaceAround,
        AlignContent::SpaceEvenly => Justify::SpaceEvenly,
        AlignContent::Stretch => Justify::Start,
    }
}

/// A sequence of unit weights: under `Stretch` every line takes an equal
/// share of the spare cross space.
pub open spec fn ones(n: nat) -> Seq<u64> {
    Seq::new(n, |i: int| 1u64)
}

/// Spare cross space left beside the lines; overflow leaves none.
pub open spec fn cross_free_of(lcs: Seq<int>, gap: u64, avail: int) -> int {
    if avail - occupied_int(lcs, gap) >= 0 {
        avail - occupied_int(lcs, gap)
    } else {
        0
    }
}

/// How an item is placed on the cross axis within its line.
#[derive(Clone, Copy, Debug, PartialEq, Eq, Structural)]
pub enum AlignItems {
    Start,
    Center,
    End,
    Stretch,
}

/// Per-item layout constraints.
#[derive(Clone, Copy, Debug)]
pub struct FlexItem {
    /// Share of leftover main-axis space this item absorbs.
    pub grow: u64,
    /// Whether the item may shrink below its basis when space is short.
    pub shrink: bool,
    /// Preferred main-axis size; `None` falls back to the intrinsic size.
    pub basis: Option<Size>,
    /// Content-reported main-axis size, used when no basis is given.
    pub intrinsic_main: u64,
    /// Hard floor under shrinking: the item is never sized below this,
    /// except where its basis is already smaller.
    pub min_main: u64,
    /// Fixed cross-axis size; `None` falls back to the intrinsic size.
    pub cross: Option<Size>,
    /// Content-reported cross-axis size.
    pub intrinsic_cross: u64,
    /// Per-item override of the container's cross-axis alignment.
    pub align_self: Option<AlignItems>,
}

/// Container-level configuration.
#[derive(Clone, Copy, Debug)]
pub struct FlexConfig {
    pub direction: Direction,
    /// Whether items may wrap onto further lines when they do not fit.
    pub wrap: bool,
    pub justify: Justify,
    pub align_items: AlignItems,
    /// Placement of whole lines on the cross axis, analogous to `justify`,
    /// or stretching them to fill it.
    pub align_content: AlignContent,
    /// Space between adjacent items on the main axis.
    pub gap_main: u64,
    /// Space between adjacent lines on the cross axis.
    pub gap_cross: u64,
}

/// A computed rectangle, in container coordinates.
#[derive(Clone, Copy, Debug, PartialEq, Eq, Structural)]
pub struct Rect {
    pub x: u64,
    pub y: u64,
    pub w: u64,
    pub h: u64,
}

/// An item's constraints stay within the engine's arithmetic range.
pub open spec fn item_bounded(it: FlexItem) -> bool {
    &&& it.grow <= MAX_DIM
    &&& (it.basis matches Some(s) ==> size_bounded(s))
    &&& it.intrinsic_main <= MAX_DIM
    &&& it.min_main <= MAX_DIM
    &&& (it.cross matches Some(s) ==> size_bounded(s))
    &&& it.intrinsic_cross <= MAX_DIM
}

/// The main-axis basis of an item: its preferred size before grow and shrink.
pub open spec fn spec_basis(it: FlexItem, main: int) -> int {
    match it.basis {
        Some(s) => resolve_size(s, main),
        None => it.intrinsic_main as int,
    }
}

/// How far an item may shrink: down to its minimum, and not at all when
/// shrinking is disabled or the basis is already at or under the minimum.
pub open spec fn spec_shrink_cap(it: FlexItem, main: int) -> int {
    if it.shrink && spec_basis(it, main) > it.min_main {
        spec_basis(it, main) - it.min_main
    } else {
        0
    }
}

/// The cross-axis size of an item before any stretch.
pub open spec fn spec_cross_base(it: FlexItem, cross: int) -> int {
    match it.cross {
        Some(s) => resolve_size(s, cross),
        None => it.intrinsic_cross as int,
    }
}

/// Resolved per-item quantities, in item order: main-axis bases, grow
/// weights, shrink capacities and cross-axis sizes.
struct Resolved {
    pub bases: Vec<u64>,
    pub grows: Vec<u64>,
    pub caps: Vec<u64>,
    pub crosses: Vec<u64>,
    pub stretches: Vec<bool>,
    pub aligns: Vec<AlignItems>,
}

impl Resolved {
    /// The vectors all cover the given items, entry for entry.
    spec fn matches(
        self,
        items: Seq<FlexItem>,
        main: int,
        cross: int,
        default: AlignItems,
    ) -> bool {
        &&& self.bases@.len() == items.len()
        &&& self.grows@.len() == items.len()
        &&& self.caps@.len() == items.len()
        &&& self.crosses@.len() == items.len()
        &&& forall|i: int|
            0 <= i < items.len() ==> #[trigger] self.bases@[i] == spec_basis(items[i], main)
        &&& forall|i: int| 0 <= i < items.len() ==> #[trigger] self.grows@[i] == items[i].grow
        &&& forall|i: int|
            0 <= i < items.len() ==> #[trigger] self.caps@[i] == spec_shrink_cap(items[i], main)
        &&& forall|i: int|
            0 <= i < items.len() ==> #[trigger] self.crosses@[i] == spec_cross_base(
                items[i],
                cross,
            )
        &&& self.stretches@.len() == items.len()
        &&& self.aligns@.len() == items.len()
        &&& forall|i: int|
            0 <= i < items.len() ==> #[trigger] self.stretches@[i] == spec_stretchy(
                items[i],
                default,
            )
        &&& forall|i: int|
            0 <= i < items.len() ==> #[trigger] self.aligns@[i] == spec_align(items[i], default)
    }

    /// Every resolved entry is within the engine's range.
    spec fn bounded(self) -> bool {
        &&& forall|i: int| 0 <= i < self.bases@.len() ==> #[trigger] self.bases@[i] <= MAX_DIM
        &&& forall|i: int| 0 <= i < self.grows@.len() ==> #[trigger] self.grows@[i] <= MAX_DIM
        &&& forall|i: int| 0 <= i < self.caps@.len() ==> #[trigger] self.caps@[i] <= MAX_DIM
        &&& forall|i: int| 0 <= i < self.crosses@.len() ==> #[trigger] self.crosses@[i] <= MAX_DIM
    }
}

/// Resolve every item's sizes against the container, in one pass.
fn resolve_items(items: &Vec<FlexItem>, main: u64, cross: u64, default: AlignItems) -> (r: Resolved)
    requires
        main <= MAX_DIM,
        cross <= MAX_DIM,
        forall|i: int| 0 <= i < items@.len() ==> item_bounded(#[trigger] items@[i]),
    ensures
        r.matches(items@, main as int, cross as int, default),
        r.bounded(),
{
    let n = items.len();
    let mut bases: Vec<u64> = Vec::new();
    let mut grows: Vec<u64> = Vec::new();
    let mut caps: Vec<u64> = Vec::new();
    let mut crosses: Vec<u64> = Vec::new();
    let mut stretches: Vec<bool> = Vec::new();
    let mut aligns: Vec<AlignItems> = Vec::new();
    let mut i: usize = 0;
    while i < n
        invariant
            n == items@.len(),
            i <= n,
            main <= MAX_DIM,
            cross <= MAX_DIM,
            forall|k: int| 0 <= k < items@.len() ==> item_bounded(#[trigger] items@[k]),
            bases@.len() == i,
            grows@.len() == i,
            caps@.len() == i,
            crosses@.len() == i,
            forall|k: int|
                0 <= k < i ==> #[trigger] bases@[k] == spec_basis(items@[k], main as int),
            forall|k: int| 0 <= k < i ==> #[trigger] grows@[k] == items@[k].grow,
            forall|k: int|
                0 <= k < i ==> #[trigger] caps@[k] == spec_shrink_cap(items@[k], main as int),
            forall|k: int|
                0 <= k < i ==> #[trigger] crosses@[k] == spec_cross_base(items@[k], cross as int),
            stretches@.len() == i,
            aligns@.len() == i,
            forall|k: int|
                0 <= k < i ==> #[trigger] stretches@[k] == spec_stretchy(items@[k], default),
            forall|k: int| 0 <= k < i ==> #[trigger] aligns@[k] == spec_align(items@[k], default),
            forall|k: int| 0 <= k < i ==> #[trigger] bases@[k] <= MAX_DIM,
            forall|k: int| 0 <= k < i ==> #[trigger] grows@[k] <= MAX_DIM,
            forall|k: int| 0 <= k < i ==> #[trigger] caps@[k] <= MAX_DIM,
            forall|k: int| 0 <= k < i ==> #[trigger] crosses@[k] <= MAX_DIM,
        decreases n - i,
    {
        let it = &items[i];
        let b = match it.basis {
            Some(s) => s.resolve(main),
            None => it.intrinsic_main,
        };
        let cap = if it.shrink && b > it.min_main {
            b - it.min_main
        } else {
            0
        };
        let cb = match it.cross {
            Some(s) => s.resolve(cross),
            None => it.intrinsic_cross,
        };
        let al = match it.align_self {
            Some(a) => a,
            None => default,
        };
        let stretchy = match al {
            AlignItems::Stretch => it.cross.is_none(),
            _ => false,
        };
        bases.push(b);
        grows.push(it.grow);
        caps.push(cap);
        crosses.push(cb);
        stretches.push(stretchy);
        aligns.push(al);
        i = i + 1;
    }
    Resolved { bases, grows, caps, crosses, stretches, aligns }
}

/// Sum a vector of dimensions.
fn sum_exec(ws: &Vec<u64>) -> (t: u64)
    requires
        ws@.len() <= MAX_DIM,
        forall|i: int| 0 <= i < ws@.len() ==> #[trigger] ws@[i] <= MAX_DIM,
    ensures
        t == sum(ws@),
        t <= MAX_TOTAL,
{
    proof {
        lemma_sum_bound(ws@, MAX_DIM);
        assert(ws@.len() * MAX_DIM <= MAX_DIM * MAX_DIM) by (nonlinear_arith)
            requires
                0 <= ws@.len() <= MAX_DIM,
        ;
    }
    let n = ws.len();
    let mut acc: u64 = 0;
    let mut i: usize = 0;
    proof {
        assert(ws@.skip(0) =~= ws@);
    }
    while i < n
        invariant
            n == ws@.len(),
            i <= n,
            acc + sum(ws@.skip(i as int)) == sum(ws@),
            sum(ws@) <= MAX_TOTAL,
            forall|k: int| 0 <= k < ws@.len() ==> #[trigger] ws@[k] <= MAX_DIM,
        decreases n - i,
    {
        proof {
            let rest = ws@.skip(i as int);
            assert(rest[0] == ws@[i as int]);
            assert(rest.skip(1) =~= ws@.skip(i as int + 1));
            lemma_sum_nonneg(ws@.skip(i as int + 1));
        }
        acc = acc + ws[i];
        i = i + 1;
    }
    proof {
        assert(ws@.skip(n as int) =~= Seq::<u64>::empty());
    }
    acc
}

/// Distribute `amount` over the weights, exactly as `distribute` describes.
fn distribute_exec(amount: u64, ws: &Vec<u64>) -> (r: Vec<u64>)
    requires
        amount <= MAX_TOTAL,
        ws@.len() <= MAX_DIM,
        forall|i: int| 0 <= i < ws@.len() ==> #[trigger] ws@[i] <= MAX_DIM,
    ensures
        r@.len() == ws@.len(),
        seq_int(r@) == distribute(amount as int, ws@),
        forall|i: int| 0 <= i < r@.len() ==> #[trigger] r@[i] <= amount,
{
    let n = ws.len();
    let mut out: Vec<u64> = Vec::new();
    let mut rem: u64 = amount;
    let mut rem_t: u64 = sum_exec(ws);
    let mut i: usize = 0;
    proof {
        assert(ws@.skip(0) =~= ws@);
        assert(seq_int(out@) + distribute(amount as int, ws@) =~= distribute(amount as int, ws@));
    }
    while i < n
        invariant
            n == ws@.len(),
            i <= n,
            rem <= amount,
            amount <= MAX_TOTAL,
            rem_t == sum(ws@.skip(i as int)),
            rem_t <= MAX_TOTAL,
            out@.len() == i,
            forall|k: int| 0 <= k < ws@.len() ==> #[trigger] ws@[k] <= MAX_DIM,
            forall|k: int| 0 <= k < i ==> #[trigger] out@[k] <= amount,
            seq_int(out@) + distribute(rem as int, ws@.skip(i as int)) == distribute(
                amount as int,
                ws@,
            ),
        decreases n - i,
    {
        let ghost rest = ws@.skip(i as int);
        proof {
            assert(rest[0] == ws@[i as int]);
            assert(rest.skip(1) =~= ws@.skip(i as int + 1));
            lemma_sum_first_le(rest);
            lemma_share_range(rem as int, rest[0], rem_t as int);
            assert((rem as int) * (rest[0] as int) <= MAX_TOTAL * MAX_DIM) by (nonlinear_arith)
                requires
                    0 <= rem <= MAX_TOTAL,
                    0 <= rest[0] <= MAX_DIM,
            ;
        }
        let g: u64 = if rem_t > 0 {
            ((rem as u128) * (ws[i] as u128) / (rem_t as u128)) as u64
        } else {
            0
        };
        proof {
            assert(g == share(rem as int, rest[0], rem_t as int));
            let tail = distribute(rem as int - g, rest.skip(1));
            assert(distribute(rem as int, rest) == seq![g as int] + tail);
            assert(seq_int(out@.push(g)) =~= seq_int(out@) + seq![g as int]);
            assert(seq_int(out@) + (seq![g as int] + tail) =~= (seq_int(out@) + seq![
                g as int,
            ]) + tail);
        }
        out.push(g);
        rem = rem - g;
        rem_t = rem_t - ws[i];
        i = i + 1;
    }
    proof {
        assert(ws@.skip(n as int) =~= Seq::<u64>::empty());
        assert(seq_int(out@) + distribute(rem as int, Seq::<u64>::empty()) =~= seq_int(out@));
        lemma_distribute_len(amount as int, ws@);
        assert forall|k: int| 0 <= k < out@.len() implies #[trigger] out@[k] <= amount by {
            assert(seq_int(out@)[k] == out@[k] as int);
        }
    }
    out
}

/// Pointwise sum of two equally long sequences.
pub open spec fn add_seqs(a: Seq<int>, b: Seq<int>) -> Seq<int> {
    Seq::new(a.len(), |i: int| a[i] + b[i])
}

/// Pointwise difference of two equally long sequences.
pub open spec fn sub_seqs(a: Seq<int>, b: Seq<int>) -> Seq<int> {
    Seq::new(a.len(), |i: int| a[i] - b[i])
}

pub proof fn lemma_sum_add_seqs(a: Seq<int>, b: Seq<int>)
    requires
        a.len() == b.len(),
    ensures
        sum_int(add_seqs(a, b)) == sum_int(a) + sum_int(b),
    decreases a.len(),
{
    if a.len() > 0 {
        lemma_sum_add_seqs(a.skip(1), b.skip(1));
        assert(add_seqs(a, b).skip(1) =~= add_seqs(a.skip(1), b.skip(1)));
    }
}

pub proof fn lemma_sum_sub_seqs(a: Seq<int>, b: Seq<int>)
    requires
        a.len() == b.len(),
    ensures
        sum_int(sub_seqs(a, b)) == sum_int(a) - sum_int(b),
    decreases a.len(),
{
    if a.len() > 0 {
        lemma_sum_sub_seqs(a.skip(1), b.skip(1));
        assert(sub_seqs(a, b).skip(1) =~= sub_seqs(a.skip(1), b.skip(1)));
    }
}

pub proof fn lemma_sum_int_of_seq_int(s: Seq<u64>)
    ensures
        sum_int(seq_int(s)) == sum(s),
    decreases s.len(),
{
    if s.len() > 0 {
        lemma_sum_int_of_seq_int(s.skip(1));
        assert(seq_int(s).skip(1) =~= seq_int(s.skip(1)));
    }
}

/// Main-axis space a line occupies before grow and shrink: the bases plus one
/// gap between each pair of adjacent items.
pub open spec fn occupied(bases: Seq<u64>, gap: u64) -> int {
    if bases.len() >= 1 {
        sum(bases) + gap * (bases.len() - 1)
    } else {
        0
    }
}

/// Final main-axis sizes of one line's items, given the available main-axis
/// space. Leftover space goes to the grow weights; a deficit is taken from
/// the shrink capacities, and once those are exhausted every shrinkable item
/// sits at its floor and the line overflows.
///
/// A deliberate choice: the deficit is shared in proportion to each item's
/// shrink capacity (basis less minimum), not to its bare basis. With no
/// minimums the two rules coincide. When a floor binds they differ: two
/// items of basis 80 with minimums 70 and 0 in a container of 100 come out
/// 74 and 26 here, where basis-proportional sharing with freeze-and-
/// redistribute rounds would give 70 and 30. The capacity rule is the
/// one-pass rule that both respects every floor and still consumes the
/// deficit exactly; either rule conserves, and either leaves an item at or
/// above its floor.
pub open spec fn spec_line_sizes(
    bases: Seq<u64>,
    grows: Seq<u64>,
    caps: Seq<u64>,
    gap: u64,
    avail: int,
) -> Seq<int> {
    let free = avail - occupied(bases, gap);
    if free >= 0 {
        if sum(grows) > 0 {
            add_seqs(seq_int(bases), distribute(free, grows))
        } else {
            seq_int(bases)
        }
    } else {
        let deficit = -free;
        if deficit >= sum(caps) {
            sub_seqs(seq_int(bases), seq_int(caps))
        } else {
            sub_seqs(seq_int(bases), distribute(deficit, caps))
        }
    }
}

/// Conservation under growth: when a line has leftover space and some item
/// has a nonzero grow weight, the final sizes plus the gaps fill the
/// available space exactly.
pub proof fn lemma_line_fills_when_growing(
    bases: Seq<u64>,
    grows: Seq<u64>,
    caps: Seq<u64>,
    gap: u64,
    avail: int,
)
    requires
        bases.len() == grows.len(),
        bases.len() >= 1,
        avail >= occupied(bases, gap),
        sum(grows) > 0,
    ensures
        sum_int(spec_line_sizes(bases, grows, caps, gap, avail)) + gap * (bases.len() - 1)
            == avail,
{
    let free = avail - occupied(bases, gap);
    lemma_distribute_conserves(free, grows);
    lemma_distribute_len(free, grows);
    lemma_sum_add_seqs(seq_int(bases), distribute(free, grows));
    lemma_sum_int_of_seq_int(bases);
}

/// Conservation under shrink: when a line overflows but the shrink
/// capacities cover the deficit, the final sizes plus the gaps fill the
/// available space exactly.
pub proof fn lemma_line_fills_when_shrinking(
    bases: Seq<u64>,
    grows: Seq<u64>,
    caps: Seq<u64>,
    gap: u64,
    avail: int,
)
    requires
        bases.len() == caps.len(),
        bases.len() >= 1,
        avail < occupied(bases, gap),
        occupied(bases, gap) - avail <= sum(caps),
    ensures
        sum_int(spec_line_sizes(bases, grows, caps, gap, avail)) + gap * (bases.len() - 1)
            == avail,
{
    let deficit = occupied(bases, gap) - avail;
    if deficit >= sum(caps) {
        lemma_sum_sub_seqs(seq_int(bases), seq_int(caps));
        lemma_sum_int_of_seq_int(bases);
        lemma_sum_int_of_seq_int(caps);
    } else {
        lemma_distribute_conserves(deficit, caps);
        lemma_distribute_len(deficit, caps);
        lemma_sum_sub_seqs(seq_int(bases), distribute(deficit, caps));
        lemma_sum_int_of_seq_int(bases);
    }
}

/// Compute one line's final main-axis sizes.
fn line_sizes_exec(
    bases: &Vec<u64>,
    grows: &Vec<u64>,
    caps: &Vec<u64>,
    gap: u64,
    avail: u64,
) -> (r: Vec<u64>)
    requires
        bases@.len() == grows@.len(),
        bases@.len() == caps@.len(),
        bases@.len() <= MAX_DIM,
        avail <= MAX_DIM,
        gap <= MAX_DIM,
        forall|i: int| 0 <= i < bases@.len() ==> #[trigger] bases@[i] <= MAX_DIM,
        forall|i: int| 0 <= i < grows@.len() ==> #[trigger] grows@[i] <= MAX_DIM,
        forall|i: int| 0 <= i < caps@.len() ==> #[trigger] caps@[i] <= bases@[i],
    ensures
        r@.len() == bases@.len(),
        seq_int(r@) == spec_line_sizes(bases@, grows@, caps@, gap, avail as int),
        forall|i: int| 0 <= i < r@.len() ==> #[trigger] r@[i] <= 2 * MAX_DIM,
{
    let n = bases.len();
    let mut out: Vec<u64> = Vec::new();
    if n == 0 {
        proof {
            assert(seq_int(out@) =~= spec_line_sizes(bases@, grows@, caps@, gap, avail as int));
        }
        return out;
    }
    let total_basis = sum_exec(bases);
    proof {
        assert(gap * (n - 1) <= MAX_DIM * MAX_DIM) by (nonlinear_arith)
            requires
                0 <= gap <= MAX_DIM,
                1 <= n <= MAX_DIM,
        ;
        lemma_sum_nonneg(bases@);
    }
    let gaps_total: u64 = gap * ((n - 1) as u64);
    let occ: u64 = total_basis + gaps_total;
    let ghost spec_out = spec_line_sizes(bases@, grows@, caps@, gap, avail as int);
    if avail >= occ {
        let free = avail - occ;
        let total_grow = sum_exec(grows);
        if total_grow > 0 {
            let d = distribute_exec(free, grows);
            proof {
                lemma_distribute_elem(free as int, grows@);
            }
            let mut i: usize = 0;
            while i < n
                invariant
                    n == bases@.len(),
                    bases@.len() == grows@.len(),
                    i <= n,
                    free <= MAX_DIM,
                    d@.len() == n,
                    out@.len() == i,
                    forall|k: int| 0 <= k < bases@.len() ==> #[trigger] bases@[k] <= MAX_DIM,
                    forall|k: int| 0 <= k < d@.len() ==> #[trigger] d@[k] <= free,
                    spec_out == add_seqs(seq_int(bases@), seq_int(d@)),
                    forall|k: int| 0 <= k < i ==> #[trigger] out@[k] == spec_out[k],
                    forall|k: int| 0 <= k < i ==> #[trigger] out@[k] <= 2 * MAX_DIM,
                decreases n - i,
            {
                out.push(bases[i] + d[i]);
                i = i + 1;
            }
            proof {
                assert(seq_int(out@) =~= spec_out);
            }
            out
        } else {
            let mut i: usize = 0;
            while i < n
                invariant
                    n == bases@.len(),
                    i <= n,
                    out@.len() == i,
                    spec_out == seq_int(bases@),
                    forall|k: int| 0 <= k < bases@.len() ==> #[trigger] bases@[k] <= MAX_DIM,
                    forall|k: int| 0 <= k < i ==> #[trigger] out@[k] == spec_out[k],
                    forall|k: int| 0 <= k < i ==> #[trigger] out@[k] <= 2 * MAX_DIM,
                decreases n - i,
            {
                out.push(bases[i]);
                i = i + 1;
            }
            proof {
                assert(seq_int(out@) =~= spec_out);
            }
            out
        }
    } else {
        let deficit = occ - avail;
        let total_cap = sum_exec(caps);
        if deficit >= total_cap {
            let mut i: usize = 0;
            while i < n
                invariant
                    n == bases@.len(),
                    bases@.len() == caps@.len(),
                    i <= n,
                    out@.len() == i,
                    spec_out == sub_seqs(seq_int(bases@), seq_int(caps@)),
                    forall|k: int| 0 <= k < bases@.len() ==> #[trigger] bases@[k] <= MAX_DIM,
                    forall|k: int| 0 <= k < caps@.len() ==> #[trigger] caps@[k] <= bases@[k],
                    forall|k: int| 0 <= k < i ==> #[trigger] out@[k] == spec_out[k],
                    forall|k: int| 0 <= k < i ==> #[trigger] out@[k] <= 2 * MAX_DIM,
                decreases n - i,
            {
                out.push(bases[i] - caps[i]);
                i = i + 1;
            }
            proof {
                assert(seq_int(out@) =~= spec_out);
            }
            out
        } else {
            proof {
                lemma_sum_bound(caps@, MAX_DIM);
                assert(caps@.len() * MAX_DIM <= MAX_DIM * MAX_DIM) by (nonlinear_arith)
                    requires
                        0 <= caps@.len() <= MAX_DIM,
                ;
            }
            let d = distribute_exec(deficit, caps);
            proof {
                lemma_distribute_capped(deficit as int, caps@);
                lemma_distribute_elem(deficit as int, caps@);
                lemma_distribute_len(deficit as int, caps@);
                assert forall|k: int| 0 <= k < d@.len() implies #[trigger] d@[k] as int
                    <= caps@[k] as int by {
                    assert(seq_int(d@)[k] == d@[k] as int);
                }
            }
            let mut i: usize = 0;
            while i < n
                invariant
                    n == bases@.len(),
                    bases@.len() == caps@.len(),
                    i <= n,
                    d@.len() == n,
                    out@.len() == i,
                    forall|k: int| 0 <= k < bases@.len() ==> #[trigger] bases@[k] <= MAX_DIM,
                    forall|k: int| 0 <= k < caps@.len() ==> #[trigger] caps@[k] <= bases@[k],
                    forall|k: int|
                        0 <= k < d@.len() ==> #[trigger] d@[k] as int <= caps@[k] as int,
                    spec_out == sub_seqs(seq_int(bases@), seq_int(d@)),
                    forall|k: int| 0 <= k < i ==> #[trigger] out@[k] == spec_out[k],
                    forall|k: int| 0 <= k < i ==> #[trigger] out@[k] <= 2 * MAX_DIM,
                decreases n - i,
            {
                out.push(bases[i] - d[i]);
                i = i + 1;
            }
            proof {
                assert(seq_int(out@) =~= spec_out);
            }
            out
        }
    }
}

pub proof fn lemma_sum_int_push(s: Seq<int>, x: int)
    ensures
        sum_int(s.push(x)) == sum_int(s) + x,
    decreases s.len(),
{
    if s.len() == 0 {
        assert(s.push(x).skip(1) =~= Seq::<int>::empty());
        assert(s.push(x)[0] == x);
        assert(sum_int(Seq::<int>::empty()) == 0);
        assert(sum_int(s.push(x)) == x + sum_int(Seq::<int>::empty()));
    } else {
        assert(s.push(x).skip(1) =~= s.skip(1).push(x));
        assert(s.push(x)[0] == s[0]);
        lemma_sum_int_push(s.skip(1), x);
        assert(sum_int(s) == s[0] + sum_int(s.skip(1)));
        assert(sum_int(s.push(x)) == s[0] + sum_int(s.skip(1).push(x)));
    }
}

pub proof fn lemma_sum_int_take_succ(s: Seq<int>, i: int)
    requires
        0 <= i < s.len(),
    ensures
        sum_int(s.take(i + 1)) == sum_int(s.take(i)) + s[i],
{
    assert(s.take(i + 1) =~= s.take(i).push(s[i]));
    lemma_sum_int_push(s.take(i), s[i]);
}

/// Main-axis space occupied by final sizes, gaps included.
pub open spec fn occupied_int(sizes: Seq<int>, gap: u64) -> int {
    if sizes.len() >= 1 {
        sum_int(sizes) + gap * (sizes.len() - 1)
    } else {
        0
    }
}

/// Extra space placed before item `i` of `n` by a justify mode, out of `free`
/// spare units, beyond the packed position.
pub open spec fn justify_lead(j: Justify, free: int, n: int, i: int) -> int {
    match j {
        Justify::Start => 0,
        Justify::Center => free / 2,
        Justify::End => free,
        Justify::SpaceBetween => if n >= 2 {
            free * i / (n - 1)
        } else {
            0
        },
        Justify::SpaceAround => if n >= 1 {
            free * (2 * i + 1) / (2 * n)
        } else {
            0
        },
        Justify::SpaceEvenly => if n >= 1 {
            free * (i + 1) / (n + 1)
        } else {
            0
        },
    }
}

/// Packed position of item `i`: every earlier item's size plus a gap each.
pub open spec fn packed_pos(sizes: Seq<int>, gap: u64, i: int) -> int {
    sum_int(sizes.take(i)) + gap * i
}

/// Main-axis positions of one line's items: packed order, shifted by the
/// justify mode's leading space. Overflow leaves no free space to place.
pub open spec fn spec_positions(sizes: Seq<int>, gap: u64, j: Justify, avail: int) -> Seq<int> {
    let used = occupied_int(sizes, gap);
    let free = if avail - used >= 0 {
        avail - used
    } else {
        0
    };
    Seq::new(sizes.len(), |i: int| packed_pos(sizes, gap, i) + justify_lead(j, free, sizes.len() as int, i))
}

/// Justify correctness for `SpaceBetween`: when the free space divides evenly
/// among the inner gaps, the first item sits flush at the start, the last
/// ends flush at the container's end, and every pair of adjacent items is
/// separated by the same space.
pub proof fn lemma_space_between(sizes: Seq<int>, gap: u64, avail: int)
    requires
        sizes.len() >= 2,
        avail >= occupied_int(sizes, gap),
        (avail - occupied_int(sizes, gap)) % (sizes.len() - 1) == 0,
    ensures
        spec_positions(sizes, gap, Justify::SpaceBetween, avail)[0] == 0,
        forall|i: int|
            0 <= i < sizes.len() - 1 ==> #[trigger] spec_positions(
                sizes,
                gap,
                Justify::SpaceBetween,
                avail,
            )[i + 1] == spec_positions(sizes, gap, Justify::SpaceBetween, avail)[i] + sizes[i]
                + gap + (avail - occupied_int(sizes, gap)) / (sizes.len() - 1),
        spec_positions(sizes, gap, Justify::SpaceBetween, avail)[sizes.len() - 1] + sizes[sizes.len()
            - 1] == avail,
{
    let n = sizes.len() as int;
    let free = avail - occupied_int(sizes, gap);
    let q = free / (n - 1);
    let pos = spec_positions(sizes, gap, Justify::SpaceBetween, avail);
    assert(free == q * (n - 1)) by (nonlinear_arith)
        requires
            n >= 2,
            free % (n - 1) == 0,
            q == free / (n - 1),
    ;
    assert(sizes.take(0) =~= Seq::<int>::empty());
    assert forall|i: int| 0 <= i < n - 1 implies #[trigger] pos[i + 1] == pos[i] + sizes[i] + gap
        + q by {
        lemma_sum_int_take_succ(sizes, i);
        assert(free * (i + 1) / (n - 1) == q * (i + 1) && free * i / (n - 1) == q * i)
            by (nonlinear_arith)
            requires
                n >= 2,
                free == q * (n - 1),
                0 <= i < n - 1,
        ;
        assert(q * (i + 1) == q * i + q) by (nonlinear_arith);
        assert(gap * (i + 1) == gap * i + gap) by (nonlinear_arith);
    }
    assert(pos[n - 1] + sizes[n - 1] == avail) by {
        assert(free * (n - 1) / (n - 1) == free) by (nonlinear_arith)
            requires
                n >= 2,
                free == q * (n - 1),
        ;
        assert(sizes.take(n - 1).push(sizes[n - 1]) =~= sizes);
        lemma_sum_int_push(sizes.take(n - 1), sizes[n - 1]);
    }
}

/// Leading space for one item, as `justify_lead` describes.
fn lead_exec(j: Justify, free: u64, n: usize, i: usize) -> (l: u64)
    requires
        free <= MAX_DIM,
        i < n,
        n <= MAX_DIM,
    ensures
        l == justify_lead(j, free as int, n as int, i as int),
        l <= free,
{
    proof {
        assert((free as int) * ((2 * n) as int) <= MAX_DIM * (3 * MAX_DIM)) by (nonlinear_arith)
            requires
                0 <= free <= MAX_DIM,
                0 < n <= MAX_DIM,
        ;
    }
    match j {
        Justify::Start => 0,
        Justify::Center => free / 2,
        Justify::End => free,
        Justify::SpaceBetween => {
            if n >= 2 {
                proof {
                    lemma_div_le_when_num_le(free as int, i as int, (n - 1) as int);
                    lemma_mul_grows(free as int, i as int, (2 * n) as int);
                }
                (((free as u128) * (i as u128)) / ((n - 1) as u128)) as u64
            } else {
                0
            }
        },
        Justify::SpaceAround => {
            proof {
                lemma_div_le_when_num_le(free as int, (2 * i + 1) as int, (2 * n) as int);
                lemma_mul_grows(free as int, (2 * i + 1) as int, (2 * n) as int);
            }
            (((free as u128) * ((2 * i + 1) as u128)) / ((2 * n) as u128)) as u64
        },
        Justify::SpaceEvenly => {
            proof {
                lemma_div_le_when_num_le(free as int, (i + 1) as int, (n + 1) as int);
                lemma_mul_grows(free as int, (i + 1) as int, (2 * n) as int);
            }
            (((free as u128) * ((i + 1) as u128)) / ((n + 1) as u128)) as u64
        },
    }
}

proof fn lemma_mul_grows(a: int, k: int, m: int)
    requires
        a >= 0,
        0 <= k <= m,
    ensures
        0 <= a * k <= a * m,
{
    assert(0 <= a * k <= a * m) by (nonlinear_arith)
        requires
            a >= 0,
            0 <= k <= m,
    ;
}

proof fn lemma_div_le_when_num_le(a: int, k: int, m: int)
    requires
        a >= 0,
        0 <= k <= m,
        m > 0,
    ensures
        0 <= a * k / m <= a,
{
    assert(0 <= a * k <= a * m) by (nonlinear_arith)
        requires
            a >= 0,
            0 <= k <= m,
    ;
    assert(0 <= a * k / m <= a) by (nonlinear_arith)
        requires
            m > 0,
            0 <= a * k <= a * m,
    ;
}

/// The placement mode for lines, as `content_justify` reads it.
fn content_justify_exec(a: AlignContent) -> (j: Justify)
    ensures
        j == content_justify(a),
{
    match a {
        AlignContent::Start => Justify::Start,
        AlignContent::Center => Justify::Center,
        AlignContent::End => Justify::End,
        AlignContent::SpaceBetween => Justify::SpaceBetween,
        AlignContent::SpaceAround => Justify::SpaceAround,
        AlignContent::SpaceEvenly => Justify::SpaceEvenly,
        AlignContent::Stretch => Justify::Start,
    }
}

/// Bound on any coordinate the engine produces.
pub const MAX_POS: u64 = 0x4000_0000_0000_0000;

/// Compute one line's main-axis positions.
fn positions_exec(sizes: &Vec<u64>, gap: u64, j: Justify, avail: u64) -> (r: Vec<u64>)
    requires
        sizes@.len() <= MAX_DIM,
        gap <= MAX_DIM,
        avail <= MAX_DIM,
        forall|i: int| 0 <= i < sizes@.len() ==> #[trigger] sizes@[i] <= 2 * MAX_DIM,
    ensures
        r@.len() == sizes@.len(),
        seq_int(r@) == spec_positions(seq_int(sizes@), gap, j, avail as int),
        forall|i: int| 0 <= i < r@.len() ==> #[trigger] r@[i] <= MAX_POS,
{
    let ghost szs = seq_int(sizes@);
    let n = sizes.len();
    let mut out: Vec<u64> = Vec::new();
    if n == 0 {
        proof {
            assert(seq_int(out@) =~= spec_positions(szs, gap, j, avail as int));
        }
        return out;
    }
    // The occupied space, capped: overflow leaves no free space.
    let total = sum_exec_wide(sizes);
    proof {
        assert(gap * (n - 1) <= MAX_DIM * MAX_DIM) by (nonlinear_arith)
            requires
                0 <= gap <= MAX_DIM,
                1 <= n <= MAX_DIM,
        ;
        lemma_sum_int_of_seq_int(sizes@);
    }
    let used: u64 = total + gap * ((n - 1) as u64);
    let free: u64 = if avail >= used {
        avail - used
    } else {
        0
    };
    let ghost posspec = spec_positions(szs, gap, j, avail as int);
    let mut packed: u64 = 0;
    let mut i: usize = 0;
    proof {
        assert(szs.take(0) =~= Seq::<int>::empty());
    }
    while i < n
        invariant
            n == sizes@.len(),
            szs == seq_int(sizes@),
            i <= n,
            1 <= n <= MAX_DIM,
            gap <= MAX_DIM,
            free <= avail <= MAX_DIM,
            free as int == (if avail as int >= occupied_int(szs, gap) {
                avail as int - occupied_int(szs, gap)
            } else {
                0
            }),
            forall|k: int| 0 <= k < sizes@.len() ==> #[trigger] sizes@[k] <= 2 * MAX_DIM,
            packed == packed_pos(szs, gap, i as int),
            packed <= i * (2 * MAX_DIM + MAX_DIM),
            out@.len() == i,
            posspec == spec_positions(szs, gap, j, avail as int),
            posspec.len() == n,
            forall|k: int| 0 <= k < i ==> #[trigger] out@[k] == posspec[k],
            forall|k: int| 0 <= k < i ==> #[trigger] out@[k] <= MAX_POS,
        decreases n - i,
    {
        proof {
            assert(i * (2 * MAX_DIM + MAX_DIM) <= MAX_DIM * (2 * MAX_DIM + MAX_DIM))
                by (nonlinear_arith)
                requires
                    0 <= i <= MAX_DIM,
            ;
        }
        let l = lead_exec(j, free, n, i);
        let p = packed + l;
        proof {
            assert(posspec[i as int] == packed_pos(szs, gap, i as int) + justify_lead(
                j,
                free as int,
                n as int,
                i as int,
            ));
            lemma_sum_int_take_succ(szs, i as int);
            assert(szs[i as int] == sizes@[i as int]);
            assert((i + 1) * (2 * MAX_DIM + MAX_DIM) == i * (2 * MAX_DIM + MAX_DIM) + (2 * MAX_DIM
                + MAX_DIM)) by (nonlinear_arith);
            assert(gap * ((i + 1) as int) == gap * (i as int) + gap) by (nonlinear_arith);
        }
        out.push(p);
        packed = packed + sizes[i] + gap;
        i = i + 1;
    }
    proof {
        assert(seq_int(out@) =~= posspec);
    }
    out
}

/// Sum a vector whose entries may each be up to twice the dimension bound.
fn sum_exec_wide(ws: &Vec<u64>) -> (t: u64)
    requires
        ws@.len() <= MAX_DIM,
        forall|i: int| 0 <= i < ws@.len() ==> #[trigger] ws@[i] <= 2 * MAX_DIM,
    ensures
        t == sum(ws@),
        t <= 2 * MAX_TOTAL,
{
    proof {
        lemma_sum_bound(ws@, (2 * MAX_DIM) as u64);
        assert(ws@.len() * (2 * MAX_DIM) <= MAX_DIM * (2 * MAX_DIM)) by (nonlinear_arith)
            requires
                0 <= ws@.len() <= MAX_DIM,
        ;
    }
    let n = ws.len();
    let mut acc: u64 = 0;
    let mut i: usize = 0;
    proof {
        assert(ws@.skip(0) =~= ws@);
    }
    while i < n
        invariant
            n == ws@.len(),
            i <= n,
            acc + sum(ws@.skip(i as int)) == sum(ws@),
            sum(ws@) <= 2 * MAX_TOTAL,
            forall|k: int| 0 <= k < ws@.len() ==> #[trigger] ws@[k] <= 2 * MAX_DIM,
        decreases n - i,
    {
        proof {
            let rest = ws@.skip(i as int);
            assert(rest[0] == ws@[i as int]);
            assert(rest.skip(1) =~= ws@.skip(i as int + 1));
            lemma_sum_nonneg(ws@.skip(i as int + 1));
        }
        acc = acc + ws[i];
        i = i + 1;
    }
    proof {
        assert(ws@.skip(n as int) =~= Seq::<u64>::empty());
    }
    acc
}

/// A sequence of counts, read as mathematical integers.
pub open spec fn seq_int_us(s: Seq<usize>) -> Seq<int> {
    s.map_values(|x: usize| x as int)
}

/// How many further items fit on a line, given the space that remains after
/// the items already placed: each additional item costs one gap plus its
/// basis.
pub open spec fn extend_len(bases: Seq<u64>, gap: u64, rem: int) -> nat
    decreases bases.len(),
{
    if bases.len() == 0 {
        0
    } else if gap + bases[0] <= rem {
        1 + extend_len(bases.skip(1), gap, rem - gap - bases[0])
    } else {
        0
    }
}

/// Items on the first line: the first item always, then as many more as fit.
pub open spec fn first_line_len(bases: Seq<u64>, gap: u64, avail: int) -> nat {
    if bases.len() == 0 {
        0
    } else {
        1 + extend_len(bases.skip(1), gap, avail - bases[0])
    }
}

pub proof fn lemma_extend_len_range(bases: Seq<u64>, gap: u64, rem: int)
    ensures
        0 <= extend_len(bases, gap, rem) <= bases.len(),
    decreases bases.len(),
{
    if bases.len() > 0 && gap + bases[0] <= rem {
        lemma_extend_len_range(bases.skip(1), gap, rem - gap - bases[0]);
    }
}

/// The number of items on each line, in order: everything on one line
/// without wrapping, else greedy filling, a line never left empty. The first
/// line's length never exceeds the item count; the bound below only keeps the
/// recursion visibly decreasing.
pub open spec fn spec_line_lens(bases: Seq<u64>, gap: u64, avail: int, wrap: bool) -> Seq<int>
    decreases bases.len(),
{
    if bases.len() == 0 {
        Seq::empty()
    } else if !wrap {
        seq![bases.len() as int]
    } else {
        let k0 = first_line_len(bases, gap, avail) as int;
        let k = if k0 > bases.len() {
            bases.len() as int
        } else {
            k0
        };
        seq![k] + spec_line_lens(bases.skip(k), gap, avail, wrap)
    }
}

/// Line lengths partition the items: every line holds at least one item and
/// the lengths sum to the item count.
pub proof fn lemma_line_lens_partition(bases: Seq<u64>, gap: u64, avail: int, wrap: bool)
    ensures
        sum_int(spec_line_lens(bases, gap, avail, wrap)) == bases.len(),
        forall|j: int|
            0 <= j < spec_line_lens(bases, gap, avail, wrap).len() ==> 1 <= #[trigger] spec_line_lens(
                bases,
                gap,
                avail,
                wrap,
            )[j] <= bases.len(),
    decreases bases.len(),
{
    let lens = spec_line_lens(bases, gap, avail, wrap);
    assert(sum_int(Seq::<int>::empty()) == 0);
    if bases.len() == 0 {
    } else if !wrap {
        assert(lens.skip(1) =~= Seq::<int>::empty());
        assert(lens[0] == bases.len());
        assert(sum_int(lens) == lens[0] + sum_int(lens.skip(1)));
    } else {
        let k0 = first_line_len(bases, gap, avail) as int;
        lemma_extend_len_range(bases.skip(1), gap, avail - bases[0]);
        let k = if k0 > bases.len() {
            bases.len() as int
        } else {
            k0
        };
        lemma_line_lens_partition(bases.skip(k), gap, avail, wrap);
        assert(lens.skip(1) =~= spec_line_lens(bases.skip(k), gap, avail, wrap));
        assert(lens[0] == k);
        assert(sum_int(lens) == lens[0] + sum_int(lens.skip(1)));
        assert(bases.skip(k).len() == bases.len() - k);
        assert forall|j: int| 0 <= j < lens.len() implies 1 <= #[trigger] lens[j]
            <= bases.len() by {
            if j > 0 {
                assert(lens[j] == spec_line_lens(bases.skip(k), gap, avail, wrap)[j - 1]);
            }
        }
    }
}

/// Compute the line lengths, as `spec_line_lens` describes.
fn line_lens_exec(bases: &Vec<u64>, gap: u64, avail: u64, wrap: bool) -> (r: Vec<usize>)
    requires
        bases@.len() <= MAX_DIM,
        gap <= MAX_DIM,
        avail <= MAX_DIM,
        forall|i: int| 0 <= i < bases@.len() ==> #[trigger] bases@[i] <= MAX_DIM,
    ensures
        seq_int_us(r@) == spec_line_lens(bases@, gap, avail as int, wrap),
        sum_int(seq_int_us(r@)) == bases@.len(),
        forall|j: int| 0 <= j < r@.len() ==> 1 <= #[trigger] r@[j] <= bases@.len(),
{
    let n = bases.len();
    let mut out: Vec<usize> = Vec::new();
    proof {
        lemma_line_lens_partition(bases@, gap, avail as int, wrap);
    }
    if n == 0 {
        proof {
            assert(seq_int_us(out@) =~= spec_line_lens(bases@, gap, avail as int, wrap));
        }
        return out;
    }
    if !wrap {
        out.push(n);
        proof {
            assert(seq_int_us(out@) =~= spec_line_lens(bases@, gap, avail as int, wrap));
        }
        return out;
    }
    let mut start: usize = 0;
    proof {
        assert(bases@.skip(0) =~= bases@);
        assert(seq_int_us(out@) + spec_line_lens(bases@, gap, avail as int, wrap)
            =~= spec_line_lens(bases@, gap, avail as int, wrap));
    }
    while start < n
        invariant
            n == bases@.len(),
            n <= MAX_DIM,
            gap <= MAX_DIM,
            avail <= MAX_DIM,
            wrap,
            start <= n,
            forall|i: int| 0 <= i < bases@.len() ==> #[trigger] bases@[i] <= MAX_DIM,
            seq_int_us(out@) + spec_line_lens(bases@.skip(start as int), gap, avail as int, wrap)
                == spec_line_lens(bases@, gap, avail as int, wrap),
            forall|j: int| 0 <= j < out@.len() ==> 1 <= #[trigger] out@[j] <= bases@.len(),
        decreases n - start,
    {
        let ghost restb = bases@.skip(start as int);
        // Walk forward while the next item still fits.
        let mut j: usize = start + 1;
        let mut rem: i128 = (avail as i128) - (bases[start] as i128);
        proof {
            assert(restb.skip(1) =~= bases@.skip(start as int + 1));
            assert(restb[0] == bases@[start as int]);
        }
        while j < n && (gap as i128) + (bases[j] as i128) <= rem
            invariant
                n == bases@.len(),
                n <= MAX_DIM,
                gap <= MAX_DIM,
                avail <= MAX_DIM,
                start < j <= n,
                restb == bases@.skip(start as int),
                forall|i: int| 0 <= i < bases@.len() ==> #[trigger] bases@[i] <= MAX_DIM,
                rem >= (avail as i128) - 0x7fff_ffff_ffff_i128,
                rem <= avail as i128,
                first_line_len(restb, gap, avail as int) as int == (j - start) + extend_len(
                    bases@.skip(j as int),
                    gap,
                    rem as int,
                ) as int,
            decreases n - j,
        {
            proof {
                let tail = bases@.skip(j as int);
                assert(tail[0] == bases@[j as int]);
                assert(tail.skip(1) =~= bases@.skip(j as int + 1));
            }
            rem = rem - (gap as i128) - (bases[j] as i128);
            j = j + 1;
        }
        proof {
            if j < n {
                assert(extend_len(bases@.skip(j as int), gap, rem as int) == 0);
            } else {
                assert(bases@.skip(j as int) =~= Seq::<u64>::empty());
            }
            assert(first_line_len(restb, gap, avail as int) as int == j - start);
            lemma_extend_len_range(restb.skip(1), gap, avail as int - restb[0]);
            assert(restb.skip((j - start) as int) =~= bases@.skip(j as int));
            let lensrest = spec_line_lens(restb, gap, avail as int, wrap);
            assert(lensrest == seq![(j - start) as int] + spec_line_lens(
                bases@.skip(j as int),
                gap,
                avail as int,
                wrap,
            ));
            assert(lensrest.skip(1) =~= spec_line_lens(bases@.skip(j as int), gap, avail as int, wrap));
            assert(seq_int_us(out@.push((j - start) as usize)) =~= seq_int_us(out@) + seq![
                (j - start) as int,
            ]);
            assert((seq_int_us(out@) + seq![(j - start) as int]) + spec_line_lens(
                bases@.skip(j as int),
                gap,
                avail as int,
                wrap,
            ) =~= seq_int_us(out@) + (seq![(j - start) as int] + spec_line_lens(
                bases@.skip(j as int),
                gap,
                avail as int,
                wrap,
            )));
        }
        out.push(j - start);
        start = j;
    }
    proof {
        assert(bases@.skip(n as int) =~= Seq::<u64>::empty());
        assert(seq_int_us(out@) + Seq::<int>::empty() =~= seq_int_us(out@));
        lemma_line_lens_partition(bases@, gap, avail as int, wrap);
        assert forall|jj: int| 0 <= jj < out@.len() implies 1 <= #[trigger] out@[jj]
            <= bases@.len() by {
            assert(seq_int_us(out@)[jj] == out@[jj] as int);
            assert(seq_int_us(out@)[jj] == spec_line_lens(bases@, gap, avail as int, wrap)[jj]);
        }
    }
    out
}

/// Largest element of a sequence of dimensions; zero when empty.
pub open spec fn seq_max_u(s: Seq<u64>) -> int
    decreases s.len(),
{
    if s.len() == 0 {
        0
    } else {
        let m = seq_max_u(s.skip(1));
        if s[0] >= m {
            s[0] as int
        } else {
            m
        }
    }
}

pub proof fn lemma_seq_max_ge(s: Seq<u64>)
    ensures
        seq_max_u(s) >= 0,
        forall|i: int| 0 <= i < s.len() ==> #[trigger] s[i] <= seq_max_u(s),
    decreases s.len(),
{
    if s.len() > 0 {
        lemma_seq_max_ge(s.skip(1));
        assert forall|i: int| 0 <= i < s.len() implies #[trigger] s[i] <= seq_max_u(s) by {
            if i > 0 {
                assert(s.skip(1)[i - 1] == s[i]);
            }
        }
    }
}

pub proof fn lemma_seq_max_le(s: Seq<u64>, m: u64)
    requires
        forall|i: int| 0 <= i < s.len() ==> #[trigger] s[i] <= m,
    ensures
        seq_max_u(s) <= m,
    decreases s.len(),
{
    if s.len() > 0 {
        lemma_seq_max_le(s.skip(1), m);
    }
}

/// Largest element of a vector of dimensions; zero when empty.
fn max_exec(v: &Vec<u64>) -> (m: u64)
    ensures
        m == seq_max_u(v@),
        forall|i: int| 0 <= i < v@.len() ==> #[trigger] v@[i] <= m,
{
    let n = v.len();
    let mut acc: u64 = 0;
    let mut i: usize = n;
    proof {
        assert(v@.skip(n as int) =~= Seq::<u64>::empty());
    }
    while i > 0
        invariant
            n == v@.len(),
            i <= n,
            acc == seq_max_u(v@.skip(i as int)),
        decreases i,
    {
        i = i - 1;
        proof {
            let rest = v@.skip(i as int);
            assert(rest[0] == v@[i as int]);
            assert(rest.skip(1) =~= v@.skip(i as int + 1));
        }
        if v[i] > acc {
            acc = v[i];
        }
    }
    proof {
        assert(v@.skip(0) =~= v@);
        lemma_seq_max_ge(v@);
    }
    acc
}

/// Copy of `v[start .. start + k]`.
fn subvec<T: Copy>(v: &Vec<T>, start: usize, k: usize) -> (r: Vec<T>)
    requires
        start + k <= v@.len(),
    ensures
        r@ == v@.subrange(start as int, start as int + k as int),
{
    let n = v.len();
    let mut r: Vec<T> = Vec::new();
    let mut o: usize = 0;
    proof {
        assert(r@ =~= v@.subrange(start as int, start as int));
    }
    while o < k
        invariant
            n == v@.len(),
            start + k <= n,
            o <= k,
            r@ == v@.subrange(start as int, start as int + o as int),
        decreases k - o,
    {
        r.push(v[start + o]);
        proof {
            assert(r@ =~= v@.subrange(start as int, start as int + o as int + 1));
        }
        o = o + 1;
    }
    r
}

/// The cross-axis alignment that applies to an item.
pub open spec fn spec_align(it: FlexItem, default: AlignItems) -> AlignItems {
    match it.align_self {
        Some(a) => a,
        None => default,
    }
}

/// Whether an item is stretched to its line's cross size: only under
/// `Stretch` alignment, and only when no fixed cross size was given.
pub open spec fn spec_stretchy(it: FlexItem, default: AlignItems) -> bool {
    spec_align(it, default) is Stretch && it.cross is None
}

/// Cross-axis offset of an item within its line.
pub open spec fn cross_off(a: AlignItems, line_cross: int, size: int) -> int {
    match a {
        AlignItems::Start => 0,
        AlignItems::Stretch => 0,
        AlignItems::Center => (line_cross - size) / 2,
        AlignItems::End => line_cross - size,
    }
}

/// The computed placement of one item, in main/cross coordinates.
pub struct Place {
    pub main_pos: int,
    pub main_size: int,
    pub cross_pos: int,
    pub cross_size: int,
}

/// Placements of one line's items, given the line's cross position and size.
pub open spec fn line_places(
    bases: Seq<u64>,
    grows: Seq<u64>,
    caps: Seq<u64>,
    crosses: Seq<u64>,
    stretch: Seq<bool>,
    aligns: Seq<AlignItems>,
    gap: u64,
    main_avail: int,
    justify: Justify,
    line_pos: int,
    line_cross: int,
) -> Seq<Place> {
    let sizes = spec_line_sizes(bases, grows, caps, gap, main_avail);
    let pos = spec_positions(sizes, gap, justify, main_avail);
    Seq::new(
        bases.len(),
        |o: int|
            {
                let csize = if stretch[o] {
                    line_cross
                } else {
                    crosses[o] as int
                };
                Place {
                    main_pos: pos[o],
                    main_size: sizes[o],
                    cross_pos: line_pos + cross_off(aligns[o], line_cross, csize),
                    cross_size: csize,
                }
            },
    )
}

/// Cross size of each line: the largest cross size among its items.
pub open spec fn spec_line_crosses(crosses: Seq<u64>, lens: Seq<int>) -> Seq<int>
    decreases lens.len(),
{
    if lens.len() == 0 {
        Seq::empty()
    } else {
        seq![seq_max_u(crosses.take(lens[0]))] + spec_line_crosses(
            crosses.skip(lens[0]),
            lens.skip(1),
        )
    }
}

/// Placements of every item, line by line.
pub open spec fn spec_lines_places(
    bases: Seq<u64>,
    grows: Seq<u64>,
    caps: Seq<u64>,
    crosses: Seq<u64>,
    stretch: Seq<bool>,
    aligns: Seq<AlignItems>,
    lens: Seq<int>,
    lcs: Seq<int>,
    lpos: Seq<int>,
    gap: u64,
    main_avail: int,
    justify: Justify,
) -> Seq<Place>
    decreases lens.len(),
{
    if lens.len() == 0 {
        Seq::empty()
    } else {
        let k = lens[0];
        line_places(
            bases.take(k),
            grows.take(k),
            caps.take(k),
            crosses.take(k),
            stretch.take(k),
            aligns.take(k),
            gap,
            main_avail,
            justify,
            lpos[0],
            lcs[0],
        ) + spec_lines_places(
            bases.skip(k),
            grows.skip(k),
            caps.skip(k),
            crosses.skip(k),
            stretch.skip(k),
            aligns.skip(k),
            lens.skip(1),
            lcs.skip(1),
            lpos.skip(1),
            gap,
            main_avail,
            justify,
        )
    }
}

/// Main-axis bases of a list of items, as resolved dimensions.
pub open spec fn spec_bases(items: Seq<FlexItem>, main: int) -> Seq<u64> {
    Seq::new(items.len(), |i: int| spec_basis(items[i], main) as u64)
}

pub open spec fn spec_grows(items: Seq<FlexItem>) -> Seq<u64> {
    Seq::new(items.len(), |i: int| items[i].grow)
}

pub open spec fn spec_caps(items: Seq<FlexItem>, main: int) -> Seq<u64> {
    Seq::new(items.len(), |i: int| spec_shrink_cap(items[i], main) as u64)
}

pub open spec fn spec_crosses(items: Seq<FlexItem>, cross: int) -> Seq<u64> {
    Seq::new(items.len(), |i: int| spec_cross_base(items[i], cross) as u64)
}

pub open spec fn spec_stretches(items: Seq<FlexItem>, default: AlignItems) -> Seq<bool> {
    Seq::new(items.len(), |i: int| spec_stretchy(items[i], default))
}

pub open spec fn spec_aligns(items: Seq<FlexItem>, default: AlignItems) -> Seq<AlignItems> {
    Seq::new(items.len(), |i: int| spec_align(items[i], default))
}

/// The whole layout, in main/cross coordinates: one placement per item, in
/// item order. A single line fills the whole cross axis; several lines are
/// each sized by their tallest item and placed by `align_content`.
pub open spec fn spec_layout(
    items: Seq<FlexItem>,
    cfg: FlexConfig,
    main_avail: int,
    cross_avail: int,
) -> Seq<Place> {
    let bases = spec_bases(items, main_avail);
    let crosses = spec_crosses(items, cross_avail);
    let lens = spec_line_lens(bases, cfg.gap_main, main_avail, cfg.wrap);
    let lcs0 = spec_line_crosses(crosses, lens);
    let lcs1 = if lens.len() == 1 && lcs0[0] < cross_avail {
        seq![cross_avail]
    } else {
        lcs0
    };
    let lcs = if cfg.align_content is Stretch {
        add_seqs(lcs1, distribute(cross_free_of(lcs1, cfg.gap_cross, cross_avail), ones(lcs1.len())))
    } else {
        lcs1
    };
    let lpos = spec_positions(lcs, cfg.gap_cross, content_justify(cfg.align_content), cross_avail);
    spec_lines_places(
        bases,
        spec_grows(items),
        spec_caps(items, main_avail),
        crosses,
        spec_stretches(items, cfg.align_items),
        spec_aligns(items, cfg.align_items),
        lens,
        lcs,
        lpos,
        cfg.gap_main,
        main_avail,
        cfg.justify,
    )
}

/// How a rectangle realises a placement: main maps to x/width in a row and
/// to y/height in a column.
pub open spec fn rect_is(r: Rect, d: Direction, p: Place) -> bool {
    match d {
        Direction::Row => r.x == p.main_pos && r.w == p.main_size && r.y == p.cross_pos && r.h
            == p.cross_size,
        Direction::Column => r.y == p.main_pos && r.h == p.main_size && r.x == p.cross_pos && r.w
            == p.cross_size,
    }
}


pub proof fn lemma_sum_int_nonneg(s: Seq<int>)
    requires
        forall|i: int| 0 <= i < s.len() ==> #[trigger] s[i] >= 0,
    ensures
        sum_int(s) >= 0,
    decreases s.len(),
{
    if s.len() > 0 {
        assert forall|i: int| 0 <= i < s.skip(1).len() implies #[trigger] s.skip(1)[i] >= 0 by {
            assert(s.skip(1)[i] == s[i + 1]);
        }
        lemma_sum_int_nonneg(s.skip(1));
    }
}

/// Place one line's items, against the line's cross position and cross size.
fn layout_line(
    bases: &Vec<u64>,
    grows: &Vec<u64>,
    caps: &Vec<u64>,
    crosses: &Vec<u64>,
    stretch: &Vec<bool>,
    aligns: &Vec<AlignItems>,
    gap: u64,
    main_avail: u64,
    justify: Justify,
    dir: Direction,
    lp: u64,
    lc: u64,
) -> (r: Vec<Rect>)
    requires
        bases@.len() == grows@.len(),
        bases@.len() == caps@.len(),
        bases@.len() == crosses@.len(),
        bases@.len() == stretch@.len(),
        bases@.len() == aligns@.len(),
        bases@.len() <= MAX_DIM,
        gap <= MAX_DIM,
        main_avail <= MAX_DIM,
        lc <= 2 * MAX_DIM,
        lp <= MAX_POS,
        forall|i: int| 0 <= i < bases@.len() ==> #[trigger] bases@[i] <= MAX_DIM,
        forall|i: int| 0 <= i < grows@.len() ==> #[trigger] grows@[i] <= MAX_DIM,
        forall|i: int| 0 <= i < caps@.len() ==> #[trigger] caps@[i] <= bases@[i],
        forall|i: int| 0 <= i < crosses@.len() ==> #[trigger] crosses@[i] <= lc,
    ensures
        r@.len() == bases@.len(),
        forall|o: int|
            0 <= o < r@.len() ==> rect_is(
                #[trigger] r@[o],
                dir,
                line_places(
                    bases@,
                    grows@,
                    caps@,
                    crosses@,
                    stretch@,
                    aligns@,
                    gap,
                    main_avail as int,
                    justify,
                    lp as int,
                    lc as int,
                )[o],
            ),
{
    let n = bases.len();
    let sizes = line_sizes_exec(bases, grows, caps, gap, main_avail);
    let pos = positions_exec(&sizes, gap, justify, main_avail);
    let ghost pl = line_places(
        bases@,
        grows@,
        caps@,
        crosses@,
        stretch@,
        aligns@,
        gap,
        main_avail as int,
        justify,
        lp as int,
        lc as int,
    );
    let mut out: Vec<Rect> = Vec::new();
    let mut o: usize = 0;
    while o < n
        invariant
            n == bases@.len(),
            bases@.len() == crosses@.len(),
            bases@.len() == stretch@.len(),
            bases@.len() == aligns@.len(),
            sizes@.len() == n,
            pos@.len() == n,
            o <= n,
            lc <= 2 * MAX_DIM,
            lp <= MAX_POS,
            forall|i: int| 0 <= i < crosses@.len() ==> #[trigger] crosses@[i] <= lc,
            forall|i: int| 0 <= i < pos@.len() ==> #[trigger] pos@[i] <= MAX_POS,
            seq_int(sizes@) == spec_line_sizes(bases@, grows@, caps@, gap, main_avail as int),
            seq_int(pos@) == spec_positions(seq_int(sizes@), gap, justify, main_avail as int),
            pl == line_places(
                bases@,
                grows@,
                caps@,
                crosses@,
                stretch@,
                aligns@,
                gap,
                main_avail as int,
                justify,
                lp as int,
                lc as int,
            ),
            out@.len() == o,
            forall|i: int| 0 <= i < o ==> rect_is(#[trigger] out@[i], dir, pl[i]),
        decreases n - o,
    {
        let stretchy = stretch[o];
        let cs: u64 = if stretchy {
            lc
        } else {
            crosses[o]
        };
        let off: u64 = match aligns[o] {
            AlignItems::Start => 0,
            AlignItems::Stretch => 0,
            AlignItems::Center => (lc - cs) / 2,
            AlignItems::End => lc - cs,
        };
        let cp: u64 = lp + off;
        let rect = match dir {
            Direction::Row => Rect { x: pos[o], y: cp, w: sizes[o], h: cs },
            Direction::Column => Rect { x: cp, y: pos[o], w: cs, h: sizes[o] },
        };
        proof {
            assert(seq_int(pos@)[o as int] == pos@[o as int] as int);
            assert(seq_int(sizes@)[o as int] == sizes@[o as int] as int);
            assert(pl[o as int].main_pos == pos@[o as int] as int);
            assert(pl[o as int].main_size == sizes@[o as int] as int);
            assert(pl[o as int].cross_size == cs as int);
            assert(pl[o as int].cross_pos == cp as int);
        }
        out.push(rect);
        o = o + 1;
    }
    out
}

/// Append every rectangle of `more` to `out`.
fn append_rects(out: &mut Vec<Rect>, more: &Vec<Rect>)
    ensures
        final(out)@ == old(out)@ + more@,
{
    let n = more.len();
    let mut o: usize = 0;
    proof {
        assert(out@ =~= old(out)@ + more@.take(0));
    }
    while o < n
        invariant
            n == more@.len(),
            o <= n,
            out@ == old(out)@ + more@.take(o as int),
        decreases n - o,
    {
        out.push(more[o]);
        proof {
            assert(out@ =~= old(out)@ + more@.take(o as int + 1));
        }
        o = o + 1;
    }
    proof {
        assert(more@.take(n as int) =~= more@);
    }
}


pub proof fn lemma_count_le_sum(s: Seq<int>)
    requires
        forall|i: int| 0 <= i < s.len() ==> 1 <= #[trigger] s[i],
    ensures
        s.len() <= sum_int(s),
    decreases s.len(),
{
    if s.len() > 0 {
        assert forall|i: int| 0 <= i < s.skip(1).len() implies 1 <= #[trigger] s.skip(1)[i] by {
            assert(s.skip(1)[i] == s[i + 1]);
        }
        lemma_count_le_sum(s.skip(1));
    }
}

/// A proper set of line lengths covers the items exactly: the placements are
/// one per item.
pub proof fn lemma_lines_places_len(
    bases: Seq<u64>,
    grows: Seq<u64>,
    caps: Seq<u64>,
    crosses: Seq<u64>,
    stretch: Seq<bool>,
    aligns: Seq<AlignItems>,
    lens: Seq<int>,
    lcs: Seq<int>,
    lpos: Seq<int>,
    gap: u64,
    main_avail: int,
    justify: Justify,
)
    requires
        sum_int(lens) == bases.len(),
        forall|x: int| 0 <= x < lens.len() ==> 1 <= #[trigger] lens[x],
    ensures
        spec_lines_places(
            bases,
            grows,
            caps,
            crosses,
            stretch,
            aligns,
            lens,
            lcs,
            lpos,
            gap,
            main_avail,
            justify,
        ).len() == bases.len(),
    decreases lens.len(),
{
    if lens.len() > 0 {
        let k = lens[0];
        assert(lens.skip(1) =~= lens.subrange(1, lens.len() as int));
        assert forall|x: int| 0 <= x < lens.skip(1).len() implies 1 <= #[trigger] lens.skip(1)[x] by {
            assert(lens.skip(1)[x] == lens[x + 1]);
        }
        assert forall|x: int| 0 <= x < lens.skip(1).len() implies 0 <= #[trigger] lens.skip(1)[x] by {
            assert(lens.skip(1)[x] == lens[x + 1]);
        }
        lemma_sum_int_nonneg(lens.skip(1));
        assert(k <= bases.len());
        lemma_lines_places_len(
            bases.skip(k),
            grows.skip(k),
            caps.skip(k),
            crosses.skip(k),
            stretch.skip(k),
            aligns.skip(k),
            lens.skip(1),
            lcs.skip(1),
            lpos.skip(1),
            gap,
            main_avail,
            justify,
        );
    }
}

/// Lay out the items in the given container: one rectangle per item, in item
/// order. The result is a function of the inputs alone, so repeated calls on
/// equal inputs give identical rectangles.
#[verifier::rlimit(100)]
pub fn layout(items: &Vec<FlexItem>, cfg: &FlexConfig, main_avail: u64, cross_avail: u64) -> (r:
    Vec<Rect>)
    requires
        items@.len() <= MAX_DIM,
        main_avail <= MAX_DIM,
        cross_avail <= MAX_DIM,
        cfg.gap_main <= MAX_DIM,
        cfg.gap_cross <= MAX_DIM,
        forall|i: int| 0 <= i < items@.len() ==> item_bounded(#[trigger] items@[i]),
    ensures
        r@.len() == items@.len(),
        forall|i: int|
            0 <= i < r@.len() ==> rect_is(
                #[trigger] r@[i],
                cfg.direction,
                spec_layout(items@, *cfg, main_avail as int, cross_avail as int)[i],
            ),
{
    let n = items.len();
    let res = resolve_items(items, main_avail, cross_avail, cfg.align_items);
    let ghost basesq = spec_bases(items@, main_avail as int);
    let ghost growsq = spec_grows(items@);
    let ghost capsq = spec_caps(items@, main_avail as int);
    let ghost crossesq = spec_crosses(items@, cross_avail as int);
    let ghost stretchq = spec_stretches(items@, cfg.align_items);
    let ghost alignsq = spec_aligns(items@, cfg.align_items);
    proof {
        assert(res.bases@ =~= basesq);
        assert(res.grows@ =~= growsq);
        assert(res.caps@ =~= capsq);
        assert(res.crosses@ =~= crossesq);
        assert(res.stretches@ =~= stretchq);
        assert(res.aligns@ =~= alignsq);
    }
    let lens = line_lens_exec(&res.bases, cfg.gap_main, main_avail, cfg.wrap);
    let ghost lensq = seq_int_us(lens@);
    let nlines = lens.len();

    // First cross pass: each line's cross size is its tallest item's.
    let mut lcs: Vec<u64> = Vec::new();
    let mut start: usize = 0;
    let mut j: usize = 0;
    proof {
        assert(crossesq.skip(0) =~= crossesq);
        assert(lensq.skip(0) =~= lensq);
        assert(seq_int(lcs@) + spec_line_crosses(crossesq, lensq) =~= spec_line_crosses(
            crossesq,
            lensq,
        ));
    }
    while j < nlines
        invariant
            n == items@.len(),
            n <= MAX_DIM,
            nlines == lens@.len(),
            crossesq == res.crosses@,
            crossesq.len() == n,
            lensq == seq_int_us(lens@),
            j <= nlines,
            start <= n,
            forall|x: int| 0 <= x < lens@.len() ==> 1 <= #[trigger] lens@[x] <= n,
            forall|x: int| 0 <= x < crossesq.len() ==> #[trigger] crossesq[x] <= MAX_DIM,
            sum_int(lensq.skip(j as int)) == n - start,
            lcs@.len() == j,
            forall|x: int| 0 <= x < j ==> #[trigger] lcs@[x] <= MAX_DIM,
            seq_int(lcs@) + spec_line_crosses(crossesq.skip(start as int), lensq.skip(j as int))
                == spec_line_crosses(crossesq, lensq),
        decreases nlines - j,
    {
        let k = lens[j];
        proof {
            assert(lensq[j as int] == lens@[j as int] as int);
            let lrest = lensq.skip(j as int);
            assert(lrest[0] == lensq[j as int]);
            assert(lrest.skip(1) =~= lensq.skip(j as int + 1));
            assert forall|x: int| 0 <= x < lensq.skip(j as int + 1).len() implies #[trigger] lensq.skip(
                j as int + 1,
            )[x] >= 0 by {
                assert(lensq.skip(j as int + 1)[x] == lensq[j as int + 1 + x]);
                assert(lensq[j as int + 1 + x] == lens@[j as int + 1 + x] as int);
            }
            lemma_sum_int_nonneg(lensq.skip(j as int + 1));
        }
        let sub = subvec(&res.crosses, start, k);
        let m = max_exec(&sub);
        proof {
            let crest = crossesq.skip(start as int);
            assert(crest.take(k as int) =~= sub@);
            assert forall|x: int| 0 <= x < sub@.len() implies #[trigger] sub@[x] <= MAX_DIM by {
                assert(sub@[x] == crossesq[start as int + x]);
            }
            lemma_seq_max_le(sub@, MAX_DIM);
            assert(spec_line_crosses(crest, lensq.skip(j as int)) == seq![m as int]
                + spec_line_crosses(crest.skip(k as int), lensq.skip(j as int).skip(1)));
            assert(crest.skip(k as int) =~= crossesq.skip(start as int + k as int));
            assert(seq_int(lcs@.push(m)) =~= seq_int(lcs@) + seq![m as int]);
            assert((seq_int(lcs@) + seq![m as int]) + spec_line_crosses(
                crossesq.skip(start as int + k as int),
                lensq.skip(j as int + 1),
            ) =~= seq_int(lcs@) + (seq![m as int] + spec_line_crosses(
                crossesq.skip(start as int + k as int),
                lensq.skip(j as int + 1),
            )));
        }
        lcs.push(m);
        start = start + k;
        j = j + 1;
    }
    proof {
        assert(lensq.skip(nlines as int) =~= Seq::<int>::empty());
        assert(seq_int(lcs@) + Seq::<int>::empty() =~= seq_int(lcs@));
    }
    let ghost lcs0q = seq_int(lcs@);

    // A single line fills the whole cross axis.
    if nlines == 1 && lcs[0] < cross_avail {
        let mut one: Vec<u64> = Vec::new();
        one.push(cross_avail);
        proof {
            assert(seq_int(one@) =~= seq![cross_avail as int]);
        }
        lcs = one;
    }
    let ghost lcs1q = seq_int(lcs@);
    proof {
        assert(lcs1q == (if lensq.len() == 1 && lcs0q[0] < cross_avail as int {
            seq![cross_avail as int]
        } else {
            lcs0q
        }));
        assert(forall|x: int| 0 <= x < lcs@.len() ==> #[trigger] lcs@[x] <= MAX_DIM);
        assert forall|x: int| 0 <= x < lcs1q.len() implies #[trigger] lcs0q[x] <= lcs1q[x] by {
            assert(lcs0q[x] >= 0 || lcs0q[x] < 0);
        }
        lemma_count_le_sum(lensq);
    }
    // Stretch grows every line by an equal share of the spare cross space.
    if cfg.align_content == AlignContent::Stretch && lcs.len() > 0 {
        let nl = lcs.len();
        let total = sum_exec(&lcs);
        proof {
            assert(cfg.gap_cross * (nl - 1) <= MAX_DIM * MAX_DIM) by (nonlinear_arith)
                requires
                    0 <= cfg.gap_cross <= MAX_DIM,
                    1 <= nl <= MAX_DIM,
            ;
            lemma_sum_int_of_seq_int(lcs@);
        }
        let used: u64 = total + cfg.gap_cross * ((nl - 1) as u64);
        let free: u64 = if cross_avail >= used {
            cross_avail - used
        } else {
            0
        };
        let mut unit: Vec<u64> = Vec::new();
        let mut w: usize = 0;
        while w < nl
            invariant
                w <= nl,
                unit@.len() == w,
                forall|x: int| 0 <= x < w ==> #[trigger] unit@[x] == 1u64,
            decreases nl - w,
        {
            unit.push(1);
            w = w + 1;
        }
        proof {
            assert(unit@ =~= ones(lcs@.len()));
        }
        let d = distribute_exec(free, &unit);
        proof {
            lemma_distribute_elem(free as int, unit@);
        }
        let mut grown: Vec<u64> = Vec::new();
        let mut g: usize = 0;
        while g < nl
            invariant
                g <= nl,
                nl == lcs@.len(),
                d@.len() == nl,
                free <= MAX_DIM,
                forall|x: int| 0 <= x < lcs@.len() ==> #[trigger] lcs@[x] <= MAX_DIM,
                forall|x: int| 0 <= x < d@.len() ==> #[trigger] d@[x] <= free,
                grown@.len() == g,
                forall|x: int|
                    0 <= x < g ==> #[trigger] grown@[x] == lcs@[x] + d@[x],
            decreases nl - g,
        {
            grown.push(lcs[g] + d[g]);
            g = g + 1;
        }
        proof {
            assert forall|x: int| 0 <= x < grown@.len() implies #[trigger] seq_int(grown@)[x]
                == add_seqs(lcs1q, seq_int(d@))[x] by {
                assert(seq_int(grown@)[x] == grown@[x] as int);
                assert(seq_int(d@)[x] == d@[x] as int);
                assert(lcs1q[x] == lcs@[x] as int);
            }
            assert(seq_int(grown@) =~= add_seqs(lcs1q, seq_int(d@)));
            assert(free as int == cross_free_of(lcs1q, cfg.gap_cross, cross_avail as int));
        }
        lcs = grown;
    }
    let ghost lcsq = seq_int(lcs@);
    proof {
        assert(lcsq == (if cfg.align_content is Stretch {
            add_seqs(
                lcs1q,
                distribute(
                    cross_free_of(lcs1q, cfg.gap_cross, cross_avail as int),
                    ones(lcs1q.len()),
                ),
            )
        } else {
            lcs1q
        }));
        assert(forall|x: int| 0 <= x < lcs@.len() ==> #[trigger] lcs@[x] <= 2 * MAX_DIM);
        assert forall|x: int| 0 <= x < lcsq.len() implies #[trigger] lcs0q[x] <= lcsq[x] by {
            assert(lcs0q[x] <= lcs1q[x]);
        }
    }
    let lpos = positions_exec(&lcs, cfg.gap_cross, content_justify_exec(cfg.align_content), cross_avail);
    let ghost lposq = seq_int(lpos@);
    let ghost places = spec_layout(items@, *cfg, main_avail as int, cross_avail as int);
    proof {
        assert(places == spec_lines_places(
            basesq,
            growsq,
            capsq,
            crossesq,
            stretchq,
            alignsq,
            lensq,
            lcsq,
            lposq,
            cfg.gap_main,
            main_avail as int,
            cfg.justify,
        ));
        assert(places.skip(0) =~= places);
        assert(basesq.skip(0) =~= basesq);
        assert(growsq.skip(0) =~= growsq);
        assert(capsq.skip(0) =~= capsq);
        assert(crossesq.skip(0) =~= crossesq);
        assert(stretchq.skip(0) =~= stretchq);
        assert(alignsq.skip(0) =~= alignsq);
        assert(lensq.skip(0) =~= lensq);
        assert(lcsq.skip(0) =~= lcsq);
        assert(lposq.skip(0) =~= lposq);
        assert forall|i: int| 0 <= i < capsq.len() implies #[trigger] res.caps@[i]
            <= res.bases@[i] by {
            assert(res.caps@[i] == spec_shrink_cap(items@[i], main_avail as int));
            assert(res.bases@[i] == spec_basis(items@[i], main_avail as int));
        }
        lemma_lines_places_len(
            basesq,
            growsq,
            capsq,
            crossesq,
            stretchq,
            alignsq,
            lensq,
            lcsq,
            lposq,
            cfg.gap_main,
            main_avail as int,
            cfg.justify,
        );
        assert(places.len() == n);
    }

    // Second pass: place every line's items.
    let mut out: Vec<Rect> = Vec::new();
    let mut start2: usize = 0;
    let mut j2: usize = 0;
    while j2 < nlines
        invariant
            n == items@.len(),
            n <= MAX_DIM,
            main_avail <= MAX_DIM,
            cross_avail <= MAX_DIM,
            cfg.gap_main <= MAX_DIM,
            cfg.gap_cross <= MAX_DIM,
            nlines == lens@.len(),
            basesq == res.bases@,
            growsq == res.grows@,
            capsq == res.caps@,
            crossesq == res.crosses@,
            stretchq == res.stretches@,
            alignsq == res.aligns@,
            res.bounded(),
            basesq.len() == n,
            growsq.len() == n,
            capsq.len() == n,
            crossesq.len() == n,
            stretchq.len() == n,
            alignsq.len() == n,
            forall|i: int| 0 <= i < capsq.len() ==> #[trigger] res.caps@[i] <= res.bases@[i],
            lensq == seq_int_us(lens@),
            forall|x: int| 0 <= x < lens@.len() ==> 1 <= #[trigger] lens@[x] <= n,
            lcsq == seq_int(lcs@),
            lposq == seq_int(lpos@),
            lcs@.len() == nlines,
            lpos@.len() == nlines,
            forall|x: int| 0 <= x < lcs@.len() ==> #[trigger] lcs@[x] <= 2 * MAX_DIM,
            forall|x: int| 0 <= x < lpos@.len() ==> #[trigger] lpos@[x] <= MAX_POS,
            forall|x: int| 0 <= x < lcsq.len() ==> #[trigger] lcs0q[x] <= lcsq[x],
            lcs0q.len() == nlines,
            j2 <= nlines,
            start2 <= n,
            sum_int(lensq.skip(j2 as int)) == n - start2,
            spec_line_crosses(crossesq.skip(start2 as int), lensq.skip(j2 as int)) == lcs0q.skip(
                j2 as int,
            ),
            places == spec_layout(items@, *cfg, main_avail as int, cross_avail as int),
            places.len() == n,
            places.skip(start2 as int) == spec_lines_places(
                basesq.skip(start2 as int),
                growsq.skip(start2 as int),
                capsq.skip(start2 as int),
                crossesq.skip(start2 as int),
                stretchq.skip(start2 as int),
                alignsq.skip(start2 as int),
                lensq.skip(j2 as int),
                lcsq.skip(j2 as int),
                lposq.skip(j2 as int),
                cfg.gap_main,
                main_avail as int,
                cfg.justify,
            ),
            out@.len() == start2,
            forall|i: int| 0 <= i < start2 ==> rect_is(#[trigger] out@[i], cfg.direction, places[i]),
        decreases nlines - j2,
    {
        let k = lens[j2];
        proof {
            assert(lensq[j2 as int] == lens@[j2 as int] as int);
            let lrest = lensq.skip(j2 as int);
            assert(lrest[0] == lensq[j2 as int]);
            assert(lrest.skip(1) =~= lensq.skip(j2 as int + 1));
            assert forall|x: int| 0 <= x < lensq.skip(j2 as int + 1).len() implies #[trigger] lensq.skip(
                j2 as int + 1,
            )[x] >= 0 by {
                assert(lensq.skip(j2 as int + 1)[x] == lensq[j2 as int + 1 + x]);
                assert(lensq[j2 as int + 1 + x] == lens@[j2 as int + 1 + x] as int);
            }
            lemma_sum_int_nonneg(lensq.skip(j2 as int + 1));
        }
        let subb = subvec(&res.bases, start2, k);
        let subg = subvec(&res.grows, start2, k);
        let subc = subvec(&res.caps, start2, k);
        let subx = subvec(&res.crosses, start2, k);
        let subs = subvec(&res.stretches, start2, k);
        let suba = subvec(&res.aligns, start2, k);
        let ghost pline = line_places(
            subb@,
            subg@,
            subc@,
            subx@,
            subs@,
            suba@,
            cfg.gap_main,
            main_avail as int,
            cfg.justify,
            lposq[j2 as int],
            lcsq[j2 as int],
        );
        proof {
            assert(subb@ =~= basesq.skip(start2 as int).take(k as int));
            assert(subg@ =~= growsq.skip(start2 as int).take(k as int));
            assert(subc@ =~= capsq.skip(start2 as int).take(k as int));
            assert(subx@ =~= crossesq.skip(start2 as int).take(k as int));
            assert(subs@ =~= stretchq.skip(start2 as int).take(k as int));
            assert(suba@ =~= alignsq.skip(start2 as int).take(k as int));
            assert(lcsq.skip(j2 as int)[0] == lcsq[j2 as int]);
            assert(lposq.skip(j2 as int)[0] == lposq[j2 as int]);
            assert(places.skip(start2 as int) == pline + spec_lines_places(
                basesq.skip(start2 as int).skip(k as int),
                growsq.skip(start2 as int).skip(k as int),
                capsq.skip(start2 as int).skip(k as int),
                crossesq.skip(start2 as int).skip(k as int),
                stretchq.skip(start2 as int).skip(k as int),
                alignsq.skip(start2 as int).skip(k as int),
                lensq.skip(j2 as int).skip(1),
                lcsq.skip(j2 as int).skip(1),
                lposq.skip(j2 as int).skip(1),
                cfg.gap_main,
                main_avail as int,
                cfg.justify,
            ));
            // The line's items are no taller than the line.
            assert(spec_line_crosses(crossesq.skip(start2 as int), lensq.skip(j2 as int))
                == seq![seq_max_u(crossesq.skip(start2 as int).take(k as int))]
                + spec_line_crosses(
                crossesq.skip(start2 as int).skip(k as int),
                lensq.skip(j2 as int).skip(1),
            ));
            assert(lcs0q.skip(j2 as int)[0] == lcs0q[j2 as int]);
            assert(lcs0q[j2 as int] == seq_max_u(subx@));
            lemma_seq_max_ge(subx@);
            assert forall|x: int| 0 <= x < subx@.len() implies #[trigger] subx@[x]
                <= lcs@[j2 as int] by {
                assert(subx@[x] <= seq_max_u(subx@));
                assert(lcs0q[j2 as int] <= lcsq[j2 as int]);
                assert(lcsq[j2 as int] == lcs@[j2 as int] as int);
            }
            assert forall|x: int| 0 <= x < subb@.len() implies #[trigger] subb@[x] <= MAX_DIM
                && subg@[x] <= MAX_DIM by {
                assert(subb@[x] == basesq[start2 as int + x]);
                assert(subg@[x] == growsq[start2 as int + x]);
            }
            assert forall|x: int| 0 <= x < subc@.len() implies #[trigger] subc@[x]
                <= subb@[x] by {
                assert(subc@[x] == capsq[start2 as int + x]);
                assert(subb@[x] == basesq[start2 as int + x]);
            }
        }
        let rects = layout_line(
            &subb,
            &subg,
            &subc,
            &subx,
            &subs,
            &suba,
            cfg.gap_main,
            main_avail,
            cfg.justify,
            cfg.direction,
            lpos[j2],
            lcs[j2],
        );
        let ghost out_before = out@;
        append_rects(&mut out, &rects);
        proof {
            assert(pline.len() == k as int);
            assert forall|i: int| 0 <= i < start2 + k implies rect_is(
                #[trigger] out@[i],
                cfg.direction,
                places[i],
            ) by {
                if i < start2 {
                    assert(out@[i] == out_before[i]);
                } else {
                    assert(out@[i] == rects@[i - start2]);
                    assert(places[i] == places.skip(start2 as int)[i - start2]);
                    assert(places.skip(start2 as int)[i - start2] == pline[i - start2]);
                }
            }
            // Step the suffix relations to the next line.
            assert(basesq.skip(start2 as int).skip(k as int) =~= basesq.skip(
                start2 as int + k as int,
            ));
            assert(growsq.skip(start2 as int).skip(k as int) =~= growsq.skip(
                start2 as int + k as int,
            ));
            assert(capsq.skip(start2 as int).skip(k as int) =~= capsq.skip(
                start2 as int + k as int,
            ));
            assert(crossesq.skip(start2 as int).skip(k as int) =~= crossesq.skip(
                start2 as int + k as int,
            ));
            assert(stretchq.skip(start2 as int).skip(k as int) =~= stretchq.skip(
                start2 as int + k as int,
            ));
            assert(alignsq.skip(start2 as int).skip(k as int) =~= alignsq.skip(
                start2 as int + k as int,
            ));
            assert(lensq.skip(j2 as int).skip(1) =~= lensq.skip(j2 as int + 1));
            assert(lcsq.skip(j2 as int).skip(1) =~= lcsq.skip(j2 as int + 1));
            assert(lposq.skip(j2 as int).skip(1) =~= lposq.skip(j2 as int + 1));
            assert(lcs0q.skip(j2 as int).skip(1) =~= lcs0q.skip(j2 as int + 1));
            assert(lcs0q.skip(j2 as int)[0] == lcs0q[j2 as int]);
            assert(places.skip(start2 as int).skip(k as int) =~= places.skip(
                start2 as int + k as int,
            ));
            assert((pline + spec_lines_places(
                basesq.skip(start2 as int + k as int),
                growsq.skip(start2 as int + k as int),
                capsq.skip(start2 as int + k as int),
                crossesq.skip(start2 as int + k as int),
                stretchq.skip(start2 as int + k as int),
                alignsq.skip(start2 as int + k as int),
                lensq.skip(j2 as int + 1),
                lcsq.skip(j2 as int + 1),
                lposq.skip(j2 as int + 1),
                cfg.gap_main,
                main_avail as int,
                cfg.justify,
            )).skip(k as int) =~= spec_lines_places(
                basesq.skip(start2 as int + k as int),
                growsq.skip(start2 as int + k as int),
                capsq.skip(start2 as int + k as int),
                crossesq.skip(start2 as int + k as int),
                stretchq.skip(start2 as int + k as int),
                alignsq.skip(start2 as int + k as int),
                lensq.skip(j2 as int + 1),
                lcsq.skip(j2 as int + 1),
                lposq.skip(j2 as int + 1),
                cfg.gap_main,
                main_avail as int,
                cfg.justify,
            ));
            assert(lcs0q.skip(j2 as int)[0] == lcs0q[j2 as int]);
        }
        start2 = start2 + k;
        j2 = j2 + 1;
    }
    proof {
        assert(lensq.skip(nlines as int) =~= Seq::<int>::empty());
    }
    out
}


/// Layout stability: a placement sequence pins every rectangle down, so any
/// two layouts computed from equal inputs are identical, frame after frame —
/// `layout` has no state and its result is a function of its arguments alone.
pub proof fn lemma_layout_deterministic(d: Direction, r1: Seq<Rect>, r2: Seq<Rect>, p: Seq<Place>)
    requires
        r1.len() == r2.len(),
        forall|i: int| 0 <= i < r1.len() ==> rect_is(#[trigger] r1[i], d, p[i]),
        forall|i: int| 0 <= i < r2.len() ==> rect_is(#[trigger] r2[i], d, p[i]),
    ensures
        r1 == r2,
{
    assert forall|i: int| 0 <= i < r1.len() implies r1[i] == r2[i] by {
        assert(rect_is(r1[i], d, p[i]));
        assert(rect_is(r2[i], d, p[i]));
    }
    assert(r1 =~= r2);
}

/// Percent resolution: a percent size resolves against the outer container
/// alone — the formula mentions no sibling, so an item sized at half resolves
/// to half of the container's main-axis size whatever else the line holds.
pub proof fn lemma_percent_resolution(p: u64, c: u64)
    ensures
        resolve_size(Size::Percent(p), c as int) == (c as int) * (p as int) / (PERMILLE as int),
{
}


/// Sum of the main-axis sizes of a sequence of placements.
pub open spec fn sum_main_sizes(p: Seq<Place>) -> int {
    sum_int(p.map_values(|pl: Place| pl.main_size))
}

/// Conservation at the container: in an unwrapped layout whose single line
/// either has leftover space and some item that can grow, or overflows by no
/// more than its items can shrink, the item sizes plus the gaps fill the
/// container's main axis exactly.
pub proof fn lemma_layout_conservation(
    items: Seq<FlexItem>,
    cfg: FlexConfig,
    main: int,
    cross: int,
)
    requires
        !cfg.wrap,
        items.len() >= 1,
        ({
            let free = main - occupied(spec_bases(items, main), cfg.gap_main);
            ||| (free >= 0 && sum(spec_grows(items)) > 0)
            ||| (free < 0 && -free <= sum(spec_caps(items, main)))
        }),
    ensures
        sum_main_sizes(spec_layout(items, cfg, main, cross)) + cfg.gap_main * (items.len() - 1)
            == main,
{
    let n = items.len() as int;
    let bases = spec_bases(items, main);
    let grows = spec_grows(items);
    let caps = spec_caps(items, main);
    let crosses = spec_crosses(items, cross);
    let stretch = spec_stretches(items, cfg.align_items);
    let aligns = spec_aligns(items, cfg.align_items);
    let lens = spec_line_lens(bases, cfg.gap_main, main, cfg.wrap);
    assert(lens == seq![n]);
    let lcs0 = spec_line_crosses(crosses, lens);
    let lcs1 = if lens.len() == 1 && lcs0[0] < cross {
        seq![cross]
    } else {
        lcs0
    };
    let lcs = if cfg.align_content is Stretch {
        add_seqs(lcs1, distribute(cross_free_of(lcs1, cfg.gap_cross, cross), ones(lcs1.len())))
    } else {
        lcs1
    };
    let lpos = spec_positions(lcs, cfg.gap_cross, content_justify(cfg.align_content), cross);
    let places = spec_layout(items, cfg, main, cross);
    let pl = line_places(
        bases.take(n),
        grows.take(n),
        caps.take(n),
        crosses.take(n),
        stretch.take(n),
        aligns.take(n),
        cfg.gap_main,
        main,
        cfg.justify,
        lpos[0],
        lcs[0],
    );
    assert(bases.take(n) =~= bases);
    assert(grows.take(n) =~= grows);
    assert(caps.take(n) =~= caps);
    assert(crosses.take(n) =~= crosses);
    assert(stretch.take(n) =~= stretch);
    assert(aligns.take(n) =~= aligns);
    let sizes = spec_line_sizes(bases, grows, caps, cfg.gap_main, main);
    assert(lens.skip(1) =~= Seq::<int>::empty());
    assert(places =~= pl + spec_lines_places(
        bases.skip(n),
        grows.skip(n),
        caps.skip(n),
        crosses.skip(n),
        stretch.skip(n),
        aligns.skip(n),
        lens.skip(1),
        lcs.skip(1),
        lpos.skip(1),
        cfg.gap_main,
        main,
        cfg.justify,
    ));
    assert(places =~= pl);
    if main - occupied(bases, cfg.gap_main) >= 0 {
        lemma_distribute_len(main - occupied(bases, cfg.gap_main), grows);
    } else {
        lemma_distribute_len(occupied(bases, cfg.gap_main) - main, caps);
    }
    assert(sizes.len() == n);
    assert(places.map_values(|p: Place| p.main_size) =~= sizes);
    if main >= occupied(bases, cfg.gap_main) {
        lemma_line_fills_when_growing(bases, grows, caps, cfg.gap_main, main);
    } else {
        lemma_line_fills_when_shrinking(bases, grows, caps, cfg.gap_main, main);
    }
}


/// The shrink floor holds: no item is ever sized below its basis less its
/// shrink capacity — that is, below its minimum — and with space to spare no
/// item is sized below its basis at all. When every shrinkable item sits at
/// its floor and the line still overflows, the overflow stands; the engine
/// never clips.
pub proof fn lemma_shrink_never_below_floor(
    bases: Seq<u64>,
    grows: Seq<u64>,
    caps: Seq<u64>,
    gap: u64,
    avail: int,
)
    requires
        bases.len() == grows.len(),
        bases.len() == caps.len(),
    ensures
        forall|i: int|
            0 <= i < bases.len() ==> #[trigger] spec_line_sizes(bases, grows, caps, gap, avail)[i]
                >= bases[i] - caps[i],
        avail >= occupied(bases, gap) ==> forall|i: int|
            0 <= i < bases.len() ==> #[trigger] spec_line_sizes(bases, grows, caps, gap, avail)[i]
                >= bases[i],
{
    let free = avail - occupied(bases, gap);
    let sizes = spec_line_sizes(bases, grows, caps, gap, avail);
    if free >= 0 {
        if sum(grows) > 0 {
            lemma_distribute_elem(free, grows);
            lemma_distribute_len(free, grows);
        }
    } else {
        let deficit = -free;
        if deficit < sum(caps) {
            lemma_sum_nonneg(caps);
            lemma_distribute_capped(deficit, caps);
            lemma_distribute_len(deficit, caps);
        }
    }
}

} // verus!
