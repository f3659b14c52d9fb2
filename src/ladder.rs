use vstd::prelude::*;
use crate::utils::{Direction, Price, Volume};

verus! {

/// One side of an order book: (price, volume) levels, best price first.
pub type Level = (Price, Volume);

/// Whether a trade at `trade_price` initiated on side `aggressor` reaches a
/// resting level priced `level_price`.
pub open spec fn reaches(aggressor: Direction, trade_price: Price, level_price: Price) -> bool {
    match aggressor {
        Direction::Buy => trade_price >= level_price,
        Direction::Sell => trade_price <= level_price,
    }
}

/// The levels after a trade of `left` shares at `trade_price` has consumed
/// them from the best level outward, stopping at the first level it does
/// not reach or once it is used up.
pub open spec fn consumed(levels: Seq<Level>, aggressor: Direction, trade_price: Price, left: nat) -> Seq<Level>
    decreases levels.len(),
{
    if levels.len() == 0 || !reaches(aggressor, trade_price, levels[0].0) {
        levels
    } else if left > levels[0].1 {
        seq![(levels[0].0, 0usize)] + consumed(levels.drop_first(), aggressor, trade_price, (left - levels[0].1) as nat)
    } else {
        levels.update(0, (levels[0].0, (levels[0].1 - left) as usize))
    }
}

/// Value of a market order for `left` shares walking the levels from the
/// best one; when the levels run out, the value of what they held.
pub open spec fn fill_value(levels: Seq<Level>, left: nat) -> nat
    decreases levels.len(),
{
    if levels.len() == 0 {
        0
    } else if levels[0].1 >= left {
        (levels[0].0 * left) as nat
    } else {
        (levels[0].0 * levels[0].1 + fill_value(levels.drop_first(), (left - levels[0].1) as nat)) as nat
    }
}

/// Index of the level at which a market order for `left` shares completes.
pub open spec fn fill_depth(levels: Seq<Level>, left: nat) -> nat
    decreases levels.len(),
{
    if levels.len() == 0 || levels[0].1 >= left {
        0
    } else {
        1 + fill_depth(levels.drop_first(), (left - levels[0].1) as nat)
    }
}

/// Total of price times volume over the levels.
pub open spec fn notional(levels: Seq<Level>) -> nat
    decreases levels.len(),
{
    if levels.len() == 0 {
        0
    } else {
        (levels[0].0 * levels[0].1 + notional(levels.drop_first())) as nat
    }
}

/// Total volume of the levels.
pub open spec fn total_volume(levels: Seq<Level>) -> nat
    decreases levels.len(),
{
    if levels.len() == 0 {
        0
    } else {
        (levels[0].1 + total_volume(levels.drop_first())) as nat
    }
}

/// Lowest price among the levels (0 when there are none).
pub open spec fn lowest_price(levels: Seq<Level>) -> nat
    decreases levels.len(),
{
    if levels.len() == 0 {
        0
    } else if levels.len() == 1 || levels[0].0 <= lowest_price(levels.drop_first()) {
        levels[0].0 as nat
    } else {
        lowest_price(levels.drop_first())
    }
}

/// Highest price among the levels (0 when there are none).
pub open spec fn highest_price(levels: Seq<Level>) -> nat
    decreases levels.len(),
{
    if levels.len() == 0 {
        0
    } else if levels[0].0 >= highest_price(levels.drop_first()) {
        levels[0].0 as nat
    } else {
        highest_price(levels.drop_first())
    }
}

/// Whether `p` is a strictly better price than `q` on a side whose best
/// level is its lowest price (`ascending`, asks) or its highest (bids).
pub open spec fn better(p: Price, q: Price, ascending: bool) -> bool {
    if ascending {
        p < q
    } else {
        p > q
    }
}

/// Number of leading levels priced strictly better than `price`: where a
/// level at `price` is, or would be inserted.
pub open spec fn slot(levels: Seq<Level>, price: Price, ascending: bool) -> nat
    decreases levels.len(),
{
    if levels.len() == 0 || !better(levels[0].0, price, ascending) {
        0
    } else {
        1 + slot(levels.drop_first(), price, ascending)
    }
}

/// Every level can take `extra` more shares without leaving `usize`.
pub open spec fn room_for(levels: Seq<Level>, extra: Volume) -> bool {
    forall|i: int| 0 <= i < levels.len() ==> levels[i].1 + extra <= usize::MAX
}

proof fn lemma_notional_suffix(levels: Seq<Level>, k: int)
    requires
        0 <= k <= levels.len(),
    ensures
        notional(levels.skip(k)) <= notional(levels),
    decreases k,
{
    if k > 0 {
        lemma_notional_suffix(levels.drop_first(), k - 1);
        assert(levels.drop_first().skip(k - 1) =~= levels.skip(k));
    } else {
        assert(levels.skip(0) =~= levels);
    }
}

/// Whether the notional of the levels fits in `usize`.
pub fn notional_fits(levels: &Vec<Level>) -> (r: bool)
    ensures
        r == (notional(levels@) <= usize::MAX),
{
    let mut total: usize = 0;
    let mut i: usize = levels.len();
    assert(levels@.skip(i as int).len() == 0);
    while i > 0
        invariant
            i <= levels.len(),
            total == notional(levels@.skip(i as int)),
        decreases i,
    {
        let (p, v) = levels[i - 1];
        assert(levels@.skip(i - 1).drop_first() =~= levels@.skip(i as int));
        assert(levels@.skip(i - 1)[0] == (p, v));
        match p.checked_mul(v) {
            Some(pv) => match pv.checked_add(total) {
                Some(t) => {
                    total = t;
                },
                None => {
                    proof {
                        lemma_notional_suffix(levels@, i - 1);
                    }
                    return false;
                },
            },
            None => {
                proof {
                    lemma_notional_suffix(levels@, i - 1);
                    assert(p * v <= notional(levels@.skip(i - 1)));
                }
                return false;
            },
        }
        i = i - 1;
    }
    assert(levels@.skip(0) =~= levels@);
    true
}

/// Whether every level can take `extra` more shares.
pub fn has_room_for(levels: &Vec<Level>, extra: Volume) -> (r: bool)
    ensures
        r == room_for(levels@, extra),
{
    let mut i: usize = 0;
    while i < levels.len()
        invariant
            i <= levels.len(),
            forall|j: int| 0 <= j < i ==> levels@[j].1 + extra <= usize::MAX,
        decreases levels.len() - i,
    {
        if levels[i].1 > usize::MAX - extra {
            return false;
        }
        i = i + 1;
    }
    true
}

/// A trade changes volumes only, never the number of levels.
pub proof fn lemma_consumed_len(levels: Seq<Level>, aggressor: Direction, trade_price: Price, left: nat)
    ensures
        consumed(levels, aggressor, trade_price, left).len() == levels.len(),
    decreases levels.len(),
{
    if levels.len() > 0 && reaches(aggressor, trade_price, levels[0].0) && left > levels[0].1 {
        lemma_consumed_len(levels.drop_first(), aggressor, trade_price, (left - levels[0].1) as nat);
    }
}

/// A market order is never worth more than everything on its side.
pub proof fn lemma_fill_value_le_notional(levels: Seq<Level>, left: nat)
    ensures
        fill_value(levels, left) <= notional(levels),
    decreases levels.len(),
{
    if levels.len() > 0 {
        lemma_fill_value_le_notional(levels.drop_first(), (left - levels[0].1) as nat);
        if levels[0].1 >= left {
            let p = levels[0].0 as int;
            assert(p * left <= p * levels[0].1) by (nonlinear_arith)
                requires p >= 0, left <= levels[0].1;
        }
    }
}

/// A market order for a positive volume that the levels can fill in full
/// has an average price (truncated) between the lowest and the highest
/// price of the levels it walks.
pub proof fn lemma_fill_price_bounds(levels: Seq<Level>, volume: nat)
    requires
        volume > 0,
        total_volume(levels) >= volume,
    ensures
        fill_depth(levels, volume) < levels.len(),
        lowest_price(levels.take((fill_depth(levels, volume) + 1) as int)) <= fill_value(levels, volume) / volume,
        fill_value(levels, volume) / volume <= highest_price(levels.take((fill_depth(levels, volume) + 1) as int)),
{
    lemma_fill_bounds(levels, volume);
    let lo = lowest_price(levels.take((fill_depth(levels, volume) + 1) as int)) as int;
    let hi = highest_price(levels.take((fill_depth(levels, volume) + 1) as int)) as int;
    let f = fill_value(levels, volume) as int;
    let v = volume as int;
    assert(lo <= f / v) by (nonlinear_arith)
        requires lo * v <= f, v > 0, lo >= 0;
    assert(f / v <= hi) by (nonlinear_arith)
        requires f <= hi * v, v > 0, f >= 0;
}

proof fn lemma_fill_bounds(levels: Seq<Level>, left: nat)
    requires
        left > 0,
        total_volume(levels) >= left,
    ensures
        fill_depth(levels, left) < levels.len(),
        lowest_price(levels.take((fill_depth(levels, left) + 1) as int)) * left <= fill_value(levels, left),
        fill_value(levels, left) <= highest_price(levels.take((fill_depth(levels, left) + 1) as int)) * left,
    decreases levels.len(),
{
    let d = fill_depth(levels, left);
    let pre = levels.take((d + 1) as int);
    let p = levels[0].0 as int;
    if levels[0].1 >= left {
        assert(pre =~= seq![levels[0]]);
        assert(pre.drop_first().len() == 0);
        assert(highest_price(pre.drop_first()) == 0);
        assert(lowest_price(pre) == p);
        assert(highest_price(pre) == p);
    } else {
        let rest = levels.drop_first();
        let l2 = (left - levels[0].1) as nat;
        lemma_fill_bounds(rest, l2);
        let d2 = fill_depth(rest, l2);
        assert(d == d2 + 1);
        assert(pre.drop_first() =~= rest.take((d2 + 1) as int));
        assert(pre[0] == levels[0]);
        let lo2 = lowest_price(rest.take((d2 + 1) as int)) as int;
        let hi2 = highest_price(rest.take((d2 + 1) as int)) as int;
        let lo = lowest_price(pre) as int;
        let hi = highest_price(pre) as int;
        assert(pre.len() > 1);
        assert(lo <= p && lo <= lo2 && lo >= 0);
        assert(hi >= p && hi >= hi2);
        let v0 = levels[0].1 as int;
        let f2 = fill_value(rest, l2) as int;
        assert(fill_value(levels, left) == p * v0 + f2);
        assert(lo * left <= p * v0 + f2) by (nonlinear_arith)
            requires lo <= p, lo <= lo2, lo2 * (left - v0) <= f2, left == v0 + (left - v0), v0 >= 0, left - v0 > 0, lo >= 0;
        assert(p * v0 + f2 <= hi * left) by (nonlinear_arith)
            requires p <= hi, hi2 <= hi, f2 <= hi2 * (left - v0), left == v0 + (left - v0), v0 >= 0, left - v0 > 0;
    }
}

} // verus!
