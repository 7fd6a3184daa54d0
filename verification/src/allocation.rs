//! How the quantity executable at one price level is shared out among its orders.
use vstd::prelude::*;

use crate::engine::EngineError;
use crate::model::{Order, Policy};

verus! {

/// Sum of the remaining lots of a sequence of orders.
pub open spec fn lots(orders: Seq<Order>) -> int
    decreases orders.len(),
{
    if orders.len() == 0 {
        0
    } else {
        lots(orders.drop_last()) + orders.last().quantity
    }
}

/// The lots that trade at a level: what was asked for, capped by what rests there.
pub open spec fn executable(orders: Seq<Order>, requested: int) -> int {
    if requested < lots(orders) {
        requested
    } else {
        lots(orders)
    }
}

/// FIFO: order `i` gets what the orders ahead of it left over, up to its own lots.
pub open spec fn fifo_share(orders: Seq<Order>, requested: int, i: int) -> int {
    let ahead = lots(orders.take(i));
    if requested <= ahead {
        0
    } else if requested - ahead < orders[i].quantity {
        requested - ahead
    } else {
        orders[i].quantity as int
    }
}

/// Pro-rata: the executable lots in proportion to order `i`'s lots, rounded down.
pub open spec fn floor_share(orders: Seq<Order>, requested: int, i: int) -> int {
    executable(orders, requested) * orders[i].quantity / lots(orders)
}

/// An order can take one more lot of the rounding remainder if it is not yet filled.
pub open spec fn eligible(orders: Seq<Order>, requested: int, i: int) -> bool {
    floor_share(orders, requested, i) < orders[i].quantity
}

/// How many of the first `n` orders are eligible.
pub open spec fn eligible_before(orders: Seq<Order>, requested: int, n: int) -> int
    decreases n,
{
    if n <= 0 {
        0
    } else {
        eligible_before(orders, requested, n - 1) + if eligible(orders, requested, n - 1) {
            1int
        } else {
            0int
        }
    }
}

/// Sum of the rounded-down shares of the first `n` orders.
pub open spec fn floor_sum(orders: Seq<Order>, requested: int, n: int) -> int
    decreases n,
{
    if n <= 0 {
        0
    } else {
        floor_sum(orders, requested, n - 1) + floor_share(orders, requested, n - 1)
    }
}

/// The lots that rounding down left unallocated.
pub open spec fn leftover(orders: Seq<Order>, requested: int) -> int {
    executable(orders, requested) - floor_sum(orders, requested, orders.len() as int)
}

/// Pro-rata share: the rounded-down share, plus one leftover lot for the oldest eligible orders.
pub open spec fn pro_rata_share(orders: Seq<Order>, requested: int, i: int) -> int {
    floor_share(orders, requested, i) + if eligible(orders, requested, i) && eligible_before(
        orders,
        requested,
        i,
    ) < leftover(orders, requested) {
        1int
    } else {
        0int
    }
}

pub open spec fn share(policy: Policy, orders: Seq<Order>, requested: int, i: int) -> int {
    match policy {
        Policy::Fifo => fifo_share(orders, requested, i),
        Policy::ProRata => pro_rata_share(orders, requested, i),
    }
}

/// The lots each order of a level trades when `requested` lots arrive.
pub open spec fn shares(policy: Policy, orders: Seq<Order>, requested: int) -> Seq<u64> {
    Seq::new(orders.len(), |i: int| share(policy, orders, requested, i) as u64)
}

/// The (index, lots) pairs of the orders that trade, in order.
pub open spec fn nonzero_allocations(s: Seq<u64>) -> Seq<(usize, u64)>
    decreases s.len(),
{
    if s.len() == 0 {
        Seq::empty()
    } else {
        let before = nonzero_allocations(s.drop_last());
        if s.last() > 0 {
            before.push(((s.len() - 1) as usize, s.last()))
        } else {
            before
        }
    }
}

/// Every (index, lots) pair, zero shares included.
pub open spec fn indexed(s: Seq<u64>) -> Seq<(usize, u64)> {
    Seq::new(s.len(), |i: int| (i as usize, s[i]))
}

/// Sum of a sequence of lots.
pub open spec fn sum(s: Seq<u64>) -> int
    decreases s.len(),
{
    if s.len() == 0 {
        0
    } else {
        sum(s.drop_last()) + s.last()
    }
}

// ---------------------------------------------------------------- lemmas on lots

pub proof fn lemma_lots_take_step(orders: Seq<Order>, i: int)
    requires
        0 <= i < orders.len(),
    ensures
        lots(orders.take(i + 1)) == lots(orders.take(i)) + orders[i].quantity,
{
    assert(orders.take(i + 1).drop_last() =~= orders.take(i));
}

pub proof fn lemma_lots_take_all(orders: Seq<Order>)
    ensures
        lots(orders.take(orders.len() as int)) == lots(orders),
{
    assert(orders.take(orders.len() as int) =~= orders);
}

pub proof fn lemma_lots_take_mono(orders: Seq<Order>, i: int, j: int)
    requires
        0 <= i <= j <= orders.len(),
    ensures
        0 <= lots(orders.take(i)) <= lots(orders.take(j)),
    decreases j,
{
    if j == 0 {
        assert(orders.take(0) =~= Seq::<Order>::empty());
    } else if i == j {
        lemma_lots_take_mono(orders, i - 1, j - 1);
        lemma_lots_take_step(orders, j - 1);
    } else {
        lemma_lots_take_mono(orders, i, j - 1);
        lemma_lots_take_step(orders, j - 1);
    }
}

pub proof fn lemma_lots_nonneg(orders: Seq<Order>)
    ensures
        0 <= lots(orders),
{
    lemma_lots_take_mono(orders, 0, orders.len() as int);
    lemma_lots_take_all(orders);
}

/// A level whose every order has lots has lots in total.
pub proof fn lemma_lots_positive(orders: Seq<Order>)
    requires
        orders.len() > 0,
        forall|j: int| 0 <= j < orders.len() ==> orders[j].quantity > 0,
    ensures
        lots(orders) > 0,
{
    lemma_lots_nonneg(orders.drop_last());
}

pub proof fn lemma_lots_bound(orders: Seq<Order>)
    ensures
        lots(orders) <= orders.len() * 0xFFFF_FFFF_FFFF_FFFF,
    decreases orders.len(),
{
    if orders.len() > 0 {
        lemma_lots_bound(orders.drop_last());
    }
}

// ---------------------------------------------------------------- lemmas on pro-rata shares

/// What rounding down drops from order `i`'s exact proportional share, times the level's lots.
pub open spec fn remainder(orders: Seq<Order>, requested: int, i: int) -> int {
    executable(orders, requested) * orders[i].quantity % lots(orders)
}

pub open spec fn remainder_sum(orders: Seq<Order>, requested: int, n: int) -> int
    decreases n,
{
    if n <= 0 {
        0
    } else {
        remainder_sum(orders, requested, n - 1) + remainder(orders, requested, n - 1)
    }
}

pub proof fn lemma_executable_bounds(orders: Seq<Order>, requested: int)
    requires
        requested >= 0,
    ensures
        0 <= executable(orders, requested) <= lots(orders),
        executable(orders, requested) <= requested,
{
    lemma_lots_nonneg(orders);
}

/// One order's rounded-down share and its remainder.
pub proof fn lemma_floor_share(orders: Seq<Order>, requested: int, i: int)
    requires
        requested >= 0,
        lots(orders) > 0,
        0 <= i < orders.len(),
    ensures
        lots(orders) * floor_share(orders, requested, i) + remainder(orders, requested, i)
            == executable(orders, requested) * orders[i].quantity,
        0 <= remainder(orders, requested, i) < lots(orders),
        0 <= floor_share(orders, requested, i) <= orders[i].quantity,
        remainder(orders, requested, i) > 0 ==> eligible(orders, requested, i),
{
    let t = lots(orders);
    let f = executable(orders, requested);
    let q = orders[i].quantity as int;
    lemma_executable_bounds(orders, requested);
    vstd::arithmetic::div_mod::lemma_fundamental_div_mod(f * q, t);
    vstd::arithmetic::div_mod::lemma_mod_bound(f * q, t);
    let fl = f * q / t;
    let r = f * q % t;
    assert(f * q <= t * q) by (nonlinear_arith)
        requires
            0 <= f <= t,
            0 <= q,
    ;
    assert(0 <= fl) by (nonlinear_arith)
        requires
            t * fl + r == f * q,
            0 <= f,
            0 <= q,
            r < t,
            0 < t,
    ;
    assert(fl <= q) by (nonlinear_arith)
        requires
            t * fl + r == f * q,
            f * q <= t * q,
            0 <= r,
            0 < t,
    ;
    assert(r > 0 ==> fl < q) by (nonlinear_arith)
        requires
            t * fl + r == f * q,
            f * q <= t * q,
            0 < t,
    ;
}

/// Rounded-down shares and remainders add up to the proportional total.
pub proof fn lemma_floor_sum(orders: Seq<Order>, requested: int, n: int)
    requires
        requested >= 0,
        lots(orders) > 0,
        0 <= n <= orders.len(),
    ensures
        lots(orders) * floor_sum(orders, requested, n) + remainder_sum(orders, requested, n)
            == executable(orders, requested) * lots(orders.take(n)),
        0 <= remainder_sum(orders, requested, n) <= lots(orders) * eligible_before(
            orders,
            requested,
            n,
        ),
        0 <= floor_sum(orders, requested, n),
        0 <= eligible_before(orders, requested, n) <= n,
    decreases n,
{
    let t = lots(orders);
    let f = executable(orders, requested);
    if n == 0 {
        assert(orders.take(0) =~= Seq::<Order>::empty());
    } else {
        lemma_floor_sum(orders, requested, n - 1);
        lemma_floor_share(orders, requested, n - 1);
        lemma_lots_take_step(orders, n - 1);
        let q = orders[n - 1].quantity as int;
        let a = lots(orders.take(n - 1));
        assert(f * (a + q) == f * a + f * q) by (nonlinear_arith);
        let x = floor_sum(orders, requested, n - 1);
        let fl = floor_share(orders, requested, n - 1);
        assert(t * (x + fl) == t * x + t * fl) by (nonlinear_arith);
        let e = eligible_before(orders, requested, n - 1);
        let r = remainder(orders, requested, n - 1);
        if eligible(orders, requested, n - 1) {
            assert(t * (e + 1) == t * e + t) by (nonlinear_arith);
        }
    }
}

/// The rounding leftover is never more than the eligible orders can absorb.
pub proof fn lemma_leftover(orders: Seq<Order>, requested: int)
    requires
        requested >= 0,
        lots(orders) > 0,
    ensures
        0 <= leftover(orders, requested) <= eligible_before(orders, requested, orders.len() as int),
        forall|n: int|
            0 <= n <= orders.len() ==> #[trigger] floor_sum(orders, requested, n) <= executable(
                orders,
                requested,
            ),
{
    let t = lots(orders);
    let f = executable(orders, requested);
    let len = orders.len() as int;
    lemma_executable_bounds(orders, requested);
    lemma_floor_sum(orders, requested, len);
    lemma_lots_take_all(orders);
    let fs = floor_sum(orders, requested, len);
    let rs = remainder_sum(orders, requested, len);
    let e = eligible_before(orders, requested, len);
    assert(t * (f - fs) == rs) by (nonlinear_arith)
        requires
            t * fs + rs == f * t,
    ;
    assert(0 <= f - fs <= e) by (nonlinear_arith)
        requires
            t * (f - fs) == rs,
            0 <= rs <= t * e,
            t > 0,
    ;
    assert forall|n: int| 0 <= n <= orders.len() implies #[trigger] floor_sum(
        orders,
        requested,
        n,
    ) <= f by {
        lemma_floor_sum(orders, requested, n);
        lemma_lots_take_mono(orders, n, len);
        let a = lots(orders.take(n));
        let x = floor_sum(orders, requested, n);
        let y = remainder_sum(orders, requested, n);
        assert(f * a <= f * t) by (nonlinear_arith)
            requires
                0 <= a <= t,
                0 <= f,
        ;
        assert(x <= f) by (nonlinear_arith)
            requires
                t * x + y == f * a,
                f * a <= f * t,
                0 <= y,
                t > 0,
        ;
    }
}

/// Each pro-rata share stays within the order's lots.
pub proof fn lemma_pro_rata_share_bounds(orders: Seq<Order>, requested: int, i: int)
    requires
        requested >= 0,
        lots(orders) > 0,
        0 <= i < orders.len(),
    ensures
        0 <= pro_rata_share(orders, requested, i) <= orders[i].quantity,
{
    lemma_floor_share(orders, requested, i);
}

/// Shares of the first `n` orders under pro-rata: the rounded-down shares plus leftover lots.
pub proof fn lemma_pro_rata_sum(orders: Seq<Order>, requested: int, n: int)
    requires
        requested >= 0,
        lots(orders) > 0,
        0 <= n <= orders.len(),
    ensures
        sum(shares(Policy::ProRata, orders, requested).take(n)) == floor_sum(orders, requested, n)
            + if eligible_before(orders, requested, n) < leftover(orders, requested) {
            eligible_before(orders, requested, n)
        } else {
            leftover(orders, requested)
        },
    decreases n,
{
    let s = shares(Policy::ProRata, orders, requested);
    lemma_leftover(orders, requested);
    if n == 0 {
        assert(s.take(0) =~= Seq::<u64>::empty());
    } else {
        lemma_pro_rata_sum(orders, requested, n - 1);
        lemma_pro_rata_share_bounds(orders, requested, n - 1);
        assert(s.take(n).drop_last() =~= s.take(n - 1));
    }
}

/// Shares of the first `n` orders under FIFO: what was asked for, capped by their lots.
pub proof fn lemma_fifo_sum(orders: Seq<Order>, requested: int, n: int)
    requires
        requested >= 0,
        0 <= n <= orders.len(),
    ensures
        sum(shares(Policy::Fifo, orders, requested).take(n)) == if requested < lots(
            orders.take(n),
        ) {
            requested
        } else {
            lots(orders.take(n))
        },
    decreases n,
{
    let s = shares(Policy::Fifo, orders, requested);
    if n == 0 {
        assert(s.take(0) =~= Seq::<u64>::empty());
        assert(orders.take(0) =~= Seq::<Order>::empty());
    } else {
        lemma_fifo_sum(orders, requested, n - 1);
        lemma_lots_take_step(orders, n - 1);
        assert(s.take(n).drop_last() =~= s.take(n - 1));
    }
}

/// Every share stays within the order's lots, under either policy.
pub proof fn lemma_share_bounds(policy: Policy, orders: Seq<Order>, requested: int, i: int)
    requires
        requested >= 0,
        lots(orders) > 0,
        0 <= i < orders.len(),
    ensures
        0 <= share(policy, orders, requested, i) <= orders[i].quantity,
        shares(policy, orders, requested)[i] == share(policy, orders, requested, i),
{
    if policy == Policy::ProRata {
        lemma_pro_rata_share_bounds(orders, requested, i);
    }
}

/// The shares of a level add up to the executable lots.
pub proof fn lemma_shares_sum(policy: Policy, orders: Seq<Order>, requested: int)
    requires
        requested >= 0,
        lots(orders) > 0,
    ensures
        sum(shares(policy, orders, requested)) == executable(orders, requested),
{
    let s = shares(policy, orders, requested);
    let len = orders.len() as int;
    assert(s.take(len) =~= s);
    lemma_lots_take_all(orders);
    match policy {
        Policy::Fifo => lemma_fifo_sum(orders, requested, len),
        Policy::ProRata => {
            lemma_pro_rata_sum(orders, requested, len);
            lemma_leftover(orders, requested);
        },
    }
}

/// When a level holds no more than what was asked for, every order is filled in full.
pub proof fn lemma_shares_fill_all(policy: Policy, orders: Seq<Order>, requested: int, i: int)
    requires
        lots(orders) <= requested,
        lots(orders) > 0,
        0 <= i < orders.len(),
    ensures
        shares(policy, orders, requested)[i] == orders[i].quantity,
{
    lemma_share_bounds(policy, orders, requested, i);
    match policy {
        Policy::Fifo => {
            lemma_lots_take_mono(orders, i + 1, orders.len() as int);
            lemma_lots_take_step(orders, i);
            lemma_lots_take_all(orders);
        },
        Policy::ProRata => {
            let t = lots(orders);
            let q = orders[i].quantity as int;
            assert(t * q / t == q) by (nonlinear_arith)
                requires
                    t > 0,
            ;
        },
    }
}

// ---------------------------------------------------------------- lemmas on allocation lists

/// Zero shares at the end add nothing to the allocation list.
pub proof fn lemma_nonzero_zero_tail(s: Seq<u64>, n: int)
    requires
        0 <= n <= s.len(),
        forall|j: int| n <= j < s.len() ==> s[j] == 0,
    ensures
        nonzero_allocations(s) == nonzero_allocations(s.take(n)),
    decreases s.len(),
{
    if s.len() == n {
        assert(s.take(n) =~= s);
    } else {
        lemma_nonzero_zero_tail(s.drop_last(), n);
        assert(s.drop_last().take(n) =~= s.take(n));
    }
}

/// One more share extends the allocation list of a prefix by at most one pair.
pub proof fn lemma_nonzero_take_step(s: Seq<u64>, n: int)
    requires
        0 <= n < s.len(),
    ensures
        nonzero_allocations(s.take(n + 1)) == if s[n] > 0 {
            nonzero_allocations(s.take(n)).push((n as usize, s[n]))
        } else {
            nonzero_allocations(s.take(n))
        },
{
    assert(s.take(n + 1).drop_last() =~= s.take(n));
}

/// When the positive shares come first, the allocation list is the first pairs of the full list,
/// and every share after it is zero.
pub proof fn lemma_prefix_allocations(s: Seq<u64>)
    requires
        forall|a: int, b: int| 0 <= a < b < s.len() && #[trigger] s[b] > 0 ==> #[trigger] s[a] > 0,
    ensures
        nonzero_allocations(s) == indexed(s).take(nonzero_allocations(s).len() as int),
        nonzero_allocations(s).len() <= s.len(),
        forall|j: int| nonzero_allocations(s).len() <= j < s.len() ==> #[trigger] s[j] == 0,
    decreases s.len(),
{
    if s.len() == 0 {
        assert(indexed(s).take(0) =~= Seq::<(usize, u64)>::empty());
    } else {
        let init = s.drop_last();
        assert forall|a: int, b: int| 0 <= a < b < init.len() && #[trigger] init[b] > 0 implies #[trigger] init[a] > 0 by {
            assert(s[a] == init[a] && s[b] == init[b]);
        }
        lemma_prefix_allocations(init);
        let k = nonzero_allocations(init).len() as int;
        if s.last() > 0 {
            assert forall|j: int| 0 <= j < init.len() implies init[j] > 0 by {
                assert(s[j] > 0);
            }
            if k < init.len() {
                assert(init[k] == 0);
            }
            assert(indexed(init).take(k).push(((s.len() - 1) as usize, s.last())) =~= indexed(
                s,
            ).take(s.len() as int));
        } else {
            assert(indexed(init).take(k) =~= indexed(s).take(k));
            assert forall|j: int| k <= j < s.len() implies #[trigger] s[j] == 0 by {
                if j < init.len() {
                    assert(init[j] == 0);
                }
            }
        }
    }
}

/// Under FIFO, with every order holding lots and something asked for, the orders that trade
/// come first, and so do the orders filled in full.
pub proof fn lemma_fifo_prefixes(orders: Seq<Order>, requested: int)
    requires
        requested > 0,
        forall|j: int| 0 <= j < orders.len() ==> (#[trigger] orders[j]).quantity > 0,
    ensures
        ({
            let s = shares(Policy::Fifo, orders, requested);
            &&& forall|a: int, b: int| 0 <= a < b < s.len() && #[trigger] s[b] > 0 ==> #[trigger] s[a] > 0
            &&& forall|a: int, b: int|
                0 <= a < b < s.len() && #[trigger] s[b] == orders[b].quantity ==> #[trigger] s[a]
                    == orders[a].quantity
            &&& orders.len() > 0 ==> s[0] > 0
        }),
{
    let s = shares(Policy::Fifo, orders, requested);
    assert forall|a: int, b: int| 0 <= a < b < s.len() && #[trigger] s[b] > 0 implies #[trigger] s[a] > 0 by {
        lemma_lots_take_mono(orders, a, b);
    }
    assert forall|a: int, b: int|
        0 <= a < b < s.len() && #[trigger] s[b] == orders[b].quantity implies #[trigger] s[a]
            == orders[a].quantity by {
        lemma_lots_take_mono(orders, a + 1, b);
        lemma_lots_take_step(orders, a);
        lemma_lots_take_step(orders, b);
    }
    if orders.len() > 0 {
        assert(orders.take(0) =~= Seq::<Order>::empty());
    }
}

/// Sums of longer prefixes are larger; zero shares at the end add nothing.
pub proof fn lemma_sum_take(s: Seq<u64>, n: int)
    requires
        0 <= n <= s.len(),
    ensures
        0 <= sum(s.take(n)) <= sum(s),
        (forall|j: int| n <= j < s.len() ==> #[trigger] s[j] == 0) ==> sum(s.take(n)) == sum(s),
    decreases s.len(),
{
    if n == s.len() {
        assert(s.take(n) =~= s);
        lemma_sum_nonneg(s);
    } else {
        lemma_sum_take(s.drop_last(), n);
        assert(s.drop_last().take(n) =~= s.take(n));
    }
}

pub proof fn lemma_sum_nonneg(s: Seq<u64>)
    ensures
        0 <= sum(s),
    decreases s.len(),
{
    if s.len() > 0 {
        lemma_sum_nonneg(s.drop_last());
    }
}

pub proof fn lemma_sum_take_step(s: Seq<u64>, n: int)
    requires
        0 <= n < s.len(),
    ensures
        sum(s.take(n + 1)) == sum(s.take(n)) + s[n],
{
    assert(s.take(n + 1).drop_last() =~= s.take(n));
}

// ---------------------------------------------------------------- allocation

/// Allocations at one price level, in the order trade events will be emitted:
/// the (index, lots) pairs of the orders that trade under FIFO, every pair under pro-rata.
pub(crate) fn allocate(
    policy: Policy,
    level: &Vec<Order>,
    requested: u64,
    allocations: &mut Vec<(usize, u64)>,
) -> (r: Result<(), EngineError>)
    ensures
        policy == Policy::Fifo ==> r is Ok && final(allocations)@ == nonzero_allocations(
            shares(policy, level@, requested as int),
        ),
        policy == Policy::ProRata ==> {
            &&& (r is Err <==> lots(level@) == 0)
            &&& r is Err ==> r == Err::<(), EngineError>(EngineError::CorruptBook)
                && final(allocations)@ == Seq::<(usize, u64)>::empty()
            &&& r is Ok ==> final(allocations)@ == indexed(shares(policy, level@, requested as int))
        },
{
    allocations.clear();
    let ghost orders = level@;
    let ghost req = requested as int;
    match policy {
        Policy::Fifo => {
            let ghost s = shares(Policy::Fifo, orders, req);
            let mut remaining = requested;
            let mut index: usize = 0;
            assert(orders.take(0) =~= Seq::<Order>::empty());
            assert(s.take(0) =~= Seq::<u64>::empty());
            while index < level.len() && remaining > 0
                invariant
                    orders == level@,
                    s == shares(Policy::Fifo, orders, req),
                    req == requested,
                    index <= level.len(),
                    remaining as int == if req <= lots(orders.take(index as int)) {
                        0
                    } else {
                        req - lots(orders.take(index as int))
                    },
                    allocations@ == nonzero_allocations(s.take(index as int)),
                decreases level.len() - index,
            {
                let available = level[index].quantity;
                let quantity = if remaining < available {
                    remaining
                } else {
                    available
                };
                proof {
                    lemma_lots_take_step(orders, index as int);
                    lemma_lots_take_mono(orders, 0, index as int);
                    assert(s[index as int] == quantity);
                    lemma_nonzero_take_step(s, index as int);
                }
                if quantity > 0 {
                    allocations.push((index, quantity));
                }
                remaining = remaining - quantity;
                index = index + 1;
            }
            proof {
                if index < level.len() {
                    assert forall|j: int| index <= j < s.len() implies s[j] == 0 by {
                        lemma_lots_take_mono(orders, index as int, j);
                    }
                }
                lemma_nonzero_zero_tail(s, index as int);
            }
            Ok(())
        },
        Policy::ProRata => {
            let ghost s = shares(Policy::ProRata, orders, req);
            let len = level.len();
            let mut total: u128 = 0;
            let mut i: usize = 0;
            assert(orders.take(0) =~= Seq::<Order>::empty());
            while i < len
                invariant
                    orders == level@,
                    len == level.len(),
                    i <= len,
                    total == lots(orders.take(i as int)),
                    allocations@ == Seq::<(usize, u64)>::empty(),
                decreases len - i,
            {
                proof {
                    lemma_lots_take_step(orders, i as int);
                    lemma_lots_bound(orders.take(i + 1));
                    let n = (i + 1) as int;
                    assert(n * 0xFFFF_FFFF_FFFF_FFFF <= 0xFFFF_FFFF_FFFF_FFFF_FFFF_FFFF_FFFF_FFFFint)
                        by (nonlinear_arith)
                        requires
                            0 <= n <= 0x1_0000_0000_0000_0000int,
                    ;
                }
                total = match total.checked_add(level[i].quantity as u128) {
                    Some(t) => t,
                    None => return Err(EngineError::ArithmeticOverflow),
                };
                i = i + 1;
            }
            proof {
                lemma_lots_take_all(orders);
            }
            if total == 0 {
                return Err(EngineError::CorruptBook);
            }
            let capped: u64 = if total > 0xFFFF_FFFF_FFFF_FFFFu128 {
                0xFFFF_FFFF_FFFF_FFFFu64
            } else {
                total as u64
            };
            let fill: u64 = if requested < capped {
                requested
            } else {
                capped
            };
            assert(fill == executable(orders, req));
            proof {
                lemma_leftover(orders, req);
            }
            let mut allocated: u64 = 0;
            let mut i: usize = 0;
            while i < len
                invariant
                    orders == level@,
                    s == shares(Policy::ProRata, orders, req),
                    req == requested,
                    len == level.len(),
                    i <= len,
                    total == lots(orders),
                    total > 0,
                    fill == executable(orders, req),
                    allocated == floor_sum(orders, req, i as int),
                    forall|n: int| 0 <= n <= orders.len() ==> #[trigger] floor_sum(orders, req, n) <= fill,
                    allocations@.len() == i,
                    forall|j: int|
                        0 <= j < i ==> #[trigger] allocations@[j] == (j as usize, floor_share(
                            orders,
                            req,
                            j,
                        ) as u64),
                decreases len - i,
            {
                let quantity = level[i].quantity;
                proof {
                    lemma_floor_share(orders, req, i as int);
                    lemma_executable_bounds(orders, req);
                    let f = fill as int;
                    let q = quantity as int;
                    assert(f * q <= 0xFFFF_FFFF_FFFF_FFFF * 0xFFFF_FFFF_FFFF_FFFF) by (nonlinear_arith)
                        requires
                            0 <= f <= 0xFFFF_FFFF_FFFF_FFFF,
                            0 <= q <= 0xFFFF_FFFF_FFFF_FFFF,
                    ;
                    assert(floor_sum(orders, req, i + 1) <= fill);
                }
                let product = match (fill as u128).checked_mul(quantity as u128) {
                    Some(p) => p,
                    None => return Err(EngineError::ArithmeticOverflow),
                };
                let wide = match product.checked_div(total) {
                    Some(w) => w,
                    None => return Err(EngineError::ArithmeticOverflow),
                };
                if wide > 0xFFFF_FFFF_FFFF_FFFFu128 {
                    return Err(EngineError::ArithmeticOverflow);
                }
                let share = wide as u64;
                allocated = match allocated.checked_add(share) {
                    Some(a) => a,
                    None => return Err(EngineError::ArithmeticOverflow),
                };
                allocations.push((i, share));
                i = i + 1;
            }
            let mut leftover_lots = match fill.checked_sub(allocated) {
                Some(l) => l,
                None => return Err(EngineError::CorruptBook),
            };
            let ghost lo = leftover(orders, req);
            assert(leftover_lots == lo);
            // Integer-lot remainder goes to older eligible orders first.
            let mut i: usize = 0;
            while i < len
                invariant
                    orders == level@,
                    s == shares(Policy::ProRata, orders, req),
                    req == requested,
                    len == level.len(),
                    i <= len,
                    total == lots(orders),
                    total > 0,
                    lo == leftover(orders, req),
                    0 <= lo <= eligible_before(orders, req, len as int),
                    leftover_lots as int == lo - if eligible_before(orders, req, i as int) < lo {
                        eligible_before(orders, req, i as int)
                    } else {
                        lo
                    },
                    allocations@.len() == len,
                    forall|j: int|
                        0 <= j < i ==> #[trigger] allocations@[j] == (j as usize, pro_rata_share(
                            orders,
                            req,
                            j,
                        ) as u64),
                    forall|j: int|
                        i <= j < len ==> #[trigger] allocations@[j] == (j as usize, floor_share(
                            orders,
                            req,
                            j,
                        ) as u64),
                decreases len - i,
            {
                proof {
                    lemma_floor_share(orders, req, i as int);
                }
                let (index, share) = allocations[i];
                if leftover_lots > 0 && share < level[i].quantity {
                    allocations.set(i, (index, share + 1));
                    leftover_lots = leftover_lots - 1;
                }
                i = i + 1;
            }
            if leftover_lots != 0 {
                return Err(EngineError::CorruptBook);
            }
            proof {
                assert forall|j: int| 0 <= j < len implies s[j] == pro_rata_share(orders, req, j) as u64 by {}
                assert(allocations@ =~= indexed(s));
            }
            Ok(())
        },
    }
}

} // verus!
