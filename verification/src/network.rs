//! Traffic counted over all network interfaces.
use crate::arithmetic::small_integers_are_exact;
use crate::bounds::{
    conversion_keeps_order, fractions_are_finite, integers_are_finite,
    quotient_by_an_integer_is_finite, quotient_keeps_the_sign,
};
use crate::number::{single_one, Single};
use vstd::arithmetic::power2::lemma_pow2_pos;
use vstd::prelude::*;

verus! {

/// The bytes that one interface has moved.
#[derive(Clone, Copy, PartialEq, Eq, Structural, Debug)]
pub struct InterfaceBytes {
    pub received: u64,
    pub transmitted: u64,
}

/// The bytes moved by all interfaces together.
#[derive(Clone, Copy, PartialEq, Eq, Structural, Debug)]
pub struct Traffic {
    pub received: u64,
    pub transmitted: u64,
}

/// The bytes received over all interfaces.
pub open spec fn total_received(interfaces: Seq<InterfaceBytes>) -> nat
    decreases interfaces.len(),
{
    if interfaces.len() == 0 {
        0
    } else {
        total_received(interfaces.drop_last()) + interfaces.last().received as nat
    }
}

/// The bytes transmitted over all interfaces.
pub open spec fn total_transmitted(interfaces: Seq<InterfaceBytes>) -> nat
    decreases interfaces.len(),
{
    if interfaces.len() == 0 {
        0
    } else {
        total_transmitted(interfaces.drop_last()) + interfaces.last().transmitted as nat
    }
}

/// A part of the interfaces moved no more than all of them.
proof fn lemma_totals_grow(interfaces: Seq<InterfaceBytes>, n: int)
    requires
        0 <= n <= interfaces.len(),
    ensures
        total_received(interfaces.take(n)) <= total_received(interfaces),
        total_transmitted(interfaces.take(n)) <= total_transmitted(interfaces),
    decreases interfaces.len(),
{
    if n == interfaces.len() {
        assert(interfaces.take(n) == interfaces);
    } else {
        lemma_totals_grow(interfaces.drop_last(), n);
        assert(interfaces.drop_last().take(n) == interfaces.take(n));
    }
}

/// The traffic over all interfaces; `None` where a total overflows.
pub fn total_traffic(interfaces: &Vec<InterfaceBytes>) -> (r: Option<Traffic>)
    ensures
        r is Some <==> total_received(interfaces@) <= u64::MAX && total_transmitted(interfaces@)
            <= u64::MAX,
        r matches Some(t) ==> t.received == total_received(interfaces@) && t.transmitted
            == total_transmitted(interfaces@),
{
    let mut received: u64 = 0;
    let mut transmitted: u64 = 0;
    let mut i: usize = 0;
    while i < interfaces.len()
        invariant
            i <= interfaces@.len(),
            received == total_received(interfaces@.take(i as int)),
            transmitted == total_transmitted(interfaces@.take(i as int)),
        decreases interfaces@.len() - i,
    {
        proof {
            assert(interfaces@.take(i + 1).drop_last() == interfaces@.take(i as int));
            lemma_totals_grow(interfaces@, i + 1);
        }
        received = match received.checked_add(interfaces[i].received) {
            Some(sum) => sum,
            None => {
                return None;
            },
        };
        transmitted = match transmitted.checked_add(interfaces[i].transmitted) {
            Some(sum) => sum,
            None => {
                return None;
            },
        };
        i = i + 1;
    }
    assert(interfaces@.take(i as int) == interfaces@);
    Some(Traffic { received, transmitted })
}

/// What a counter has gained; nothing where it went back.
pub open spec fn gain(before: int, now: int) -> int {
    if now >= before {
        now - before
    } else {
        0
    }
}

/// The traffic between two totals.
pub fn traffic_since(before: Traffic, now: Traffic) -> (r: Traffic)
    ensures
        r.received == gain(before.received as int, now.received as int),
        r.transmitted == gain(before.transmitted as int, now.transmitted as int),
        now.received >= before.received ==> before.received + r.received == now.received,
        now.received <= before.received ==> r.received == 0,
        now.transmitted >= before.transmitted ==> before.transmitted + r.transmitted
            == now.transmitted,
        now.transmitted <= before.transmitted ==> r.transmitted == 0,
{
    Traffic {
        received: now.received.saturating_sub(before.received),
        transmitted: now.transmitted.saturating_sub(before.transmitted),
    }
}

/// The seconds to count traffic over: no less than a tenth.
pub open spec fn interval(elapsed: Single) -> Single {
    elapsed.raised(Single::fraction(1, 10))
}

/// The seconds to count traffic over: no less than a tenth.
pub fn traffic_interval(elapsed: Single) -> (r: Single)
    ensures
        r == interval(elapsed),
        !r.nan(),
        r == elapsed || r == Single::fraction(1, 10),
        !elapsed.nan() ==> r.value() >= elapsed.value(),
        r.value() >= Single::fraction(1, 10).value(),
{
    proof {
        fractions_are_finite(1, 10);
    }
    elapsed.at_least(Single::ratio(1, 10))
}

/// The rate, in KB/s, at which so many bytes move in so many seconds.
pub open spec fn rate_of(bytes: u64, seconds: Single) -> Single {
    Single::of_int(bytes as int).quotient(Single::of_int(1024)).quotient(seconds)
}

/// The rate, in KB/s, at which so many bytes move in so many seconds.
pub fn transfer_rate(bytes: u64, seconds: Single) -> (r: Single)
    ensures
        r == rate_of(bytes, seconds),
{
    Single::from_u64(bytes).over(Single::from_u64(1024)).over(seconds)
}

/// The rate of any traffic is a number, and not below zero, however little time
/// is said to have passed.
pub proof fn rates_are_not_negative(bytes: u64, elapsed: Single)
    ensures
        !rate_of(bytes, interval(elapsed)).nan(),
        rate_of(bytes, interval(elapsed)).value() >= 0,
{
    let kilos = Single::of_int(bytes as int).quotient(Single::of_int(1024));
    lemma_pow2_pos(149);
    integers_are_finite(bytes as int);
    conversion_keeps_order(bytes as nat, bytes as nat);
    small_integers_are_exact(1024);
    assert(1024nat as int * single_one() > 0) by (nonlinear_arith)
        requires
            single_one() > 0,
    ;
    fractions_are_finite(1, 10);
    quotient_by_an_integer_is_finite(Single::of_int(bytes as int), 1024);
    quotient_keeps_the_sign(Single::of_int(bytes as int), Single::of_int(1024));
    quotient_keeps_the_sign(kilos, interval(elapsed));
}

/// What a counter has gained makes up, with what it stood at, what it stands at; it is
/// nothing where the counter went back.
pub proof fn gain_makes_up_the_difference(before: int, now: int)
    ensures
        now >= before ==> before + gain(before, now) == now,
        now <= before ==> gain(before, now) == 0,
{
}

/// One interface has moved what it has moved, in each direction, and two lists of
/// interfaces together have moved what the one and the other have.
pub proof fn totals_add_up(
    interface: InterfaceBytes,
    first: Seq<InterfaceBytes>,
    second: Seq<InterfaceBytes>,
)
    ensures
        total_received(seq![interface]) == interface.received,
        total_transmitted(seq![interface]) == interface.transmitted,
        total_received(first + second) == total_received(first) + total_received(second),
        total_transmitted(first + second) == total_transmitted(first) + total_transmitted(second),
    decreases second.len(),
{
    reveal_with_fuel(total_received, 2);
    reveal_with_fuel(total_transmitted, 2);
    assert(seq![interface].drop_last() =~= Seq::empty());
    if second.len() == 0 {
        assert(first + second =~= first);
    } else {
        totals_add_up(interface, first, second.drop_last());
        assert((first + second).drop_last() =~= first + second.drop_last());
    }
}

/// A gain is never more than the total, and the gains over two periods add up
/// where the counter does not go back.
pub proof fn gains_add_up(first: int, second: int, third: int)
    requires
        0 <= first <= second <= third,
    ensures
        gain(first, third) == gain(first, second) + gain(second, third),
        gain(first, third) <= third,
{
}

proof fn lemma_totals_without(interfaces: Seq<InterfaceBytes>, i: int)
    requires
        0 <= i < interfaces.len(),
    ensures
        total_received(interfaces) == total_received(interfaces.remove(i)) + interfaces[i].received,
        total_transmitted(interfaces) == total_transmitted(interfaces.remove(i))
            + interfaces[i].transmitted,
    decreases interfaces.len(),
{
    if i == interfaces.len() - 1 {
        assert(interfaces.remove(i) == interfaces.drop_last());
    } else {
        lemma_totals_without(interfaces.drop_last(), i);
        assert(interfaces.remove(i).drop_last() == interfaces.drop_last().remove(i));
        assert(interfaces.remove(i).last() == interfaces.last());
    }
}

/// The order in which the interfaces are listed makes no difference.
pub proof fn listing_order_does_not_matter(a: Seq<InterfaceBytes>, b: Seq<InterfaceBytes>)
    requires
        a.to_multiset() == b.to_multiset(),
    ensures
        total_received(a) == total_received(b),
        total_transmitted(a) == total_transmitted(b),
    decreases a.len(),
{
    broadcast use vstd::seq_lib::group_to_multiset_ensures;

    assert(a.len() == a.to_multiset().len());
    assert(b.len() == b.to_multiset().len());
    if a.len() > 0 {
        let last = a.last();
        assert(a.contains(last));
        assert(b.to_multiset().count(last) > 0);
        assert(b.contains(last));
        let i = choose|i: int| 0 <= i < b.len() && b[i] == last;
        let n = a.len() - 1;
        assert(a.remove(n) == a.drop_last());
        assert(a.remove(n).to_multiset() == b.remove(i).to_multiset());
        listing_order_does_not_matter(a.remove(n), b.remove(i));
        lemma_totals_without(a, n);
        lemma_totals_without(b, i);
    }
}

} // verus!
