use perfmon_dash::network::{
    total_traffic, traffic_interval, traffic_since, transfer_rate, InterfaceBytes, Traffic,
};
use perfmon_dash::number::Single;

fn single(x: f32) -> Single {
    Single { bits: x.to_bits() }
}

fn interface(received: u64, transmitted: u64) -> InterfaceBytes {
    InterfaceBytes { received, transmitted }
}

#[test]
fn traffic_is_summed_over_the_interfaces() {
    let all = vec![interface(1, 10), interface(2, 20), interface(3, 30)];
    assert_eq!(total_traffic(&all), Some(Traffic { received: 6, transmitted: 60 }));
    assert_eq!(total_traffic(&Vec::new()), Some(Traffic { received: 0, transmitted: 0 }));
}

#[test]
fn the_order_of_the_interfaces_does_not_matter() {
    let a = vec![interface(1, 10), interface(2, 20), interface(3, 30)];
    let b = vec![interface(3, 30), interface(1, 10), interface(2, 20)];
    assert_eq!(total_traffic(&a), total_traffic(&b));
}

#[test]
fn an_overflowing_total_is_reported() {
    assert_eq!(total_traffic(&vec![interface(u64::MAX, 0), interface(1, 0)]), None);
    assert_eq!(total_traffic(&vec![interface(0, 1), interface(0, u64::MAX)]), None);
    assert_eq!(
        total_traffic(&vec![interface(u64::MAX, u64::MAX), interface(0, 0)]),
        Some(Traffic { received: u64::MAX, transmitted: u64::MAX })
    );
}

#[test]
fn a_counter_that_goes_back_has_gained_nothing() {
    let before = Traffic { received: 100, transmitted: 5 };
    let now = Traffic { received: 40, transmitted: 9 };
    assert_eq!(traffic_since(before, now), Traffic { received: 0, transmitted: 4 });
}

#[test]
fn gains_add_up() {
    let first = Traffic { received: 10, transmitted: 0 };
    let second = Traffic { received: 25, transmitted: 7 };
    let third = Traffic { received: 26, transmitted: 7 };
    let a = traffic_since(first, second);
    let b = traffic_since(second, third);
    let c = traffic_since(first, third);
    assert_eq!(c, Traffic { received: 16, transmitted: 7 });
    assert_eq!(a.received + b.received, c.received);
    assert_eq!(a.transmitted + b.transmitted, c.transmitted);
}

#[test]
fn traffic_is_counted_over_a_tenth_of_a_second_at_least() {
    assert_eq!(traffic_interval(single(0.5)), single(0.5));
    assert_eq!(traffic_interval(single(0.05)), single(0.1));
    assert_eq!(traffic_interval(single(0.0)), single(0.1));
}

#[test]
fn rates_are_in_kilobytes_per_second() {
    assert_eq!(transfer_rate(512_000, single(0.5)), single(1000.0));
    assert_eq!(transfer_rate(0, single(0.5)), single(0.0));
    for bytes in [1u64, 1000, 123_456_789, u64::MAX] {
        let native = (bytes as f32 / 1024.0) / 0.501;
        assert_eq!(transfer_rate(bytes, single(0.501)), single(native));
    }
}

#[test]
fn rates_are_not_negative() {
    for elapsed in [f32::NAN, -1.0, 0.0, 0.5, f32::INFINITY] {
        for bytes in [0, 1, u64::MAX] {
            let rate = transfer_rate(bytes, traffic_interval(single(elapsed)));
            assert!(rate.has_reached_whole(0));
        }
    }
}
