//! Processor times as the kernel reports them, and the load they amount to.
use crate::arithmetic::{small_integers_are_exact, SINGLE_INFINITY};
use crate::bounds::{
    clamped_number_is_within, integers_are_finite, product_is_a_number, quotient_is_a_number,
    sum_is_a_number, sum_of_integers_is_finite,
};
use crate::number::{lemma_magnitude_increases, lemma_magnitude_zero, Single};
use vstd::arithmetic::power2::lemma_pow2_pos;
use vstd::prelude::*;

verus! {

/// The times that one logical processor has spent, in units of 100 ns since
/// start-up. The kernel counts idle time as kernel time.
#[derive(Clone, Copy, PartialEq, Eq, Structural, Debug)]
pub struct SystemProcessorPerformanceInformation {
    pub idle_time: i64,
    pub kernel_time: i64,
    pub user_time: i64,
    pub dpc_time: i64,
    pub interrupt_time: i64,
    pub interrupt_count: u32,
}

/// The class of the query for the times of every processor.
pub const PROCESSOR_TIMES_CLASS: u32 = 8;

/// The number of processors that a query has room for.
pub const PROCESSOR_SLOTS: usize = 64;

/// The bytes that the kernel writes for one processor: five 64-bit times, a
/// 32-bit count and the padding behind it.
pub const PROCESSOR_RECORD_BYTES: usize = 48;

impl Default for SystemProcessorPerformanceInformation {
    fn default() -> (r: Self)
        ensures
            r == (SystemProcessorPerformanceInformation {
                idle_time: 0,
                kernel_time: 0,
                user_time: 0,
                dpc_time: 0,
                interrupt_time: 0,
                interrupt_count: 0,
            }),
    {
        SystemProcessorPerformanceInformation {
            idle_time: 0,
            kernel_time: 0,
            user_time: 0,
            dpc_time: 0,
            interrupt_time: 0,
            interrupt_count: 0,
        }
    }
}

/// The length, in bytes, of the buffer that a query for processor times hands
/// to the kernel.
pub fn processor_buffer_bytes() -> (r: u32)
    ensures
        r == PROCESSOR_SLOTS * PROCESSOR_RECORD_BYTES,
        r == 64 * 48,
{
    (PROCESSOR_SLOTS * PROCESSOR_RECORD_BYTES) as u32
}

/// The records that a query has filled: as many as `return_length` bytes hold,
/// and no more than the buffer has; none where the query failed or wrote
/// nothing.
pub open spec fn filled_records(
    status: i32,
    return_length: u32,
    buffer: Seq<SystemProcessorPerformanceInformation>,
) -> Seq<SystemProcessorPerformanceInformation> {
    let count = return_length as int / PROCESSOR_RECORD_BYTES as int;
    if status != 0 || return_length == 0 {
        Seq::empty()
    } else if count < buffer.len() {
        buffer.take(count)
    } else {
        buffer
    }
}

/// Reads the answer to a query for processor times: the status that the system
/// call gave, the number of bytes that it reported, and the buffer that it wrote
/// to.
pub fn fetch_win32_processor_times(
    status: i32,
    return_length: u32,
    buffer: Vec<SystemProcessorPerformanceInformation>,
) -> (r: Vec<SystemProcessorPerformanceInformation>)
    ensures
        r@ == filled_records(status, return_length, buffer@),
        status != 0 || return_length == 0 ==> r@.len() == 0,
        status == 0 && return_length > 0 ==> {
            &&& r@.len() <= buffer@.len()
            &&& r@.len() == buffer@.len() || 48 * r@.len() <= return_length < 48 * (r@.len() + 1)
            &&& 48 * r@.len() <= return_length
            &&& forall|i: int| 0 <= i < r@.len() ==> #[trigger] r@[i] == buffer@[i]
        },
{
    if status == 0 && return_length > 0 {
        let count: usize = return_length as usize / PROCESSOR_RECORD_BYTES;
        let mut records = buffer;
        if count < records.len() {
            records.truncate(count);
        }
        records
    } else {
        Vec::new()
    }
}

/// The number of logical processors: that of the kernel's records, or
/// `listed` where there are none.
pub fn logical_core_count(
    records: &Vec<SystemProcessorPerformanceInformation>,
    listed: usize,
) -> (r: usize)
    ensures
        r == (if records@.len() > 0 {
            records@.len()
        } else {
            listed as nat
        }),
{
    if records.len() > 0 {
        records.len()
    } else {
        listed
    }
}

/// What one processor has spent between two queries.
#[derive(Clone, Copy, PartialEq, Eq, Structural, Debug)]
pub struct CoreDelta {
    pub idle: i64,
    pub kernel: i64,
    pub user: i64,
}

/// Whether a difference of two times is itself a time.
pub open spec fn fits_time(d: int) -> bool {
    i64::MIN <= d <= i64::MAX
}

/// Whether every time that the load is made of has a difference.
pub open spec fn differences_fit(
    prev: SystemProcessorPerformanceInformation,
    curr: SystemProcessorPerformanceInformation,
) -> bool {
    &&& fits_time(curr.idle_time - prev.idle_time)
    &&& fits_time(curr.kernel_time - prev.kernel_time)
    &&& fits_time(curr.user_time - prev.user_time)
}

/// The differences between the times of two queries.
pub open spec fn core_delta(
    prev: SystemProcessorPerformanceInformation,
    curr: SystemProcessorPerformanceInformation,
) -> CoreDelta {
    CoreDelta {
        idle: (curr.idle_time - prev.idle_time) as i64,
        kernel: (curr.kernel_time - prev.kernel_time) as i64,
        user: (curr.user_time - prev.user_time) as i64,
    }
}

/// Two queries can be compared where they report on the same processors.
pub open spec fn comparable(
    prev: Seq<SystemProcessorPerformanceInformation>,
    curr: Seq<SystemProcessorPerformanceInformation>,
) -> bool {
    prev.len() > 0 && prev.len() == curr.len()
}

/// What each processor has spent between two queries, in their order; nothing
/// where the two cannot be compared. `None` where a difference overflows.
pub fn core_deltas(
    prev: &Vec<SystemProcessorPerformanceInformation>,
    curr: &Vec<SystemProcessorPerformanceInformation>,
) -> (r: Option<Vec<CoreDelta>>)
    ensures
        r is None <==> comparable(prev@, curr@) && exists|i: int|
            0 <= i < curr@.len() && !differences_fit(#[trigger] prev@[i], curr@[i]),
        r matches Some(deltas) ==> if comparable(prev@, curr@) {
            deltas@ == Seq::new(curr@.len(), |i: int| core_delta(prev@[i], curr@[i]))
        } else {
            deltas@.len() == 0
        },
        r matches Some(deltas) ==> {
            &&& prev@.len() == curr@.len() ==> deltas@.len() == curr@.len()
            &&& prev@.len() != curr@.len() ==> deltas@.len() == 0
            &&& forall|i: int|
                0 <= i < deltas@.len() ==> {
                    &&& (#[trigger] deltas@[i]).idle == curr@[i].idle_time - prev@[i].idle_time
                    &&& deltas@[i].kernel == curr@[i].kernel_time - prev@[i].kernel_time
                    &&& deltas@[i].user == curr@[i].user_time - prev@[i].user_time
                }
        },
{
    let mut deltas: Vec<CoreDelta> = Vec::new();
    if prev.len() == 0 || prev.len() != curr.len() {
        return Some(deltas);
    }
    let mut i: usize = 0;
    while i < curr.len()
        invariant
            i <= curr@.len(),
            comparable(prev@, curr@),
            deltas@ == Seq::new(i as nat, |j: int| core_delta(prev@[j], curr@[j])),
            forall|j: int|
                0 <= j < i ==> differences_fit(#[trigger] prev@[j], curr@[j]),
            deltas@.len() == i,
            forall|j: int|
                0 <= j < i ==> {
                    &&& (#[trigger] deltas@[j]).idle == curr@[j].idle_time - prev@[j].idle_time
                    &&& deltas@[j].kernel == curr@[j].kernel_time - prev@[j].kernel_time
                    &&& deltas@[j].user == curr@[j].user_time - prev@[j].user_time
                },
        decreases curr@.len() - i,
    {
        let idle = match curr[i].idle_time.checked_sub(prev[i].idle_time) {
            Some(d) => d,
            None => {
                return None;
            },
        };
        let kernel = match curr[i].kernel_time.checked_sub(prev[i].kernel_time) {
            Some(d) => d,
            None => {
                return None;
            },
        };
        let user = match curr[i].user_time.checked_sub(prev[i].user_time) {
            Some(d) => d,
            None => {
                return None;
            },
        };
        deltas.push(CoreDelta { idle, kernel, user });
        i = i + 1;
    }
    Some(deltas)
}

/// The load of one processor, in percent: the share of its time in which it was
/// not idle, kept between 0 and 100, or nothing where no time has passed.
pub open spec fn load_of(delta: CoreDelta) -> Single {
    let total = Single::of_int(delta.kernel as int).sum(Single::of_int(delta.user as int));
    let busy = total.difference(Single::of_int(delta.idle as int)).raised(Single::nought());
    if total.above_whole(0) {
        busy.quotient(total).product(Single::of_int(100)).clamped(0, 100)
    } else {
        Single::nought()
    }
}

/// The load of one processor, in percent.
pub fn core_load(delta: CoreDelta) -> (r: Single)
    ensures
        r == load_of(delta),
{
    let total = Single::from_i64(delta.kernel).plus(Single::from_i64(delta.user));
    let busy = total.minus(Single::from_i64(delta.idle)).at_least(Single::zero());
    if total.is_above_whole(0) {
        busy.over(total).times(Single::whole(100)).clamp(0, 100)
    } else {
        Single::zero()
    }
}

/// The loads of all processors, in their order.
pub fn core_loads(deltas: &Vec<CoreDelta>) -> (r: Vec<Single>)
    ensures
        r@ == deltas@.map_values(|d: CoreDelta| load_of(d)),
        r@.len() == deltas@.len(),
        forall|i: int| 0 <= i < r@.len() ==> #[trigger] r@[i] == load_of(deltas@[i]),
{
    let mut loads: Vec<Single> = Vec::new();
    let mut i: usize = 0;
    while i < deltas.len()
        invariant
            i <= deltas@.len(),
            loads@ == deltas@.take(i as int).map_values(|d: CoreDelta| load_of(d)),
        decreases deltas@.len() - i,
    {
        loads.push(core_load(deltas[i]));
        i = i + 1;
        assert(loads@ =~= deltas@.take(i as int).map_values(|d: CoreDelta| load_of(d)));
    }
    assert(deltas@.take(i as int) == deltas@);
    loads
}

/// The loads added up one by one.
pub open spec fn added_up(loads: Seq<Single>) -> Single
    decreases loads.len(),
{
    if loads.len() == 0 {
        Single::nought()
    } else {
        added_up(loads.drop_last()).sum(loads.last())
    }
}

/// The load of the whole machine, in percent: the mean of the loads of its
/// processors, kept between 0 and 100, or nothing where none reported.
pub open spec fn mean_load(loads: Seq<Single>) -> Single {
    if loads.len() > 0 {
        added_up(loads).quotient(Single::of_int(loads.len() as int)).clamped(0, 100)
    } else {
        Single::nought()
    }
}

/// The load of the whole machine, in percent.
pub fn overall_load(loads: &Vec<Single>) -> (r: Single)
    ensures
        r == mean_load(loads@),
{
    let mut total = Single::zero();
    let mut i: usize = 0;
    while i < loads.len()
        invariant
            i <= loads@.len(),
            total == added_up(loads@.take(i as int)),
        decreases loads@.len() - i,
    {
        assert(loads@.take(i + 1).drop_last() == loads@.take(i as int));
        total = total.plus(loads[i]);
        i = i + 1;
    }
    assert(loads@.take(i as int) == loads@);
    if loads.len() > 0 {
        total.over(Single::from_u64(loads.len() as u64)).clamp(0, 100)
    } else {
        Single::zero()
    }
}

/// The load of a processor is a percentage, whatever times were reported.
pub proof fn core_load_is_a_percentage(delta: CoreDelta)
    ensures
        load_of(delta).within(0, 100),
{
    let total = Single::of_int(delta.kernel as int).sum(Single::of_int(delta.user as int));
    let idle = Single::of_int(delta.idle as int);
    let busy = total.difference(idle).raised(Single::nought());
    let hundred = Single::of_int(100);
    small_integers_are_exact(0);
    lemma_magnitude_zero(23);
    lemma_pow2_pos(149);
    sum_of_integers_is_finite(delta.kernel as int, delta.user as int);
    integers_are_finite(delta.idle as int);
    integers_are_finite(100);
    if total.above_whole(0) {
        sum_is_a_number(total, idle.opposite());
        quotient_is_a_number(busy, total);
        product_is_a_number(busy.quotient(total), hundred);
        clamped_number_is_within(busy.quotient(total).product(hundred), 0, 100);
    }
}

proof fn lemma_added_up(loads: Seq<Single>)
    requires
        forall|i: int| 0 <= i < loads.len() ==> (#[trigger] loads[i]).within(0, 100),
    ensures
        !added_up(loads).nan(),
        added_up(loads).value() >= 0,
    decreases loads.len(),
{
    lemma_magnitude_zero(23);
    if loads.len() > 0 {
        let rest = loads.drop_last();
        assert forall|i: int| 0 <= i < rest.len() implies (#[trigger] rest[i]).within(0, 100) by {
            assert(rest[i] == loads[i]);
        }
        lemma_added_up(rest);
        assert(loads[loads.len() - 1].within(0, 100));
        lemma_pow2_pos(149);
        lemma_infinities(added_up(rest), loads.last());
        sum_is_a_number(added_up(rest), loads.last());
    }
}

/// Infinities above zero are one.
proof fn lemma_infinities(a: Single, b: Single)
    requires
        a.value() >= 0,
        b.value() >= 0,
    ensures
        a.infinite() && b.infinite() ==> a == b,
{
    lemma_magnitude_zero(23);
    lemma_magnitude_increases(0, SINGLE_INFINITY as nat, 23);
}

/// The load of the machine is a percentage where those of its processors are.
pub proof fn mean_load_is_a_percentage(loads: Seq<Single>)
    requires
        loads.len() <= u64::MAX,
        forall|i: int| 0 <= i < loads.len() ==> (#[trigger] loads[i]).within(0, 100),
    ensures
        mean_load(loads).within(0, 100),
{
    let count = Single::of_int(loads.len() as int);
    lemma_magnitude_zero(23);
    lemma_pow2_pos(149);
    if loads.len() > 0 {
        lemma_added_up(loads);
        integers_are_finite(loads.len() as int);
        quotient_is_a_number(added_up(loads), count);
        clamped_number_is_within(added_up(loads).quotient(count), 0, 100);
    }
}

/// A buffer that the kernel has filled to the last byte is read whole.
pub proof fn full_buffer_is_read_whole(buffer: Seq<SystemProcessorPerformanceInformation>)
    requires
        buffer.len() == PROCESSOR_SLOTS,
    ensures
        filled_records(
            0,
            (PROCESSOR_SLOTS * PROCESSOR_RECORD_BYTES) as u32,
            buffer,
        ) == buffer,
{
}

/// As many records are read as the bytes reported hold whole ones, at 48 bytes each,
/// unless the buffer has fewer; then all of it is.
pub proof fn records_fill_the_length(
    status: i32,
    return_length: u32,
    buffer: Seq<SystemProcessorPerformanceInformation>,
)
    ensures
        ({
            let n = filled_records(status, return_length, buffer).len();
            if status != 0 {
                n == 0
            } else {
                &&& 48 * n <= return_length
                &&& return_length < 48 * (n + 1) || n == buffer.len()
            }
        }),
{
}

/// No more records are read than the buffer has, whatever length was reported.
pub proof fn records_come_from_the_buffer(
    status: i32,
    return_length: u32,
    buffer: Seq<SystemProcessorPerformanceInformation>,
)
    ensures
        filled_records(status, return_length, buffer).len() <= buffer.len(),
        forall|i: int|
            0 <= i < filled_records(status, return_length, buffer).len() ==> #[trigger]
                filled_records(status, return_length, buffer)[i] == buffer[i],
{
}

/// Times that count up from zero always have a difference.
pub proof fn rising_times_have_differences(
    prev: SystemProcessorPerformanceInformation,
    curr: SystemProcessorPerformanceInformation,
)
    requires
        0 <= prev.idle_time <= curr.idle_time,
        0 <= prev.kernel_time <= curr.kernel_time,
        0 <= prev.user_time <= curr.user_time,
    ensures
        differences_fit(prev, curr),
        core_delta(prev, curr).idle >= 0,
        core_delta(prev, curr).kernel >= 0,
        core_delta(prev, curr).user >= 0,
{
}

/// What a processor has spent makes up, with what it had spent before, what it has
/// spent by now.
pub proof fn deltas_make_up_the_times(
    prev: SystemProcessorPerformanceInformation,
    curr: SystemProcessorPerformanceInformation,
)
    requires
        i64::MIN <= curr.idle_time - prev.idle_time <= i64::MAX,
        i64::MIN <= curr.kernel_time - prev.kernel_time <= i64::MAX,
        i64::MIN <= curr.user_time - prev.user_time <= i64::MAX,
    ensures
        differences_fit(prev, curr),
        prev.idle_time + core_delta(prev, curr).idle == curr.idle_time,
        prev.kernel_time + core_delta(prev, curr).kernel == curr.kernel_time,
        prev.user_time + core_delta(prev, curr).user == curr.user_time,
{
}

/// What a processor spends over two periods is what it spends in the first and
/// in the second.
pub proof fn deltas_add_up(
    first: SystemProcessorPerformanceInformation,
    second: SystemProcessorPerformanceInformation,
    third: SystemProcessorPerformanceInformation,
)
    requires
        differences_fit(first, second),
        differences_fit(second, third),
        differences_fit(first, third),
    ensures
        core_delta(first, third).idle == core_delta(first, second).idle + core_delta(
            second,
            third,
        ).idle,
        core_delta(first, third).kernel == core_delta(first, second).kernel + core_delta(
            second,
            third,
        ).kernel,
        core_delta(first, third).user == core_delta(first, second).user + core_delta(
            second,
            third,
        ).user,
{
}

} // verus!
