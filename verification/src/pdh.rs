//! The performance-counter engine: which system calls are owed in which state,
//! and what their answers amount to.
use crate::number::{Double, Single};
use crate::wide::{to_wide, utf16};
use vstd::prelude::*;

verus! {

/// A counter that the dashboard reads.
#[derive(Clone, Copy, PartialEq, Eq, Structural, Debug)]
pub enum PdhCounter {
    DiskRead,
    DiskWrite,
    GpuUtilization,
    NetReceived,
    NetSent,
}

/// The format in which a counter is read: a double-precision number.
pub const PDH_FORMAT_DOUBLE: u32 = 0x0000_0200;

impl PdhCounter {
    /// The English path of the counter.
    pub open spec fn path_text(self) -> Seq<char> {
        match self {
            PdhCounter::DiskRead => "\\PhysicalDisk(_Total)\\Disk Read Bytes/sec"@,
            PdhCounter::DiskWrite => "\\PhysicalDisk(_Total)\\Disk Write Bytes/sec"@,
            PdhCounter::GpuUtilization => "\\GPU Engine(*)\\Utilization Percentage"@,
            PdhCounter::NetReceived => "\\Network Interface(*)\\Bytes Received/sec"@,
            PdhCounter::NetSent => "\\Network Interface(*)\\Bytes Sent/sec"@,
        }
    }

    /// The English path of the counter, as a wide string.
    pub fn wide_path(self) -> (r: Vec<u16>)
        ensures
            r@ == utf16(self.path_text()).push(0),
            self == PdhCounter::DiskRead ==> r@ == utf16(
                "\\PhysicalDisk(_Total)\\Disk Read Bytes/sec"@,
            ).push(0),
            self == PdhCounter::DiskWrite ==> r@ == utf16(
                "\\PhysicalDisk(_Total)\\Disk Write Bytes/sec"@,
            ).push(0),
            self == PdhCounter::GpuUtilization ==> r@ == utf16(
                "\\GPU Engine(*)\\Utilization Percentage"@,
            ).push(0),
            self == PdhCounter::NetReceived ==> r@ == utf16(
                "\\Network Interface(*)\\Bytes Received/sec"@,
            ).push(0),
            self == PdhCounter::NetSent ==> r@ == utf16(
                "\\Network Interface(*)\\Bytes Sent/sec"@,
            ).push(0),
    {
        match self {
            PdhCounter::DiskRead => to_wide("\\PhysicalDisk(_Total)\\Disk Read Bytes/sec"),
            PdhCounter::DiskWrite => to_wide("\\PhysicalDisk(_Total)\\Disk Write Bytes/sec"),
            PdhCounter::GpuUtilization => to_wide("\\GPU Engine(*)\\Utilization Percentage"),
            PdhCounter::NetReceived => to_wide("\\Network Interface(*)\\Bytes Received/sec"),
            PdhCounter::NetSent => to_wide("\\Network Interface(*)\\Bytes Sent/sec"),
        }
    }
}

/// A system call that the engine asks for.
#[derive(Clone, Copy, PartialEq, Eq, Structural, Debug)]
pub enum PdhRequest {
    /// Add a counter to the query, and report its handle to `counter_added`.
    AddCounter { query: usize, counter: PdhCounter },
    /// Collect new data for every counter of the query.
    Collect { query: usize },
    /// Read the value of a counter.
    Read { counter: PdhCounter, handle: usize, format: u32 },
}

/// One reading of all counters: transfer rates in KB/s, load in percent.
#[derive(Clone, Copy, PartialEq, Eq, Structural, Debug)]
pub struct PdhSample {
    pub disk_read_kbps: Single,
    pub disk_write_kbps: Single,
    pub gpu_util_pct: Single,
    pub net_rx_kbps: Single,
    pub net_tx_kbps: Single,
}

/// The values of all counters, as they were read.
#[derive(Clone, Copy, PartialEq, Eq, Structural, Debug)]
pub struct PdhValues {
    pub disk_read: Double,
    pub disk_write: Double,
    pub gpu_utilization: Double,
    pub net_received: Double,
    pub net_sent: Double,
}

impl PdhValues {
    /// The values with another one for `counter`.
    pub open spec fn with_value(self, counter: PdhCounter, value: Double) -> Self {
        match counter {
            PdhCounter::DiskRead => PdhValues { disk_read: value, ..self },
            PdhCounter::DiskWrite => PdhValues { disk_write: value, ..self },
            PdhCounter::GpuUtilization => PdhValues { gpu_utilization: value, ..self },
            PdhCounter::NetReceived => PdhValues { net_received: value, ..self },
            PdhCounter::NetSent => PdhValues { net_sent: value, ..self },
        }
    }

    /// The values before any counter is read.
    pub fn new() -> (r: Self)
        ensures
            r == (PdhValues {
                disk_read: Double::nought(),
                disk_write: Double::nought(),
                gpu_utilization: Double::nought(),
                net_received: Double::nought(),
                net_sent: Double::nought(),
            }),
    {
        let zero = Double { bits: 0 };
        PdhValues {
            disk_read: zero,
            disk_write: zero,
            gpu_utilization: zero,
            net_received: zero,
            net_sent: zero,
        }
    }

    /// Takes in the value of a counter.
    pub fn counter_read(&mut self, counter: PdhCounter, value: Double)
        ensures
            *final(self) == old(self).with_value(counter, value),
            final(self).disk_read == (if counter == PdhCounter::DiskRead {
                value
            } else {
                old(self).disk_read
            }),
            final(self).disk_write == (if counter == PdhCounter::DiskWrite {
                value
            } else {
                old(self).disk_write
            }),
            final(self).gpu_utilization == (if counter == PdhCounter::GpuUtilization {
                value
            } else {
                old(self).gpu_utilization
            }),
            final(self).net_received == (if counter == PdhCounter::NetReceived {
                value
            } else {
                old(self).net_received
            }),
            final(self).net_sent == (if counter == PdhCounter::NetSent {
                value
            } else {
                old(self).net_sent
            }),
    {
        match counter {
            PdhCounter::DiskRead => {
                self.disk_read = value;
            },
            PdhCounter::DiskWrite => {
                self.disk_write = value;
            },
            PdhCounter::GpuUtilization => {
                self.gpu_utilization = value;
            },
            PdhCounter::NetReceived => {
                self.net_received = value;
            },
            PdhCounter::NetSent => {
                self.net_sent = value;
            },
        }
    }
}

/// A query on the performance counters and the handles of its counters.
#[derive(PartialEq, Eq, Structural, Debug)]
pub struct Win32PdhEngine {
    pub query: usize,
    pub counter_disk_read: usize,
    pub counter_disk_write: usize,
    pub counter_gpu_util: usize,
    pub counter_net_rx: usize,
    pub counter_net_tx: usize,
    pub is_valid: bool,
}

impl Win32PdhEngine {
    /// The handle kept for a counter.
    pub open spec fn handle(self, counter: PdhCounter) -> usize {
        match counter {
            PdhCounter::DiskRead => self.counter_disk_read,
            PdhCounter::DiskWrite => self.counter_disk_write,
            PdhCounter::GpuUtilization => self.counter_gpu_util,
            PdhCounter::NetReceived => self.counter_net_rx,
            PdhCounter::NetSent => self.counter_net_tx,
        }
    }

    /// The engine with another handle kept for `counter`.
    pub open spec fn with_handle(self, counter: PdhCounter, handle: usize) -> Self {
        match counter {
            PdhCounter::DiskRead => Win32PdhEngine { counter_disk_read: handle, ..self },
            PdhCounter::DiskWrite => Win32PdhEngine { counter_disk_write: handle, ..self },
            PdhCounter::GpuUtilization => Win32PdhEngine { counter_gpu_util: handle, ..self },
            PdhCounter::NetReceived => Win32PdhEngine { counter_net_rx: handle, ..self },
            PdhCounter::NetSent => Win32PdhEngine { counter_net_tx: handle, ..self },
        }
    }

    /// The engine after the attempt to open a query: `status` is what the
    /// system call returned, `query` the handle that it wrote.
    pub fn new(status: u32, query: usize) -> (r: Self)
        ensures
            r.is_valid == (status == 0),
            r.query == query,
            forall|c: PdhCounter| #[trigger] r.handle(c) == 0,
            r.counter_disk_read == 0,
            r.counter_disk_write == 0,
            r.counter_gpu_util == 0,
            r.counter_net_rx == 0,
            r.counter_net_tx == 0,
            r.open_query() == (if status == 0 && query != 0 {
                Some(query)
            } else {
                None
            }),
    {
        Win32PdhEngine {
            query,
            counter_disk_read: 0,
            counter_disk_write: 0,
            counter_gpu_util: 0,
            counter_net_rx: 0,
            counter_net_tx: 0,
            is_valid: status == 0,
        }
    }

    /// The calls that follow the opening.
    pub open spec fn setup_requests(self) -> Seq<PdhRequest> {
        if self.is_valid {
            seq![
                PdhRequest::AddCounter { query: self.query, counter: PdhCounter::DiskRead },
                PdhRequest::AddCounter { query: self.query, counter: PdhCounter::DiskWrite },
                PdhRequest::AddCounter { query: self.query, counter: PdhCounter::GpuUtilization },
                PdhRequest::AddCounter { query: self.query, counter: PdhCounter::NetReceived },
                PdhRequest::AddCounter { query: self.query, counter: PdhCounter::NetSent },
                PdhRequest::Collect { query: self.query },
            ]
        } else {
            Seq::empty()
        }
    }

    /// The calls that follow the opening: every counter is added, then a first
    /// set of data is collected. None where the query could not be opened.
    pub fn setup(&self) -> (r: Vec<PdhRequest>)
        ensures
            r@ == self.setup_requests(),
            !self.is_valid ==> r@.len() == 0,
            self.is_valid ==> r@ == seq![
                PdhRequest::AddCounter { query: self.query, counter: PdhCounter::DiskRead },
                PdhRequest::AddCounter { query: self.query, counter: PdhCounter::DiskWrite },
                PdhRequest::AddCounter { query: self.query, counter: PdhCounter::GpuUtilization },
                PdhRequest::AddCounter { query: self.query, counter: PdhCounter::NetReceived },
                PdhRequest::AddCounter { query: self.query, counter: PdhCounter::NetSent },
                PdhRequest::Collect { query: self.query },
            ],
    {
        let mut calls: Vec<PdhRequest> = Vec::new();
        if self.is_valid {
            let query = self.query;
            calls.push(PdhRequest::AddCounter { query, counter: PdhCounter::DiskRead });
            calls.push(PdhRequest::AddCounter { query, counter: PdhCounter::DiskWrite });
            calls.push(PdhRequest::AddCounter { query, counter: PdhCounter::GpuUtilization });
            calls.push(PdhRequest::AddCounter { query, counter: PdhCounter::NetReceived });
            calls.push(PdhRequest::AddCounter { query, counter: PdhCounter::NetSent });
            calls.push(PdhRequest::Collect { query });
        }
        calls
    }

    /// Takes in the handle of a counter that was added.
    pub fn counter_added(&mut self, counter: PdhCounter, handle: usize)
        ensures
            *final(self) == old(self).with_handle(counter, handle),
            final(self).query == old(self).query,
            final(self).is_valid == old(self).is_valid,
            final(self).counter_disk_read == (if counter == PdhCounter::DiskRead {
                handle
            } else {
                old(self).counter_disk_read
            }),
            final(self).counter_disk_write == (if counter == PdhCounter::DiskWrite {
                handle
            } else {
                old(self).counter_disk_write
            }),
            final(self).counter_gpu_util == (if counter == PdhCounter::GpuUtilization {
                handle
            } else {
                old(self).counter_gpu_util
            }),
            final(self).counter_net_rx == (if counter == PdhCounter::NetReceived {
                handle
            } else {
                old(self).counter_net_rx
            }),
            final(self).counter_net_tx == (if counter == PdhCounter::NetSent {
                handle
            } else {
                old(self).counter_net_tx
            }),
    {
        match counter {
            PdhCounter::DiskRead => {
                self.counter_disk_read = handle;
            },
            PdhCounter::DiskWrite => {
                self.counter_disk_write = handle;
            },
            PdhCounter::GpuUtilization => {
                self.counter_gpu_util = handle;
            },
            PdhCounter::NetReceived => {
                self.counter_net_rx = handle;
            },
            PdhCounter::NetSent => {
                self.counter_net_tx = handle;
            },
        }
    }

    /// The call that reads `counter`.
    pub open spec fn read_request(self, counter: PdhCounter) -> PdhRequest {
        PdhRequest::Read { counter, handle: self.handle(counter), format: PDH_FORMAT_DOUBLE }
    }

    fn read(&self, counter: PdhCounter) -> (r: PdhRequest)
        ensures
            r == self.read_request(counter),
    {
        let handle = match counter {
            PdhCounter::DiskRead => self.counter_disk_read,
            PdhCounter::DiskWrite => self.counter_disk_write,
            PdhCounter::GpuUtilization => self.counter_gpu_util,
            PdhCounter::NetReceived => self.counter_net_rx,
            PdhCounter::NetSent => self.counter_net_tx,
        };
        PdhRequest::Read { counter, handle, format: PDH_FORMAT_DOUBLE }
    }

    /// The calls behind one sample.
    pub open spec fn poll_requests(self) -> Seq<PdhRequest> {
        if self.is_valid {
            seq![
                PdhRequest::Collect { query: self.query },
                self.read_request(PdhCounter::DiskRead),
                self.read_request(PdhCounter::DiskWrite),
                self.read_request(PdhCounter::GpuUtilization),
                self.read_request(PdhCounter::NetReceived),
                self.read_request(PdhCounter::NetSent),
            ]
        } else {
            Seq::empty()
        }
    }

    /// The calls behind one sample: new data, then every counter. None on an
    /// engine without a query.
    pub fn poll(&self) -> (r: Vec<PdhRequest>)
        ensures
            r@ == self.poll_requests(),
            !self.is_valid ==> r@.len() == 0,
            self.is_valid ==> r@ == seq![
                PdhRequest::Collect { query: self.query },
                PdhRequest::Read {
                    counter: PdhCounter::DiskRead,
                    handle: self.counter_disk_read,
                    format: 0x0000_0200,
                },
                PdhRequest::Read {
                    counter: PdhCounter::DiskWrite,
                    handle: self.counter_disk_write,
                    format: 0x0000_0200,
                },
                PdhRequest::Read {
                    counter: PdhCounter::GpuUtilization,
                    handle: self.counter_gpu_util,
                    format: 0x0000_0200,
                },
                PdhRequest::Read {
                    counter: PdhCounter::NetReceived,
                    handle: self.counter_net_rx,
                    format: 0x0000_0200,
                },
                PdhRequest::Read {
                    counter: PdhCounter::NetSent,
                    handle: self.counter_net_tx,
                    format: 0x0000_0200,
                },
            ],
    {
        let mut calls: Vec<PdhRequest> = Vec::new();
        if self.is_valid {
            calls.push(PdhRequest::Collect { query: self.query });
            calls.push(self.read(PdhCounter::DiskRead));
            calls.push(self.read(PdhCounter::DiskWrite));
            calls.push(self.read(PdhCounter::GpuUtilization));
            calls.push(self.read(PdhCounter::NetReceived));
            calls.push(self.read(PdhCounter::NetSent));
        }
        calls
    }

    /// The sample that the engine delivers: what the counters gave, bytes as
    /// kilobytes, or zeros on an engine without a query.
    pub fn sample(&self, values: PdhValues) -> (r: PdhSample)
        ensures
            self.is_valid ==> r == (PdhSample {
                disk_read_kbps: values.disk_read.kilos().narrowed(),
                disk_write_kbps: values.disk_write.kilos().narrowed(),
                gpu_util_pct: values.gpu_utilization.narrowed(),
                net_rx_kbps: values.net_received.kilos().narrowed(),
                net_tx_kbps: values.net_sent.kilos().narrowed(),
            }),
            !self.is_valid ==> r == (PdhSample {
                disk_read_kbps: Single::nought(),
                disk_write_kbps: Single::nought(),
                gpu_util_pct: Single::nought(),
                net_rx_kbps: Single::nought(),
                net_tx_kbps: Single::nought(),
            }),
    {
        if !self.is_valid {
            return PdhSample {
                disk_read_kbps: Single::zero(),
                disk_write_kbps: Single::zero(),
                gpu_util_pct: Single::zero(),
                net_rx_kbps: Single::zero(),
                net_tx_kbps: Single::zero(),
            };
        }
        PdhSample {
            disk_read_kbps: values.disk_read.over_1024().to_single(),
            disk_write_kbps: values.disk_write.over_1024().to_single(),
            gpu_util_pct: values.gpu_utilization.to_single(),
            net_rx_kbps: values.net_received.over_1024().to_single(),
            net_tx_kbps: values.net_sent.over_1024().to_single(),
        }
    }

    /// The query that is left to close.
    pub open spec fn open_query(self) -> Option<usize> {
        if self.is_valid && self.query != 0 {
            Some(self.query)
        } else {
            None
        }
    }

    /// Drops the engine, and gives the query to close.
    pub fn query_to_close(self) -> (r: Option<usize>)
        ensures
            r == self.open_query(),
            r is Some <==> self.is_valid && self.query != 0,
            r matches Some(query) ==> query == self.query,
    {
        if self.is_valid && self.query != 0 {
            Some(self.query)
        } else {
            None
        }
    }
}

/// A moment in the life of an engine, once it was made.
pub enum PdhStep {
    /// The calls that follow the opening.
    SetUp,
    /// A counter has its handle.
    Added { counter: PdhCounter, handle: usize },
    /// The calls behind one sample.
    Poll,
    /// The engine is dropped.
    Drop,
}

/// A system call that an engine leads to.
pub enum PdhCall {
    Request { request: PdhRequest },
    Close { query: usize },
}

/// An engine after a step: none any more where it was dropped.
pub open spec fn after_step(engine: Option<Win32PdhEngine>, step: PdhStep) -> Option<
    Win32PdhEngine,
> {
    match (engine, step) {
        (None, _) => None,
        (Some(e), PdhStep::SetUp) => Some(e),
        (Some(e), PdhStep::Added { counter, handle }) => Some(e.with_handle(counter, handle)),
        (Some(e), PdhStep::Poll) => Some(e),
        (Some(_), PdhStep::Drop) => None,
    }
}

/// The system calls that a step leads to.
pub open spec fn step_calls(engine: Option<Win32PdhEngine>, step: PdhStep) -> Seq<PdhCall> {
    match (engine, step) {
        (None, _) => Seq::empty(),
        (Some(e), PdhStep::SetUp) => e.setup_requests().map_values(
            |request: PdhRequest| PdhCall::Request { request },
        ),
        (Some(_), PdhStep::Added { .. }) => Seq::empty(),
        (Some(e), PdhStep::Poll) => e.poll_requests().map_values(
            |request: PdhRequest| PdhCall::Request { request },
        ),
        (Some(e), PdhStep::Drop) => match e.open_query() {
            Some(query) => seq![PdhCall::Close { query }],
            None => Seq::empty(),
        },
    }
}

impl Win32PdhEngine {
    /// The engine after some steps.
    pub open spec fn after_all(self, steps: Seq<PdhStep>) -> Option<Win32PdhEngine>
        decreases steps.len(),
    {
        if steps.len() == 0 {
            Some(self)
        } else {
            after_step(self.after_all(steps.drop_last()), steps.last())
        }
    }

    /// The system calls that some steps lead to, in their order.
    pub open spec fn all_calls(self, steps: Seq<PdhStep>) -> Seq<PdhCall>
        decreases steps.len(),
    {
        if steps.len() == 0 {
            Seq::empty()
        } else {
            self.all_calls(steps.drop_last()) + step_calls(
                self.after_all(steps.drop_last()),
                steps.last(),
            )
        }
    }
}

/// A life that ends with the first drop.
pub open spec fn ends_with_drop(steps: Seq<PdhStep>) -> bool {
    &&& steps.len() > 0
    &&& steps.last() is Drop
    &&& forall|i: int| 0 <= i < steps.len() - 1 ==> !((#[trigger] steps[i]) is Drop)
}

proof fn lemma_no_close_before_drop(engine: Win32PdhEngine, steps: Seq<PdhStep>)
    requires
        forall|i: int| 0 <= i < steps.len() ==> !((#[trigger] steps[i]) is Drop),
    ensures
        engine.after_all(steps) matches Some(e) && e.open_query() == engine.open_query()
            && e.is_valid == engine.is_valid,
        forall|i: int|
            0 <= i < engine.all_calls(steps).len() ==> (#[trigger] engine.all_calls(
                steps,
            )[i]) is Request,
    decreases steps.len(),
{
    if steps.len() > 0 {
        let rest = steps.drop_last();
        assert forall|i: int| 0 <= i < rest.len() implies !((#[trigger] rest[i]) is Drop) by {
            assert(rest[i] == steps[i]);
        }
        lemma_no_close_before_drop(engine, rest);
        assert(!(steps[steps.len() - 1] is Drop));
    }
}

/// Over the whole life of an engine, whatever handles its counters got and however
/// often it was polled, an open query is closed exactly once, by the last call
/// there is; a query that was not opened, or has no handle, is never closed.
pub proof fn open_query_is_closed_once(engine: Win32PdhEngine, steps: Seq<PdhStep>)
    requires
        ends_with_drop(steps),
    ensures
        engine.open_query() matches Some(query) ==> {
            &&& engine.all_calls(steps).len() > 0
            &&& engine.all_calls(steps).last() == (PdhCall::Close { query })
            &&& forall|i: int|
                0 <= i < engine.all_calls(steps).len() - 1 ==> (#[trigger] engine.all_calls(
                    steps,
                )[i]) is Request
        },
        engine.open_query() is None ==> forall|i: int|
            0 <= i < engine.all_calls(steps).len() ==> (#[trigger] engine.all_calls(
                steps,
            )[i]) is Request,
{
    let rest = steps.drop_last();
    assert forall|i: int| 0 <= i < rest.len() implies !((#[trigger] rest[i]) is Drop) by {
        assert(rest[i] == steps[i]);
    }
    lemma_no_close_before_drop(engine, rest);
}

/// After a drop an engine leads to no call any more: no second close, and no use
/// of a query that was closed.
pub proof fn dropped_engine_is_silent(
    engine: Win32PdhEngine,
    steps: Seq<PdhStep>,
    later: Seq<PdhStep>,
)
    requires
        ends_with_drop(steps),
    ensures
        engine.all_calls(steps + later) == engine.all_calls(steps),
        engine.after_all(steps + later) is None,
    decreases later.len(),
{
    if later.len() == 0 {
        assert(steps + later =~= steps);
    } else {
        let rest = later.drop_last();
        dropped_engine_is_silent(engine, steps, rest);
        assert((steps + later).drop_last() =~= steps + rest);
        assert((steps + later).last() == later.last());
    }
}

/// An engine without a query leads to no call at all.
pub proof fn unopened_engine_is_silent(engine: Win32PdhEngine, steps: Seq<PdhStep>)
    requires
        !engine.is_valid,
    ensures
        engine.all_calls(steps).len() == 0,
        engine.after_all(steps) matches Some(e) ==> !e.is_valid,
    decreases steps.len(),
{
    if steps.len() > 0 {
        unopened_engine_is_silent(engine, steps.drop_last());
    }
}

/// A handle taken in is the handle that the counter is read by; the query and
/// the handles of the other counters stay as they were.
pub proof fn counter_reads_by_its_handle(engine: Win32PdhEngine, counter: PdhCounter, handle: usize)
    ensures
        engine.with_handle(counter, handle).handle(counter) == handle,
        engine.with_handle(counter, handle).query == engine.query,
        engine.with_handle(counter, handle).is_valid == engine.is_valid,
        forall|other: PdhCounter|
            other != counter ==> #[trigger] engine.with_handle(counter, handle).handle(other)
                == engine.handle(other),
{
}

/// Once a handle is taken in for each counter, a sample is made by reading each of
/// them by its own.
pub proof fn polls_read_each_counter(engine: Win32PdhEngine, counter: PdhCounter, handle: usize)
    requires
        engine.is_valid,
    ensures
        engine.with_handle(counter, handle).poll_requests().contains(
            PdhRequest::Read { counter, handle, format: 0x0000_0200 },
        ),
        engine.poll_requests().len() == 6,
        engine.poll_requests()[0] == (PdhRequest::Collect { query: engine.query }),
{
    let calls = engine.with_handle(counter, handle).poll_requests();
    let i: int = match counter {
        PdhCounter::DiskRead => 1,
        PdhCounter::DiskWrite => 2,
        PdhCounter::GpuUtilization => 3,
        PdhCounter::NetReceived => 4,
        PdhCounter::NetSent => 5,
    };
    assert(calls[i] == (PdhRequest::Read { counter, handle, format: 0x0000_0200 }));
}

/// A value taken in is that of its counter; those of the others stay as they were.
pub proof fn values_go_by_their_counters(values: PdhValues, value: Double)
    ensures
        values.with_value(PdhCounter::DiskRead, value) == (PdhValues {
            disk_read: value,
            ..values
        }),
        values.with_value(PdhCounter::DiskWrite, value) == (PdhValues {
            disk_write: value,
            ..values
        }),
        values.with_value(PdhCounter::GpuUtilization, value) == (PdhValues {
            gpu_utilization: value,
            ..values
        }),
        values.with_value(PdhCounter::NetReceived, value) == (PdhValues {
            net_received: value,
            ..values
        }),
        values.with_value(PdhCounter::NetSent, value) == (PdhValues { net_sent: value, ..values }),
{
}

/// Counters may be added in any order.
pub proof fn counters_add_in_any_order(
    engine: Win32PdhEngine,
    first: PdhCounter,
    first_handle: usize,
    second: PdhCounter,
    second_handle: usize,
)
    requires
        first != second,
    ensures
        engine.with_handle(first, first_handle).with_handle(second, second_handle)
            == engine.with_handle(second, second_handle).with_handle(first, first_handle),
{
}

} // verus!
