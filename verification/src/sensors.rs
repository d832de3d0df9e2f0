//! Thermal sensors: which of them measure the processor or the graphics card,
//! and what they measure.
use crate::number::Single;
use vstd::prelude::*;

verus! {

/// What a sensor measures.
#[derive(Clone, Copy, PartialEq, Eq, Structural, Debug)]
pub enum SensorKind {
    Cpu,
    Gpu,
    Other,
}

/// A sensor, under the label that the system gives it.
#[derive(Debug)]
pub struct SensorReading {
    pub label: String,
    pub temperature: Single,
}

/// The temperatures found, in degrees Celsius.
#[derive(Clone, Copy, PartialEq, Eq, Structural, Debug)]
pub struct SensorTemperatures {
    pub cpu: Option<Single>,
    pub gpu: Option<Single>,
}

/// `text` in lower case, as `str::to_lowercase` has it.
pub uninterp spec fn lowercase(text: Seq<char>) -> Seq<char>;

/// Calls `str::to_lowercase`: the result depends on the text alone.
#[verifier::external_body]
fn to_lowercase(text: &str) -> (r: String)
    ensures
        r@ == lowercase(text@),
{
    text.to_lowercase()
}

/// Whether `part` stands in `text`, at `at`.
pub open spec fn stands_at(text: Seq<char>, part: Seq<char>, at: int) -> bool {
    0 <= at && at + part.len() <= text.len() && text.subrange(at, at + part.len()) == part
}

/// Whether `part` stands somewhere in `text`.
pub open spec fn holds_text(text: Seq<char>, part: Seq<char>) -> bool {
    exists|at: int| stands_at(text, part, at)
}

/// A text holds another one exactly where it is the other one, between some text
/// before it and some text behind it.
pub proof fn text_is_held_where_it_stands(text: Seq<char>, part: Seq<char>)
    ensures
        holds_text(text, part) <==> exists|at: int|
            0 <= at && at + part.len() <= text.len() && #[trigger] text.subrange(
                at,
                at + part.len(),
            ) == part,
        holds_text(text, part) ==> exists|before: Seq<char>, behind: Seq<char>|
            text == #[trigger] (before + part + behind),
{
    if holds_text(text, part) {
        let at = choose|at: int| stands_at(text, part, at);
        let before = text.take(at);
        let behind = text.skip(at + part.len());
        assert(text.subrange(at, at + part.len()) == part);
        assert(text =~= before + part + behind) by {
            assert forall|i: int| 0 <= i < text.len() implies text[i] == (before + part
                + behind)[i] by {
                if at <= i < at + part.len() {
                    assert(text.subrange(at, at + part.len())[i - at] == text[i]);
                }
            }
        }
    }
    if exists|at: int|
        0 <= at && at + part.len() <= text.len() && #[trigger] text.subrange(at, at + part.len())
            == part {
        let at = choose|at: int|
            0 <= at && at + part.len() <= text.len() && #[trigger] text.subrange(
                at,
                at + part.len(),
            ) == part;
        assert(stands_at(text, part, at));
    }
}

/// A text holds every text that it is put together with.
pub proof fn joined_texts_are_held(before: Seq<char>, part: Seq<char>, behind: Seq<char>)
    ensures
        holds_text(before + part + behind, part),
{
    let text = before + part + behind;
    let at = before.len() as int;
    assert(text.subrange(at, at + part.len()) =~= part);
    assert(stands_at(text, part, at));
}

fn chars_of(text: &str) -> (r: Vec<char>)
    ensures
        r@ == text@,
{
    let mut r: Vec<char> = Vec::new();
    for c in chars: text.chars()
        invariant
            chars.seq() == text@,
            r@ == text@.take(chars.index() as int),
    {
        r.push(c);
        assert(text@.take(chars.index() as int).push(c) == text@.take(chars.index() + 1));
    }
    r
}

fn found_at(text: &Vec<char>, part: &Vec<char>, at: usize) -> (r: bool)
    requires
        at + part@.len() <= text@.len(),
    ensures
        r == stands_at(text@, part@, at as int),
{
    let end: usize = text.len();
    let mut i: usize = 0;
    while i < part.len()
        invariant
            i <= part@.len(),
            at + part@.len() <= text@.len() == end,
            forall|j: int| 0 <= j < i ==> text@[at + j] == part@[j],
        decreases part@.len() - i,
    {
        if text[at + i] != part[i] {
            assert(text@.subrange(at as int, at + part@.len())[i as int] != part@[i as int]);
            return false;
        }
        i = i + 1;
    }
    assert(text@.subrange(at as int, at + part@.len()) == part@);
    true
}

/// Whether `part` stands somewhere in `text`.
pub fn contains_text(text: &str, part: &str) -> (r: bool)
    ensures
        r == holds_text(text@, part@),
        r == exists|at: int|
            0 <= at && at + part@.len() <= text@.len() && #[trigger] text@.subrange(
                at,
                at + part@.len(),
            ) == part@,
{
    proof {
        text_is_held_where_it_stands(text@, part@);
    }
    let whole = chars_of(text);
    let wanted = chars_of(part);
    if wanted.len() > whole.len() {
        return false;
    }
    let last: usize = whole.len() - wanted.len();
    let mut at: usize = 0;
    while at <= last
        invariant
            whole@ == text@,
            wanted@ == part@,
            last + wanted@.len() == whole@.len(),
            at <= last + 1,
            forall|k: int| 0 <= k < at ==> !stands_at(text@, part@, k),
        decreases last + 1 - at,
    {
        if found_at(&whole, &wanted, at) {
            return true;
        }
        if at == last {
            assert(!holds_text(text@, part@));
            proof {
                text_is_held_where_it_stands(text@, part@);
            }
            return false;
        }
        at = at + 1;
    }
    false
}

/// What a sensor measures, going by its label in lower case. The words for the
/// processor come first.
pub open spec fn sensor_kind(label: Seq<char>) -> SensorKind {
    if holds_text(label, "cpu"@) || holds_text(label, "package"@) || holds_text(label, "core"@)
        || holds_text(label, "acpi"@) {
        SensorKind::Cpu
    } else if holds_text(label, "gpu"@) || holds_text(label, "nvidia"@) || holds_text(label, "amd"@)
        || holds_text(label, "radeon"@) {
        SensorKind::Gpu
    } else {
        SensorKind::Other
    }
}

/// A sensor measures the processor exactly where its label holds one of four words,
/// and the graphics card exactly where it holds one of four others and none of the
/// first.
pub proof fn sensors_go_by_their_words(label: Seq<char>)
    ensures
        sensor_kind(label) == SensorKind::Cpu <==> holds_text(label, "cpu"@) || holds_text(
            label,
            "package"@,
        ) || holds_text(label, "core"@) || holds_text(label, "acpi"@),
        sensor_kind(label) == SensorKind::Gpu <==> sensor_kind(label) != SensorKind::Cpu && (
        holds_text(label, "gpu"@) || holds_text(label, "nvidia"@) || holds_text(label, "amd"@)
            || holds_text(label, "radeon"@)),
{
}

/// What a sensor measures, going by its label in lower case.
pub fn classify_lowercase(label: &str) -> (r: SensorKind)
    ensures
        r == sensor_kind(label@),
        r == SensorKind::Cpu <==> holds_text(label@, "cpu"@) || holds_text(label@, "package"@)
            || holds_text(label@, "core"@) || holds_text(label@, "acpi"@),
        r == SensorKind::Gpu <==> r != SensorKind::Cpu && (holds_text(label@, "gpu"@)
            || holds_text(label@, "nvidia"@) || holds_text(label@, "amd"@) || holds_text(
            label@,
            "radeon"@,
        )),
{
    if contains_text(label, "cpu") || contains_text(label, "package") || contains_text(
        label,
        "core",
    ) || contains_text(label, "acpi") {
        SensorKind::Cpu
    } else if contains_text(label, "gpu") || contains_text(label, "nvidia") || contains_text(
        label,
        "amd",
    ) || contains_text(label, "radeon") {
        SensorKind::Gpu
    } else {
        SensorKind::Other
    }
}

/// What a sensor measures, going by its label in any case.
pub fn classify(label: &str) -> (r: SensorKind)
    ensures
        r == sensor_kind(lowercase(label@)),
{
    let lowered = to_lowercase(label);
    classify_lowercase(lowered.as_str())
}

/// The first temperature above zero of a sensor of the given kind.
pub open spec fn first_warm(
    readings: Seq<(SensorKind, Single)>,
    kind: SensorKind,
) -> Option<Single>
    decreases readings.len(),
{
    if readings.len() == 0 {
        None
    } else {
        match first_warm(readings.drop_last(), kind) {
            Some(t) => Some(t),
            None => if readings.last().0 == kind && readings.last().1.above_whole(0) {
                Some(readings.last().1)
            } else {
                None
            },
        }
    }
}

/// Picks, for the processor and for the graphics card, the first temperature
/// above zero.
pub fn pick_temperatures(readings: &Vec<(SensorKind, Single)>) -> (r: SensorTemperatures)
    ensures
        r.cpu == first_warm(readings@, SensorKind::Cpu),
        r.gpu == first_warm(readings@, SensorKind::Gpu),
{
    let mut cpu: Option<Single> = None;
    let mut gpu: Option<Single> = None;
    let mut i: usize = 0;
    while i < readings.len()
        invariant
            i <= readings@.len(),
            cpu == first_warm(readings@.take(i as int), SensorKind::Cpu),
            gpu == first_warm(readings@.take(i as int), SensorKind::Gpu),
        decreases readings@.len() - i,
    {
        assert(readings@.take(i + 1).drop_last() == readings@.take(i as int));
        let (kind, temperature) = readings[i];
        match kind {
            SensorKind::Cpu => {
                if cpu.is_none() && temperature.is_above_whole(0) {
                    cpu = Some(temperature);
                }
            },
            SensorKind::Gpu => {
                if gpu.is_none() && temperature.is_above_whole(0) {
                    gpu = Some(temperature);
                }
            },
            SensorKind::Other => {},
        }
        i = i + 1;
    }
    assert(readings@.take(i as int) == readings@);
    SensorTemperatures { cpu, gpu }
}

/// A sensor's kind and temperature.
pub open spec fn classified(reading: SensorReading) -> (SensorKind, Single) {
    (sensor_kind(lowercase(reading.label@)), reading.temperature)
}

/// Goes through the sensors in the order of the list, and picks the first
/// temperature above zero of the processor and of the graphics card.
pub fn scan_sensors(readings: &Vec<SensorReading>) -> (r: SensorTemperatures)
    ensures
        r.cpu == first_warm(
            readings@.map_values(|s: SensorReading| classified(s)),
            SensorKind::Cpu,
        ),
        r.gpu == first_warm(
            readings@.map_values(|s: SensorReading| classified(s)),
            SensorKind::Gpu,
        ),
        is_first_warm(readings@, SensorKind::Cpu, r.cpu),
        is_first_warm(readings@, SensorKind::Gpu, r.gpu),
{
    let mut kinds: Vec<(SensorKind, Single)> = Vec::new();
    let ghost all = readings@.map_values(|s: SensorReading| classified(s));
    let mut i: usize = 0;
    while i < readings.len()
        invariant
            i <= readings@.len(),
            all == readings@.map_values(|s: SensorReading| classified(s)),
            kinds@ == all.take(i as int),
        decreases readings@.len() - i,
    {
        kinds.push((classify(readings[i].label.as_str()), readings[i].temperature));
        i = i + 1;
        assert(kinds@ =~= all.take(i as int));
    }
    assert(all.take(i as int) == all);
    proof {
        scan_finds_the_first_sensor(readings@, SensorKind::Cpu);
        scan_finds_the_first_sensor(readings@, SensorKind::Gpu);
    }
    pick_temperatures(&kinds)
}

/// Whether a sensor is of the kind, going by its label in lower case, and reports a
/// temperature above zero.
pub open spec fn reports(sensor: SensorReading, kind: SensorKind) -> bool {
    &&& sensor_kind(lowercase(sensor.label@)) == kind
    &&& !sensor.temperature.nan()
    &&& sensor.temperature.value() > 0
}

/// Whether this is the temperature of the first sensor of the kind that reports one,
/// or nothing where none does.
pub open spec fn is_first_warm(
    sensors: Seq<SensorReading>,
    kind: SensorKind,
    temperature: Option<Single>,
) -> bool {
    match temperature {
        None => forall|i: int| 0 <= i < sensors.len() ==> !reports(#[trigger] sensors[i], kind),
        Some(t) => exists|i: int|
            #![trigger sensors[i]]
            {
                &&& 0 <= i < sensors.len()
                &&& reports(sensors[i], kind)
                &&& sensors[i].temperature == t
                &&& forall|j: int| 0 <= j < i ==> !reports(#[trigger] sensors[j], kind)
            },
    }
}

/// What is found among the sensors is the temperature of the first one of the kind
/// that reports one.
pub proof fn scan_finds_the_first_sensor(sensors: Seq<SensorReading>, kind: SensorKind)
    ensures
        is_first_warm(
            sensors,
            kind,
            first_warm(sensors.map_values(|s: SensorReading| classified(s)), kind),
        ),
{
    let readings = sensors.map_values(|s: SensorReading| classified(s));
    first_warm_is_the_first(readings, kind);
    assert forall|i: int| 0 <= i < sensors.len() implies reports(#[trigger] sensors[i], kind) == (
    readings[i].0 == kind && readings[i].1.above_whole(0)) by {
        assert(readings[i] == classified(sensors[i]));
    }
    match first_warm(readings, kind) {
        Some(t) => {
            let i = choose|i: int|
                #![trigger readings[i]]
                {
                    &&& 0 <= i < readings.len()
                    &&& readings[i] == (kind, t)
                    &&& t.above_whole(0)
                    &&& forall|j: int|
                        0 <= j < i ==> !((#[trigger] readings[j]).0 == kind
                            && readings[j].1.above_whole(0))
                };
            assert(reports(sensors[i], kind));
        },
        None => {},
    }
}

/// The temperature that a display settles towards: what a sensor measured, or
/// an estimate where none did.
pub fn target_temperature(measured: Option<Single>, estimate: Single) -> (r: Single)
    ensures
        r == (match measured {
            Some(t) => t,
            None => estimate,
        }),
{
    match measured {
        Some(t) => t,
        None => estimate,
    }
}

/// A temperature is picked exactly where some sensor of the kind is above zero,
/// and it is that of the first one.
pub proof fn first_warm_is_the_first(readings: Seq<(SensorKind, Single)>, kind: SensorKind)
    ensures
        first_warm(readings, kind) is None <==> forall|i: int|
            0 <= i < readings.len() ==> !((#[trigger] readings[i]).0 == kind
                && readings[i].1.above_whole(0)),
        first_warm(readings, kind) matches Some(t) ==> exists|i: int|
            #![trigger readings[i]]
            {
                &&& 0 <= i < readings.len()
                &&& readings[i] == (kind, t)
                &&& t.above_whole(0)
                &&& forall|j: int|
                    0 <= j < i ==> !((#[trigger] readings[j]).0 == kind
                        && readings[j].1.above_whole(0))
            },
    decreases readings.len(),
{
    if readings.len() > 0 {
        let rest = readings.drop_last();
        first_warm_is_the_first(rest, kind);
        assert forall|i: int| 0 <= i < rest.len() implies rest[i] == #[trigger] readings[i] by {}
        match first_warm(rest, kind) {
            Some(t) => {
                let i = choose|i: int|
                    #![trigger rest[i]]
                    {
                        &&& 0 <= i < rest.len()
                        &&& rest[i] == (kind, t)
                        &&& t.above_whole(0)
                        &&& forall|j: int|
                            0 <= j < i ==> !((#[trigger] rest[j]).0 == kind
                                && rest[j].1.above_whole(0))
                    };
                assert(readings[i] == (kind, t));
            },
            None => {
                assert(readings[readings.len() - 1] == readings.last());
                assert forall|j: int| 0 <= j < rest.len() implies !((
                #[trigger] readings[j]).0 == kind && readings[j].1.above_whole(0)) by {
                    assert(rest[j] == readings[j]);
                }
            },
        }
    }
}

} // verus!
