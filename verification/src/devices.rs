//! What the host offers, for a caller that wants to put a list in front of
//! someone.
use crate::stream::ConfigRange;
use vstd::prelude::*;

verus! {

/// The rates a device is asked about, in the order they are reported.
pub open spec fn common_rates() -> Seq<u32> {
    seq![44_100u32, 48_000u32, 88_200u32, 96_000u32]
}

/// 44100, 48000, 88200 and 96000 Hz, in that order.
pub fn common_rate_list() -> (rates: Vec<u32>)
    ensures
        rates@ == common_rates(),
{
    let mut rates: Vec<u32> = Vec::new();
    rates.push(44_100);
    rates.push(48_000);
    rates.push(88_200);
    rates.push(96_000);
    assert(rates@ =~= common_rates());
    rates
}

/// A device the host offers, with what it supports in `f32`.
#[derive(Debug, Clone, PartialEq, Eq)]
pub struct DeviceInfo {
    /// The name the host gives it, and what [`crate::Config`] selects by.
    pub name: String,
    /// Whether the host calls it the default for its direction.
    pub is_default: bool,
    /// The most channels any of its `f32` configurations offers.
    pub channels: u16,
    /// Which of 44100, 48000, 88200 and 96000 Hz it supports, in that order.
    /// A device may well support rates outside that list; this is the set a
    /// caller can reasonably offer as a choice.
    pub sample_rates: Vec<u32>,
}

/// A [`DeviceInfo`] as plain values.
pub struct DeviceInfoView {
    /// The device's name.
    pub name: Seq<char>,
    /// Whether it is the host's default.
    pub is_default: bool,
    /// The most channels of its `f32` configurations.
    pub channels: u16,
    /// The common rates it runs at.
    pub sample_rates: Seq<u32>,
}

impl View for DeviceInfo {
    type V = DeviceInfoView;

    open spec fn view(&self) -> DeviceInfoView {
        DeviceInfoView {
            name: self.name@,
            is_default: self.is_default,
            channels: self.channels,
            sample_rates: self.sample_rates@,
        }
    }
}

/// Every device the host offers, by direction.
#[derive(Debug, Clone, Default)]
pub struct Devices {
    /// Devices that can be recorded from.
    pub inputs: Vec<DeviceInfo>,
    /// Devices that can be played to.
    pub outputs: Vec<DeviceInfo>,
}

/// A device as the host lists it: its name, if it could be asked for one,
/// and its configurations each way, if it could be asked for those.
#[derive(Debug, Clone)]
pub struct Listed {
    /// The name the host gives it.
    pub name: Option<String>,
    /// The configurations it records in.
    pub inputs: Option<Vec<ConfigRange>>,
    /// The configurations it plays in.
    pub outputs: Option<Vec<ConfigRange>>,
}

/// Whether any `f32` configuration of `ranges` runs at `rate`.
pub open spec fn runs_at(ranges: Seq<ConfigRange>, rate: u32) -> bool {
    exists|i: int|
        0 <= i < ranges.len() && (#[trigger] ranges[i]).f32_samples && ranges[i].min_sample_rate
            <= rate <= ranges[i].max_sample_rate
}

/// Whether any configuration of `ranges` is `f32`.
pub open spec fn has_f32(ranges: Seq<ConfigRange>) -> bool {
    exists|i: int| 0 <= i < ranges.len() && (#[trigger] ranges[i]).f32_samples
}

/// The `rates` that some `f32` configuration of `ranges` runs at, in order.
pub open spec fn supported_rates(rates: Seq<u32>, ranges: Seq<ConfigRange>) -> Seq<u32>
    decreases rates.len(),
{
    if rates.len() == 0 {
        Seq::empty()
    } else {
        let rest = supported_rates(rates.drop_last(), ranges);
        if runs_at(ranges, rates.last()) {
            rest.push(rates.last())
        } else {
            rest
        }
    }
}

/// The most channels of any `f32` configuration of `ranges`, or 0.
pub open spec fn most_channels(ranges: Seq<ConfigRange>) -> u16
    decreases ranges.len(),
{
    if ranges.len() == 0 {
        0
    } else {
        let rest = most_channels(ranges.drop_last());
        if ranges.last().f32_samples && ranges.last().channels > rest {
            ranges.last().channels
        } else {
            rest
        }
    }
}

/// What describing a device comes to: nothing when its name or its
/// configurations could not be had, or when none of them is `f32`.
pub open spec fn description(
    name: Option<Seq<char>>,
    is_default: bool,
    ranges: Option<Seq<ConfigRange>>,
) -> Option<DeviceInfoView> {
    match (name, ranges) {
        (Some(name), Some(ranges)) => if has_f32(ranges) {
            Some(
                DeviceInfoView {
                    name,
                    is_default,
                    channels: most_channels(ranges),
                    sample_rates: supported_rates(common_rates(), ranges),
                },
            )
        } else {
            None
        },
        _ => None,
    }
}

/// An optional name, as plain characters.
pub open spec fn name_view(name: Option<String>) -> Option<Seq<char>> {
    match name {
        Some(n) => Some(n@),
        None => None,
    }
}

/// Optional configurations, as plain values.
pub open spec fn ranges_view(ranges: Option<Vec<ConfigRange>>) -> Option<Seq<ConfigRange>> {
    match ranges {
        Some(r) => Some(r@),
        None => None,
    }
}

/// The descriptions of the devices in `listing` that can be described, in
/// order: their inputs when `outputs` is false, their outputs when it is
/// true. A device is the default when its name is the default's name.
pub open spec fn described(
    listing: Seq<Listed>,
    default: Option<Seq<char>>,
    outputs: bool,
) -> Seq<DeviceInfoView>
    decreases listing.len(),
{
    if listing.len() == 0 {
        Seq::empty()
    } else {
        let rest = described(listing.drop_last(), default, outputs);
        let last = listing.last();
        let ranges = if outputs {
            last.outputs
        } else {
            last.inputs
        };
        match description(name_view(last.name), name_view(last.name) == default, ranges_view(ranges)) {
            Some(info) => rest.push(info),
            None => rest,
        }
    }
}

/// Whether `a` and `b` hold the same `f32` configurations, in whatever
/// order and however often, whatever else either holds.
pub open spec fn same_f32(a: Seq<ConfigRange>, b: Seq<ConfigRange>) -> bool {
    forall|r: ConfigRange| (a.contains(r) && r.f32_samples) <==> (b.contains(r) && r.f32_samples)
}

/// The channel count `most_channels` gives is that of no `f32`
/// configuration beyond it, and is either 0 or that of one of them.
proof fn lemma_most_channels(ranges: Seq<ConfigRange>)
    ensures
        forall|i: int|
            0 <= i < ranges.len() && (#[trigger] ranges[i]).f32_samples ==> ranges[i].channels
                <= most_channels(ranges),
        most_channels(ranges) == 0 || exists|i: int|
            0 <= i < ranges.len() && (#[trigger] ranges[i]).f32_samples && ranges[i].channels
                == most_channels(ranges),
    decreases ranges.len(),
{
    if ranges.len() > 0 {
        let rest = ranges.drop_last();
        lemma_most_channels(rest);
        assert forall|i: int|
            0 <= i < ranges.len() && (#[trigger] ranges[i]).f32_samples implies ranges[i].channels
                <= most_channels(ranges) by {
            if i < rest.len() {
                assert(rest[i] == ranges[i]);
            }
        }
        if most_channels(ranges) != 0 && most_channels(ranges) == most_channels(rest) {
            let i = choose|i: int|
                0 <= i < rest.len() && (#[trigger] rest[i]).f32_samples && rest[i].channels
                    == most_channels(rest);
            assert(ranges[i] == rest[i]);
        }
    }
}

/// Two lists with the same `f32` configurations agree on every rate.
proof fn lemma_same_rates(rates: Seq<u32>, a: Seq<ConfigRange>, b: Seq<ConfigRange>)
    requires
        same_f32(a, b),
    ensures
        supported_rates(rates, a) == supported_rates(rates, b),
    decreases rates.len(),
{
    if rates.len() > 0 {
        lemma_same_rates(rates.drop_last(), a, b);
        let rate = rates.last();
        if runs_at(a, rate) {
            let i = choose|i: int|
                0 <= i < a.len() && (#[trigger] a[i]).f32_samples && a[i].min_sample_rate <= rate
                    <= a[i].max_sample_rate;
            assert(a.contains(a[i]));
            let j = choose|j: int| 0 <= j < b.len() && b[j] == a[i];
            assert(b[j].f32_samples);
        }
        if runs_at(b, rate) {
            let i = choose|i: int|
                0 <= i < b.len() && (#[trigger] b[i]).f32_samples && b[i].min_sample_rate <= rate
                    <= b[i].max_sample_rate;
            assert(b.contains(b[i]));
            let j = choose|j: int| 0 <= j < a.len() && a[j] == b[i];
            assert(a[j].f32_samples);
        }
    }
}

/// One way round of the channel count: `a`'s is no more than `b`'s.
proof fn lemma_channels_no_more(a: Seq<ConfigRange>, b: Seq<ConfigRange>)
    requires
        same_f32(a, b),
    ensures
        most_channels(a) <= most_channels(b),
{
    lemma_most_channels(a);
    lemma_most_channels(b);
    if most_channels(a) != 0 {
        let i = choose|i: int|
            0 <= i < a.len() && (#[trigger] a[i]).f32_samples && a[i].channels == most_channels(a);
        assert(a.contains(a[i]));
        let j = choose|j: int| 0 <= j < b.len() && b[j] == a[i];
        assert(b[j].f32_samples);
    }
}

/// A device's description depends on its `f32` configurations alone, as a
/// set: adding, removing or moving configurations in any other format, or
/// reordering or repeating the `f32` ones, changes nothing of it.
pub proof fn law_description_reads_f32_only(
    name: Option<Seq<char>>,
    is_default: bool,
    a: Seq<ConfigRange>,
    b: Seq<ConfigRange>,
)
    requires
        same_f32(a, b),
    ensures
        description(name, is_default, Some(a)) == description(name, is_default, Some(b)),
{
    if has_f32(a) {
        let i = choose|i: int| 0 <= i < a.len() && (#[trigger] a[i]).f32_samples;
        assert(a.contains(a[i]));
        let j = choose|j: int| 0 <= j < b.len() && b[j] == a[i];
        assert(b[j].f32_samples);
    }
    if has_f32(b) {
        let i = choose|i: int| 0 <= i < b.len() && (#[trigger] b[i]).f32_samples;
        assert(b.contains(b[i]));
        let j = choose|j: int| 0 <= j < a.len() && a[j] == b[i];
        assert(a[j].f32_samples);
    }
    lemma_same_rates(common_rates(), a, b);
    lemma_channels_no_more(a, b);
    lemma_channels_no_more(b, a);
}

/// A description's channel count is the most channels of any `f32`
/// configuration: none of them offers more, and, unless it is 0, one of them
/// offers exactly that many.
pub proof fn law_channels_are_the_most_any_f32_range_offers(ranges: Seq<ConfigRange>, i: int)
    ensures
        0 <= i < ranges.len() && ranges[i].f32_samples ==> ranges[i].channels <= most_channels(
            ranges,
        ),
        most_channels(ranges) == 0 || exists|j: int|
            0 <= j < ranges.len() && (#[trigger] ranges[j]).f32_samples && ranges[j].channels
                == most_channels(ranges),
{
    lemma_most_channels(ranges);
}

/// A description's rates are those of the asked-for `rates` that some `f32`
/// configuration runs at, each kept in its place and none added.
pub proof fn law_rates_are_those_some_f32_range_runs_at(rates: Seq<u32>, ranges: Seq<ConfigRange>)
    ensures
        supported_rates(rates, ranges) == rates.filter(
            |rate: u32|
                exists|i: int|
                    0 <= i < ranges.len() && (#[trigger] ranges[i]).f32_samples
                        && ranges[i].min_sample_rate <= rate <= ranges[i].max_sample_rate,
        ),
    decreases rates.len(),
{
    let pred = |rate: u32|
        exists|i: int|
            0 <= i < ranges.len() && (#[trigger] ranges[i]).f32_samples && ranges[i].min_sample_rate
                <= rate <= ranges[i].max_sample_rate;
    if rates.len() > 0 {
        law_rates_are_those_some_f32_range_runs_at(rates.drop_last(), ranges);
        assert(pred(rates.last()) == runs_at(ranges, rates.last()));
        reveal(Seq::filter);
        assert(rates.filter(pred) == if pred(rates.last()) {
            rates.drop_last().filter(pred).push(rates.last())
        } else {
            rates.drop_last().filter(pred)
        });
    }
}

/// The views of a list of descriptions.
pub open spec fn views(infos: Seq<DeviceInfo>) -> Seq<DeviceInfoView> {
    infos.map_values(|info: DeviceInfo| info@)
}

/// Whether the first `f32` configuration of `ranges` runs at `rate`.
fn any_runs_at(ranges: &Vec<ConfigRange>, rate: u32) -> (runs: bool)
    ensures
        runs == runs_at(ranges@, rate),
{
    let mut k: usize = 0;
    while k < ranges.len()
        invariant
            k <= ranges@.len(),
            forall|j: int|
                0 <= j < k ==> !((#[trigger] ranges@[j]).f32_samples && ranges@[j].min_sample_rate
                    <= rate <= ranges@[j].max_sample_rate),
        decreases ranges@.len() - k,
    {
        let r = ranges[k];
        if r.f32_samples && r.min_sample_rate <= rate && rate <= r.max_sample_rate {
            return true;
        }
        k = k + 1;
    }
    false
}

/// Describe one device from its name and its configurations in one
/// direction. A device that cannot be asked its name or its configurations
/// is left out rather than reported half-known, and so is one with nothing
/// in `f32`.
pub fn describe(name: Option<String>, is_default: bool, ranges: Option<&Vec<ConfigRange>>) -> (info:
    Option<DeviceInfo>)
    ensures
        match info {
            Some(i) => description(
                name_view(name),
                is_default,
                match ranges {
                    Some(r) => Some(r@),
                    None => None,
                },
            ) == Some(i@),
            None => description(
                name_view(name),
                is_default,
                match ranges {
                    Some(r) => Some(r@),
                    None => None,
                },
            ) is None,
        },
{
    let ranges = match ranges {
        Some(r) => r,
        None => return None,
    };
    let mut channels: u16 = 0;
    let mut any = false;
    let mut k: usize = 0;
    while k < ranges.len()
        invariant
            k <= ranges@.len(),
            channels == most_channels(ranges@.take(k as int)),
            any == has_f32(ranges@.take(k as int)),
        decreases ranges@.len() - k,
    {
        let r = ranges[k];
        proof {
            assert(ranges@.take(k + 1).drop_last() =~= ranges@.take(k as int));
            if has_f32(ranges@.take(k as int)) {
                let i = choose|i: int| 0 <= i < k && (#[trigger] ranges@.take(k as int)[i]).f32_samples;
                assert(ranges@.take(k + 1)[i] == ranges@.take(k as int)[i]);
            }
            if has_f32(ranges@.take(k + 1)) && !r.f32_samples {
                let i = choose|i: int| 0 <= i < k + 1 && (#[trigger] ranges@.take(k + 1)[i]).f32_samples;
                assert(ranges@.take(k as int)[i] == ranges@.take(k + 1)[i]);
            }
            if r.f32_samples {
                assert(ranges@.take(k + 1)[k as int].f32_samples);
            }
        }
        if r.f32_samples {
            any = true;
            if r.channels > channels {
                channels = r.channels;
            }
        }
        k = k + 1;
    }
    assert(ranges@.take(ranges@.len() as int) =~= ranges@);
    if !any {
        return None;
    }
    let name = match name {
        Some(n) => n,
        None => return None,
    };
    let rates = common_rate_list();
    let mut sample_rates: Vec<u32> = Vec::new();
    let mut k: usize = 0;
    while k < rates.len()
        invariant
            rates@ == common_rates(),
            k <= rates@.len(),
            sample_rates@ == supported_rates(rates@.take(k as int), ranges@),
        decreases rates@.len() - k,
    {
        proof {
            assert(rates@.take(k + 1).drop_last() =~= rates@.take(k as int));
        }
        if any_runs_at(ranges, rates[k]) {
            sample_rates.push(rates[k]);
        }
        k = k + 1;
    }
    assert(rates@.take(rates@.len() as int) =~= rates@);
    Some(DeviceInfo { name, is_default, channels, sample_rates })
}

/// Whether two optional names are the same, both absent included.
fn same_name(a: &Option<String>, b: &Option<String>) -> (same: bool)
    ensures
        same == (name_view(*a) == name_view(*b)),
{
    match (a, b) {
        (Some(x), Some(y)) => *x == *y,
        (None, None) => true,
        _ => false,
    }
}

/// Every device of `listing` that can be described, inputs and outputs,
/// with the host's defaults flagged: a device is the default for its
/// direction when its name is that default's name.
pub fn describe_all(
    default_input: &Option<String>,
    default_output: &Option<String>,
    listing: &[Listed],
) -> (all: Devices)
    ensures
        views(all.inputs@) == described(listing@, name_view(*default_input), false),
        views(all.outputs@) == described(listing@, name_view(*default_output), true),
{
    let mut all = Devices { inputs: Vec::new(), outputs: Vec::new() };
    let mut k: usize = 0;
    while k < listing.len()
        invariant
            k <= listing@.len(),
            views(all.inputs@) == described(listing@.take(k as int), name_view(*default_input), false),
            views(all.outputs@) == described(listing@.take(k as int), name_view(*default_output), true),
        decreases listing@.len() - k,
    {
        let entry = &listing[k];
        proof {
            assert(listing@.take(k + 1).drop_last() =~= listing@.take(k as int));
        }
        let ghost before_in = all.inputs@;
        let ghost before_out = all.outputs@;
        let input = describe(entry.name.clone(), same_name(&entry.name, default_input), entry.inputs.as_ref());
        match input {
            Some(info) => all.inputs.push(info),
            None => {},
        }
        proof {
            assert(views(all.inputs@) =~= described(listing@.take(k + 1), name_view(*default_input), false));
        }
        let output = describe(entry.name.clone(), same_name(&entry.name, default_output), entry.outputs.as_ref());
        match output {
            Some(info) => all.outputs.push(info),
            None => {},
        }
        proof {
            assert(views(all.outputs@) =~= described(listing@.take(k + 1), name_view(*default_output), true));
        }
        k = k + 1;
    }
    assert(listing@.take(listing@.len() as int) =~= listing@);
    all
}

} // verus!
