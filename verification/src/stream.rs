//! What to open, and the checks and choices made before anything is opened.
use crate::error::{Direction, Error};
use crate::frames::{fed, SILENCE};
use crate::ring::{handed, rounded_capacity, taken, Ring};
use vstd::prelude::*;

verus! {

/// The largest block accepted, in frames.
///
/// Well above any block a driver is configured with in practice, and low
/// enough that a nonsense number in a settings file cannot ask for an
/// allocation that takes the process down.
pub const MAX_BLOCK: usize = 8192;

/// How many blocks of live input the ring between the two callbacks holds.
///
/// Enough that an input callback arriving late does not empty it, few enough
/// that it cannot quietly become latency.
pub const RING_BLOCKS: usize = 32;

/// Which of an input device's channels feeds the chain.
///
/// A device with only one channel gives that one whatever is asked for.
#[derive(Debug, Clone, Copy, PartialEq, Eq, Structural, Default)]
pub enum InputChannel {
    /// The first channel.
    #[default]
    First,
    /// The second channel.
    Second,
    /// The mean of the first two.
    Both,
}

/// What to open.
///
/// There is deliberately no `Default`: a sample rate and a block size are the
/// two things a caller must have decided, and a default for either would be a
/// guess dressed up as a setting.
#[derive(Debug, Clone)]
pub struct Config {
    /// The rate the chain runs at, in Hz. Nothing here resamples, so this is
    /// the rate the chain itself needs, and the device must offer it.
    pub sample_rate: u32,
    /// The most frames the chain will be handed at once, between 1 and
    /// [`MAX_BLOCK`].
    pub block: usize,
    /// Also open an input device and feed the chain from it, one `block`
    /// behind. Without this the chain is handed silence.
    pub live_input: bool,
    /// How many channels the chain produces, 1 or 2.
    pub output_channels: usize,
    /// The output device by name, or the host's default.
    pub output_device: Option<String>,
    /// The input device by name, or the host's default. Ignored unless
    /// `live_input` is set.
    pub input_device: Option<String>,
    /// Which input channel feeds the chain.
    pub input_channel: InputChannel,
}

impl Config {
    /// Whether the block size is one this accepts.
    pub open spec fn block_ok(&self) -> bool {
        1 <= self.block <= MAX_BLOCK
    }

    /// Whether the chain's channel count is one this accepts.
    pub open spec fn output_channels_ok(&self) -> bool {
        self.output_channels == 1 || self.output_channels == 2
    }

    /// Refuse a configuration that no device could honour, before any host
    /// is touched: the block size first, then the channel count, then the
    /// rate.
    pub fn check(&self) -> (r: Result<(), Error>)
        ensures
            r matches Ok(_) <==> self.block_ok() && self.output_channels_ok() && self.sample_rate != 0,
            r matches Ok(_) <==> 1 <= self.block <= MAX_BLOCK && (self.output_channels == 1
                || self.output_channels == 2) && self.sample_rate != 0,
            !self.block_ok() ==> r == Err::<(), Error>(Error::Block(self.block)),
            self.block_ok() && !self.output_channels_ok() ==> r == Err::<(), Error>(
                Error::OutputChannels(self.output_channels),
            ),
            self.block_ok() && self.output_channels_ok() && self.sample_rate == 0 ==> r == Err::<
                (),
                Error,
            >(Error::SampleRate),
    {
        if self.block == 0 || self.block > MAX_BLOCK {
            return Err(Error::Block(self.block));
        }
        if !(self.output_channels == 1 || self.output_channels == 2) {
            return Err(Error::OutputChannels(self.output_channels));
        }
        if self.sample_rate == 0 {
            return Err(Error::SampleRate);
        }
        Ok(())
    }
}

/// The buffer sizes a device configuration allows, in frames.
#[derive(Debug, Clone, Copy, PartialEq, Eq, Structural)]
pub enum BufferRange {
    /// Any size from `min` to `max`.
    Range {
        /// The smallest.
        min: u32,
        /// The largest.
        max: u32,
    },
    /// The host cannot say before a stream starts.
    Unknown,
}

/// One range of configurations a device supports, as the host reports it.
#[derive(Debug, Clone, Copy, PartialEq, Eq, Structural)]
pub struct ConfigRange {
    /// Whether its samples are `f32`, the only format a chain is fed.
    pub f32_samples: bool,
    /// How many channels it interleaves.
    pub channels: u16,
    /// The lowest sample rate it runs at, in Hz.
    pub min_sample_rate: u32,
    /// The highest sample rate it runs at, in Hz.
    pub max_sample_rate: u32,
    /// The buffer sizes it allows.
    pub buffer_size: BufferRange,
}

/// How big a buffer to ask the device for.
#[derive(Debug, Clone, Copy, PartialEq, Eq, Structural)]
pub enum BufferSize {
    /// Whatever the device prefers.
    Default,
    /// Exactly this many frames.
    Fixed(u32),
}

/// The configuration a stream is opened with.
#[derive(Debug, Clone, Copy, PartialEq, Eq, Structural)]
pub struct StreamSetup {
    /// How many channels the device interleaves.
    pub channels: u16,
    /// The sample rate, in Hz.
    pub sample_rate: u32,
    /// The buffer size asked for.
    pub buffer_size: BufferSize,
}

/// Whether `range` runs `f32` samples at `rate`.
pub open spec fn offers(range: ConfigRange, rate: u32) -> bool {
    &&& range.f32_samples
    &&& range.min_sample_rate <= rate <= range.max_sample_rate
}

/// Whether `i` is the first of `ranges` that runs `f32` at `rate`.
pub open spec fn first_offering(ranges: Seq<ConfigRange>, rate: u32, i: int) -> bool {
    &&& 0 <= i < ranges.len()
    &&& offers(ranges[i], rate)
    &&& forall|j: int| 0 <= j < i ==> !offers(#[trigger] ranges[j], rate)
}

/// The stream opened from `range` at `rate`: a fixed block where the range
/// allows one, the device's own choice where it does not.
pub open spec fn setup_from(range: ConfigRange, rate: u32, block: usize) -> StreamSetup {
    StreamSetup {
        channels: range.channels,
        sample_rate: rate,
        buffer_size: match range.buffer_size {
            BufferRange::Range { min, max } => if min <= block && block <= max {
                BufferSize::Fixed(block as u32)
            } else {
                BufferSize::Default
            },
            BufferRange::Unknown => BufferSize::Default,
        },
    }
}

/// An `f32` configuration at `rate`, taken from the first of `ranges` that
/// offers one, with a fixed block where the device allows one and the
/// device's own choice where it does not.
pub fn pick(ranges: &[ConfigRange], direction: Direction, rate: u32, block: usize) -> (r: Result<
    StreamSetup,
    Error,
>)
    ensures
        (forall|i: int| 0 <= i < ranges@.len() ==> !offers(#[trigger] ranges@[i], rate)) <==> r
            == Err::<StreamSetup, Error>(Error::NoConfig(direction, rate)),
        forall|i: int|
            first_offering(ranges@, rate, i) ==> {
                &&& ranges@[i].channels == 0 ==> r == Err::<StreamSetup, Error>(
                    Error::NoChannels(direction),
                )
                &&& ranges@[i].channels != 0 ==> r == Ok::<StreamSetup, Error>(
                    setup_from(ranges@[i], rate, block),
                )
            },
        r matches Ok(s) ==> exists|i: int|
            #![trigger ranges@[i]]
            {
                &&& 0 <= i < ranges@.len()
                &&& ranges@[i].f32_samples
                &&& ranges@[i].min_sample_rate <= rate <= ranges@[i].max_sample_rate
                &&& forall|j: int|
                    0 <= j < i ==> !((#[trigger] ranges@[j]).f32_samples && ranges@[j].min_sample_rate
                        <= rate <= ranges@[j].max_sample_rate)
                &&& s.channels == ranges@[i].channels
                &&& s.channels != 0
                &&& s.sample_rate == rate
                &&& s.buffer_size == (match ranges@[i].buffer_size {
                    BufferRange::Range { min, max } => if min <= block && block <= max {
                        BufferSize::Fixed(block as u32)
                    } else {
                        BufferSize::Default
                    },
                    BufferRange::Unknown => BufferSize::Default,
                })
            },
{
    let mut k: usize = 0;
    while k < ranges.len()
        invariant
            k <= ranges@.len(),
            forall|j: int| 0 <= j < k ==> !offers(#[trigger] ranges@[j], rate),
        decreases ranges@.len() - k,
    {
        let range = ranges[k];
        if range.f32_samples && range.min_sample_rate <= rate && rate <= range.max_sample_rate {
            if range.channels == 0 {
                return Err(Error::NoChannels(direction));
            }
            let buffer_size = match range.buffer_size {
                BufferRange::Range { min, max } => {
                    if (min as usize) <= block && block <= (max as usize) {
                        BufferSize::Fixed(block as u32)
                    } else {
                        BufferSize::Default
                    }
                },
                BufferRange::Unknown => BufferSize::Default,
            };
            let setup = StreamSetup { channels: range.channels, sample_rate: rate, buffer_size };
            assert(first_offering(ranges@, rate, k as int));
            assert(ranges@[k as int] == range);
            assert forall|i: int| first_offering(ranges@, rate, i) implies i == k by {
                if i < k {
                } else if i > k {
                    assert(!offers(ranges@[k as int], rate));
                }
            }
            return Ok(setup);
        }
        k = k + 1;
    }
    Err(Error::NoConfig(direction, rate))
}

/// A device the host lists: its name, if it could be asked for one, and
/// whether it offers any configuration in the direction being searched.
#[derive(Debug, Clone)]
pub struct Candidate {
    /// The name the host gives it.
    pub name: Option<String>,
    /// Whether it lists at least one configuration in that direction.
    pub has_configs: bool,
}

/// The device a search settles on.
#[derive(Debug, Clone, Copy, PartialEq, Eq, Structural)]
pub enum Choice {
    /// The host's default for the direction.
    Default,
    /// The listed device at this position.
    Listed(usize),
}

/// Whether candidate `c` is a device named `wanted` that works in the
/// direction being searched.
pub open spec fn answers(c: Candidate, wanted: Seq<char>) -> bool {
    &&& c.has_configs
    &&& c.name matches Some(n) && n@ == wanted
}

/// The device of that name that works in that direction, or the default.
///
/// A name can belong to two devices, the same box recording and playing, so
/// the direction is part of the search and not only of the error message.
/// With no name, the host's default is taken where there is one.
pub fn find(name: Option<&String>, has_default: bool, devices: &[Candidate], direction: Direction) -> (r:
    Result<Choice, Error>)
    ensures
        name is None ==> (has_default ==> r == Ok::<Choice, Error>(Choice::Default)) && (!has_default
            ==> r == Err::<Choice, Error>(Error::NoDevice(direction))),
        name matches Some(wanted) ==> {
            &&& r matches Ok(Choice::Listed(i)) ==> {
                &&& i < devices@.len()
                &&& answers(devices@[i as int], wanted@)
                &&& forall|j: int| 0 <= j < i ==> !answers(#[trigger] devices@[j], wanted@)
            }
            &&& (forall|j: int| 0 <= j < devices@.len() ==> !answers(#[trigger] devices@[j], wanted@))
                ==> (r matches Err(Error::NoSuchDevice(d, n)) && d == direction && n@ == wanted@)
            &&& (r matches Ok(Choice::Listed(_))) || (r matches Err(Error::NoSuchDevice(_, _)))
            &&& r is Err ==> forall|j: int|
                0 <= j < devices@.len() ==> !answers(#[trigger] devices@[j], wanted@)
            &&& r matches Ok(Choice::Listed(i)) ==> {
                &&& devices@[i as int].has_configs
                &&& devices@[i as int].name matches Some(n) && n@ == wanted@
            }
            &&& r is Err ==> forall|j: int|
                0 <= j < devices@.len() && (#[trigger] devices@[j]).has_configs ==> !(
                devices@[j].name matches Some(n) && n@ == wanted@)
        },
{
    let wanted = match name {
        None => {
            return if has_default {
                Ok(Choice::Default)
            } else {
                Err(Error::NoDevice(direction))
            };
        },
        Some(wanted) => wanted,
    };
    let mut k: usize = 0;
    while k < devices.len()
        invariant
            k <= devices@.len(),
            name == Some(wanted),
            forall|j: int| 0 <= j < k ==> !answers(#[trigger] devices@[j], wanted@),
        decreases devices@.len() - k,
    {
        let candidate = &devices[k];
        if candidate.has_configs {
            match &candidate.name {
                Some(n) => {
                    if *n == *wanted {
                        return Ok(Choice::Listed(k));
                    }
                },
                None => {},
            }
        }
        k = k + 1;
    }
    Err(Error::NoSuchDevice(direction, wanted.clone()))
}

/// The ring between the input callback and the output callback for a chain
/// run `block` frames at a time: [`RING_BLOCKS`] blocks of room, and one
/// block of silence already waiting, so the output callback never waits on
/// the input callback that runs just after it. That block is the whole of
/// the live path's latency.
pub fn primed_ring(block: usize) -> (ring: Ring)
    requires
        1 <= block <= MAX_BLOCK,
    ensures
        ring.wf(),
        ring.cap() == rounded_capacity((block * RING_BLOCKS) as nat),
        ring@ == Seq::new(block as nat, |k: int| SILENCE),
{
    let mut ring = Ring::new(block * RING_BLOCKS);
    let mut silence: Vec<u32> = Vec::new();
    while silence.len() < block
        invariant
            silence@.len() <= block,
            forall|k: int| 0 <= k < silence@.len() ==> silence@[k] == SILENCE,
        decreases block - silence@.len(),
    {
        silence.push(SILENCE);
    }
    proof {
        ring.lemma_bounds();
        crate::ring::lemma_rounded_capacity((block * RING_BLOCKS) as nat);
    }
    ring.push(silence.as_slice());
    assert(ring@ =~= Seq::new(block as nat, |k: int| SILENCE));
    ring
}

/// Whether what has come out of a ring so far (`out`), followed by what is
/// waiting in it, is what it was primed with followed by everything pushes
/// took (`taken_in`), in order.
pub open spec fn in_order(out: Seq<u32>, waiting: Seq<u32>, primed: Seq<u32>, taken_in: Seq<u32>) -> bool {
    out + waiting == primed + taken_in
}

/// A freshly primed ring is in order: nothing out, nothing taken, the
/// priming waiting.
pub proof fn law_primed_in_order(primed: Seq<u32>)
    ensures
        in_order(Seq::empty(), primed, primed, Seq::empty()),
{
    assert(Seq::<u32>::empty() + primed =~= primed + Seq::<u32>::empty());
}

/// A push keeps a ring in order: what it takes of `src` (as much as the
/// `space` holds) joins both the waiting samples and the samples taken.
pub proof fn law_push_keeps_order(
    out: Seq<u32>,
    waiting: Seq<u32>,
    primed: Seq<u32>,
    taken_in: Seq<u32>,
    src: Seq<u32>,
    space: int,
)
    requires
        in_order(out, waiting, primed, taken_in),
    ensures
        in_order(
            out,
            waiting + src.take(taken(src.len(), space) as int),
            primed,
            taken_in + src.take(taken(src.len(), space) as int),
        ),
{
    let t = src.take(taken(src.len(), space) as int);
    assert(out + (waiting + t) =~= (out + waiting) + t);
    assert(primed + (taken_in + t) =~= (primed + taken_in) + t);
}

/// A pop keeps a ring in order: the oldest waiting samples, as many as the
/// `room` takes, move from waiting to out.
pub proof fn law_pop_keeps_order(
    out: Seq<u32>,
    waiting: Seq<u32>,
    primed: Seq<u32>,
    taken_in: Seq<u32>,
    room: nat,
)
    requires
        in_order(out, waiting, primed, taken_in),
    ensures
        in_order(
            out + waiting.take(handed(room, waiting.len()) as int),
            waiting.skip(handed(room, waiting.len()) as int),
            primed,
            taken_in,
        ),
{
    let h = handed(room, waiting.len()) as int;
    assert((out + waiting.take(h)) + waiting.skip(h) =~= out + waiting);
}

/// Live input is exactly one block late: out of a ring primed with a block
/// of silence and kept in order, the first `block` samples are silence and
/// every one after is the input taken, in order, `block` places on.
pub proof fn law_one_block_late(block: nat, out: Seq<u32>, waiting: Seq<u32>, taken_in: Seq<u32>)
    requires
        in_order(out, waiting, Seq::new(block, |k: int| SILENCE), taken_in),
    ensures
        forall|k: int|
            0 <= k < out.len() ==> #[trigger] out[k] == (if k < block {
                SILENCE
            } else {
                taken_in[k - block]
            }),
{
    let primed = Seq::new(block, |k: int| SILENCE);
    assert forall|k: int| 0 <= k < out.len() implies #[trigger] out[k] == (if k < block {
        SILENCE
    } else {
        taken_in[k - block]
    }) by {
        assert(out[k] == (out + waiting)[k]);
        assert((out + waiting).len() == primed.len() + taken_in.len());
        assert((primed + taken_in)[k] == (out + waiting)[k]);
        if k < block {
            assert((primed + taken_in)[k] == primed[k]);
        } else {
            assert((primed + taken_in)[k] == taken_in[k - block]);
        }
    }
}

/// Live input reaches the chain exactly one block late, in order, and with
/// nothing invented: in a callback fed from a ring that is in order after a
/// priming of `block` silent samples, frame `f` gets, where the ring can
/// supply it, the sample pushed `block` places earlier in the whole stream
/// (silence for the first `block` frames of all), and silence where it
/// cannot.
pub proof fn law_live_input_one_block_late(
    block: nat,
    out: Seq<u32>,
    waiting: Seq<u32>,
    taken_in: Seq<u32>,
    f: int,
)
    requires
        in_order(out, waiting, Seq::new(block, |k: int| SILENCE), taken_in),
        0 <= f,
    ensures
        fed(waiting, f) == (if f < waiting.len() {
            if out.len() + f < block {
                SILENCE
            } else {
                taken_in[out.len() + f - block]
            }
        } else {
            SILENCE
        }),
{
    let primed = Seq::new(block, |k: int| SILENCE);
    if f < waiting.len() {
        let n = out.len() + f;
        assert((out + waiting)[n] == waiting[f]);
        assert((out + waiting).len() == primed.len() + taken_in.len());
        if n < block {
            assert((primed + taken_in)[n] == primed[n]);
        } else {
            assert((primed + taken_in)[n] == taken_in[n - block]);
        }
    }
}

/// Every block from 1 to [`MAX_BLOCK`] frames is accepted, whatever its
/// shape, and no other; a chain of one or two channels is accepted, and no
/// other.
pub proof fn law_check_accepts_every_block_in_range(config: Config)
    ensures
        config.block_ok() <==> 1 <= config.block && config.block <= MAX_BLOCK,
        config.output_channels_ok() <==> config.output_channels == 1 || config.output_channels
            == 2,
{
}

/// The configuration `pick` settles on is the first `f32` one that runs at
/// the rate asked for, and there is only one such.
pub proof fn law_pick_takes_the_first_f32_range_at_the_rate(
    ranges: Seq<ConfigRange>,
    rate: u32,
    i: int,
    k: int,
)
    requires
        first_offering(ranges, rate, i),
    ensures
        0 <= i < ranges.len(),
        ranges[i].f32_samples,
        ranges[i].min_sample_rate <= rate <= ranges[i].max_sample_rate,
        0 <= k < i ==> !(ranges[k].f32_samples && ranges[k].min_sample_rate <= rate
            <= ranges[k].max_sample_rate),
        first_offering(ranges, rate, k) ==> k == i,
{
    if first_offering(ranges, rate, k) && k != i {
        if k < i {
            assert(!offers(ranges[k], rate));
        } else {
            assert(!offers(ranges[i], rate));
        }
    }
    if 0 <= k < i {
        assert(!offers(ranges[k], rate));
    }
}

/// A stream opened from a range has exactly that range's channel count, so
/// every channel the device has is fed, runs at the rate asked for, and asks
/// for the block as its buffer exactly when the range's buffer sizes include
/// it.
pub proof fn law_setup_keeps_the_range(range: ConfigRange, rate: u32, block: usize)
    ensures
        setup_from(range, rate, block).channels == range.channels,
        setup_from(range, rate, block).sample_rate == rate,
        setup_from(range, rate, block).buffer_size is Fixed <==> (range.buffer_size matches BufferRange::Range { min, max } && min <= block && block <= max),
        setup_from(range, rate, block).buffer_size matches BufferSize::Fixed(n) ==> n == block,
{
}

/// A device taken by name carries exactly that name, not one that merely
/// begins or ends with it, and works in the direction searched; any such
/// device answers.
pub proof fn law_a_device_is_found_by_its_whole_name(c: Candidate, wanted: Seq<char>)
    ensures
        answers(c, wanted) <==> c.has_configs && (c.name matches Some(n) && n@ == wanted),
        answers(c, wanted) ==> c.name.unwrap()@.len() == wanted.len(),
{
}

} // verus!
