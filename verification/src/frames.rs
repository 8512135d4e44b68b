//! Between the device's interleaved buffers and the chain's mono blocks.
//!
//! A device hands the callback one interleaved buffer of whatever length it
//! feels like, and a chain wants one mono slice in and one slice per channel
//! out, of a bounded length. The two types here go from one to the other. Both
//! allocate in `new` and never again.
//!
//! Samples travel as their IEEE-754 `binary32` bit patterns, so what is
//! decided here (which sample goes where, which one is silenced) never
//! depends on floating-point arithmetic.
use crate::ring::{handed, taken, Ring};
use crate::stream::InputChannel;
use vstd::arithmetic::div_mod::{
    lemma_div_multiples_vanish, lemma_div_pos_is_pos, lemma_fundamental_div_mod,
    lemma_fundamental_div_mod_converse, lemma_mod_multiples_vanish, lemma_mod_pos_bound,
};
use vstd::prelude::*;

verus! {

/// The exponent field of a `binary32` sample.
pub const EXPONENT_BITS: u32 = 0x7f80_0000;

/// The bit pattern of a silent sample, `+0.0`.
pub const SILENCE: u32 = 0;

/// Whether the sample with these bits is a finite number: its exponent is
/// not all ones (all ones is an infinity or a NaN).
pub open spec fn is_finite_sample(bits: u32) -> bool {
    bits & EXPONENT_BITS != EXPONENT_BITS
}

/// What may reach a driver in place of a sample: the sample itself when it
/// is finite, silence when it is not.
pub open spec fn audible(bits: u32) -> u32 {
    if is_finite_sample(bits) {
        bits
    } else {
        SILENCE
    }
}

/// Whether the sample with these bits is a finite number.
pub fn sample_is_finite(bits: u32) -> (finite: bool)
    ensures
        finite == is_finite_sample(bits),
{
    bits & EXPONENT_BITS != EXPONENT_BITS
}

/// Frame `f` of an interleaved buffer that is `channels` wide.
pub open spec fn frame(data: Seq<u32>, channels: nat, f: int) -> Seq<u32> {
    data.subrange(f * channels, f * channels + channels)
}

/// Whether `out` is what folding `frame` to mono gives for `channel`: the
/// first sample, the second, or what `mean` makes of the two. A frame with
/// only one channel gives that one whatever is asked for.
pub open spec fn folds_to<F: Fn(u32, u32) -> u32>(
    frame: Seq<u32>,
    channel: InputChannel,
    mean: F,
    out: u32,
) -> bool {
    if frame.len() < 2 {
        out == frame[0]
    } else {
        match channel {
            InputChannel::First => out == frame[0],
            InputChannel::Second => out == frame[1],
            InputChannel::Both => mean.ensures((frame[0], frame[1]), out),
        }
    }
}

/// Folding frame `f` of an interleaved buffer `channels` wide takes the
/// channel it is asked for and nothing else: the frame's first sample for
/// `First`, its second for `Second`, what `mean` makes of those two for
/// `Both`, and the one sample of a one-channel frame whatever is asked for.
pub proof fn law_fold_takes_the_asked_channel<F: Fn(u32, u32) -> u32>(
    data: Seq<u32>,
    channels: nat,
    f: int,
    channel: InputChannel,
    mean: F,
    out: u32,
)
    requires
        channels >= 1,
        0 <= f,
        f * channels + channels <= data.len(),
        folds_to(frame(data, channels, f), channel, mean, out),
    ensures
        channels == 1 ==> out == data[f],
        channels >= 2 && channel is First ==> out == data[f * channels],
        channels >= 2 && channel is Second ==> out == data[f * channels + 1],
        channels >= 2 && channel is Both ==> mean.ensures(
            (data[f * channels], data[f * channels + 1]),
            out,
        ),
{
    let fr = frame(data, channels, f);
    assert(fr.len() == channels);
    assert(fr[0] == data[f * channels]);
    if channels >= 2 {
        assert(fr[1] == data[f * channels + 1]);
    } else {
        assert(f * channels == f);
    }
}

/// Which of the chain's outputs feeds device channel `channel`: a mono result
/// goes to every channel, a stereo pair to the first two, and the right of
/// it to any beyond.
pub open spec fn source_of(channel: int, out_channels: nat) -> int {
    if channel == 0 || out_channels == 1 {
        0
    } else {
        1
    }
}

/// A mono result feeds every device channel; a stereo pair feeds its left
/// to the first channel and its right to every channel after it.
pub proof fn law_mono_feeds_every_channel_and_right_the_rest(channel: int)
    ensures
        source_of(channel, 1) == 0,
        source_of(0, 2) == 0,
        channel >= 1 ==> source_of(channel, 2) == 1,
{
}

/// A sample reaches the driver as it is when its exponent field is not all
/// ones, and as `+0.0` when it is: a NaN or an infinity.
pub proof fn law_only_finite_samples_are_heard(bits: u32)
    ensures
        bits & 0x7f80_0000u32 != 0x7f80_0000u32 ==> audible(bits) == bits,
        bits & 0x7f80_0000u32 == 0x7f80_0000u32 ==> audible(bits) == 0u32,
        audible(0x7fc0_0000u32) == 0u32,
        audible(0x7f80_0000u32) == 0u32,
        audible(0xff80_0000u32) == 0u32,
{
    assert(0x7fc0_0000u32 & 0x7f80_0000u32 == 0x7f80_0000u32) by (bit_vector);
    assert(0x7f80_0000u32 & 0x7f80_0000u32 == 0x7f80_0000u32) by (bit_vector);
    assert(0xff80_0000u32 & 0x7f80_0000u32 == 0x7f80_0000u32) by (bit_vector);
}

/// Offering `a` and then `b` to a ring with `space` free slots takes what
/// offering them together would.
proof fn lemma_taken_in_two(a: Seq<u32>, b: Seq<u32>, space: int)
    requires
        space >= 0,
    ensures
        (a + b).take(taken(a.len() + b.len(), space) as int) == a.take(taken(a.len(), space) as int)
            + b.take(taken(b.len(), space - taken(a.len(), space)) as int),
{
    assert((a + b).take(taken(a.len() + b.len(), space) as int) =~= a.take(taken(a.len(), space) as int)
        + b.take(taken(b.len(), space - taken(a.len(), space)) as int));
}

/// Folds a device's input frames to the one mono channel a chain takes, and
/// hands them to the ring the output callback reads.
pub struct Fold {
    channels: usize,
    channel: InputChannel,
    mono: Vec<u32>,
}

impl Fold {
    /// How many channels the input device interleaves.
    pub closed spec fn channels(&self) -> nat {
        self.channels as nat
    }

    /// Which channel feeds the chain.
    pub closed spec fn channel(&self) -> InputChannel {
        self.channel
    }

    /// The most frames folded at a time.
    pub closed spec fn block(&self) -> nat {
        self.mono@.len()
    }

    /// The sizes it was made with are usable.
    pub closed spec fn wf(&self) -> bool {
        &&& self.channels >= 1
        &&& self.mono@.len() >= 1
        &&& self.channels * self.mono@.len() <= usize::MAX
    }

    /// `channels` is how many the input device interleaves, at least 1;
    /// `block` bounds how much is folded at a time and must be at least 1.
    pub fn new(channels: usize, channel: InputChannel, block: usize) -> (fold: Fold)
        requires
            channels >= 1,
            block >= 1,
            channels * block <= usize::MAX,
        ensures
            fold.wf(),
            fold.channels() == channels,
            fold.channel() == channel,
            fold.block() == block,
    {
        let mut mono: Vec<u32> = Vec::new();
        while mono.len() < block
            invariant
                mono@.len() <= block,
            decreases block - mono@.len(),
        {
            mono.push(SILENCE);
        }
        Fold { channels, channel, mono }
    }

    /// Fold one input callback's worth of frames into `ring`, a block at a
    /// time. Any frame the ring has no room for is dropped: the consumer is
    /// behind, and holding samples back would only turn that into latency.
    ///
    /// `mean` is how two samples are averaged for [`InputChannel::Both`].
    /// A trailing partial frame is ignored.
    pub fn run<F: Fn(u32, u32) -> u32>(&mut self, data: &[u32], ring: &mut Ring, mean: &F)
        requires
            old(self).wf(),
            old(ring).wf(),
            forall|a: u32, b: u32| mean.requires((a, b)),
        ensures
            final(self).wf(),
            final(self).channels() == old(self).channels(),
            final(self).channel() == old(self).channel(),
            final(self).block() == old(self).block(),
            final(ring).wf(),
            final(ring).cap() == old(ring).cap(),
            exists|folded: Seq<u32>|
                {
                    &&& folded.len() == data@.len() / old(self).channels()
                    &&& forall|f: int|
                        0 <= f < folded.len() ==> folds_to(
                            frame(data@, old(self).channels(), f),
                            old(self).channel(),
                            *mean,
                            #[trigger] folded[f],
                        )
                    &&& forall|f: int|
                        0 <= f < folded.len() && (old(self).channels() == 1 || !(old(
                            self,
                        ).channel() is Both)) ==> #[trigger] folded[f] == data@[f
                            * old(self).channels() + if old(self).channels() >= 2 && old(
                            self,
                        ).channel() is Second {
                            1int
                        } else {
                            0int
                        }]
                    &&& final(ring)@ == old(ring)@ + folded.take(
                        taken(folded.len(), old(ring).space()) as int,
                    )
                },
    {
        let c = self.channels;
        let block = self.mono.len();
        let step = c * block;
        assert(step >= 1) by (nonlinear_arith)
            requires
                step == c * block,
                c >= 1,
                block >= 1,
        ;
        let ghost space0 = old(ring).space();
        proof {
            old(ring).lemma_bounds();
        }
        let mut start: usize = 0;
        let ghost mut folded: Seq<u32> = Seq::empty();
        while start < data.len()
            invariant
                self.wf(),
                self.channels == c,
                self.channel == old(self).channel,
                self.mono@.len() == block,
                step == c * block,
                step >= 1,
                c >= 1,
                block >= 1,
                ring.wf(),
                ring.cap() == old(ring).cap(),
                space0 == old(ring).space(),
                space0 >= 0,
                start <= data@.len(),
                folded.len() * c <= start,
                start == folded.len() * c || (start == data@.len() && data@.len() < folded.len() * c
                    + c),
                forall|f: int|
                    0 <= f < folded.len() ==> folds_to(
                        frame(data@, c as nat, f),
                        self.channel,
                        *mean,
                        #[trigger] folded[f],
                    ),
                ring@ == old(ring)@ + folded.take(taken(folded.len(), space0) as int),
                forall|a: u32, b: u32| mean.requires((a, b)),
            decreases data@.len() - start,
        {
            let len = if data.len() - start < step {
                data.len() - start
            } else {
                step
            };
            let frames = len / c;
            assert(frames * c <= len && len < frames * c + c) by (nonlinear_arith)
                requires
                    frames == len / c,
                    c >= 1,
                    len >= 0,
            ;
            assert(frames <= block) by (nonlinear_arith)
                requires
                    frames * c <= len,
                    len <= step,
                    step == c * block,
                    c >= 1,
            ;
            let ghost first = folded.len();
            let mut f: usize = 0;
            let mut base: usize = start;
            while f < frames
                invariant
                    self.wf(),
                    self.channels == c,
                    self.channel == old(self).channel,
                    self.mono@.len() == block,
                    c >= 1,
                    frames <= block,
                    frames * c <= len,
                    start + len <= data@.len(),
                    start == first * c,
                    0 <= f <= frames,
                    base == start + f * c,
                    forall|k: int|
                        0 <= k < f ==> folds_to(
                            frame(data@, c as nat, first + k),
                            self.channel,
                            *mean,
                            #[trigger] self.mono@[k],
                        ),
                    forall|a: u32, b: u32| mean.requires((a, b)),
                decreases frames - f,
            {
                assert(base + c <= start + len) by (nonlinear_arith)
                    requires
                        base == start + f * c,
                        f < frames,
                        frames * c <= len,
                ;
                assert(base == (first + f) * c) by (nonlinear_arith)
                    requires
                        base == start + f * c,
                        start == first * c,
                ;
                let v = if c < 2 {
                    data[base]
                } else {
                    match self.channel {
                        InputChannel::First => data[base],
                        InputChannel::Second => data[base + 1],
                        InputChannel::Both => mean(data[base], data[base + 1]),
                    }
                };
                self.mono.set(f, v);
                proof {
                    let fr = frame(data@, c as nat, first + f);
                    assert(fr[0] == data@[base as int]);
                    assert(c >= 2 ==> fr[1] == data@[base + 1]);
                    assert(folds_to(fr, self.channel, *mean, self.mono@[f as int]));
                }
                assert(base + c == start + (f + 1) * c) by (nonlinear_arith)
                    requires
                        base == start + f * c,
                ;
                base = base + c;
                f = f + 1;
            }
            let piece = self.mono.as_slice().split_at(frames).0;
            let ghost ring_before = ring@;
            ring.push(piece);
            proof {
                lemma_taken_in_two(folded, piece@, space0);
                folded = folded + piece@;
                assert forall|g: int| 0 <= g < folded.len() implies folds_to(
                    frame(data@, c as nat, g),
                    self.channel,
                    *mean,
                    #[trigger] folded[g],
                ) by {
                    if g >= first {
                        assert(folded[g] == self.mono@[g - first]);
                    }
                }
            }
            start = start + len;
            proof {
                if len == step {
                    assert(start == folded.len() * c) by (nonlinear_arith)
                        requires
                            start == first * c + len,
                            folded.len() == first + frames,
                            frames == len / c,
                            len == c * block,
                            c >= 1,
                    {
                        assert(len / c == block) by (nonlinear_arith)
                            requires len == c * block, c >= 1;
                    }
                } else {
                    assert(start == data@.len());
                    assert(data@.len() < folded.len() * c + c) by (nonlinear_arith)
                        requires
                            start == first * c + len,
                            folded.len() == first + frames,
                            len < frames * c + c,
                            start == data@.len(),
                    ;
                }
                assert(folded.len() * c <= start) by (nonlinear_arith)
                    requires
                        start == first * c + len,
                        folded.len() == first + frames,
                        frames * c <= len,
                ;
            }
        }
        proof {
            lemma_fundamental_div_mod_converse(
                data@.len() as int,
                c as int,
                folded.len() as int,
                data@.len() - folded.len() * c,
            );
        }
        assert(folded.len() == data@.len() / (c as nat));
        assert forall|f: int|
            0 <= f < folded.len() && (c == 1 || !(self.channel is Both)) implies #[trigger] folded[f]
                == data@[f * c + if c >= 2 && self.channel is Second {
                1int
            } else {
                0int
            }] by {
            assert(f * c + c <= folded.len() * c) by (nonlinear_arith)
                requires
                    0 <= f < folded.len(),
                    c >= 1,
            ;
            law_fold_takes_the_asked_channel(data@, c as nat, f, self.channel, *mean, folded[f]);
        }
    }
}

/// What the chain's input holds at frame `at` of a callback fed from
/// `waiting`: the waiting samples in order, then silence.
pub open spec fn fed(waiting: Seq<u32>, at: int) -> u32 {
    if 0 <= at < waiting.len() {
        waiting[at]
    } else {
        SILENCE
    }
}

/// What a ring given as the live input has waiting, or nothing without one.
pub open spec fn waiting_in(input: Option<&mut Ring>) -> Seq<u32> {
    match input {
        Some(r) => r@,
        None => Seq::empty(),
    }
}

/// Where piece `j` of a callback cut into blocks of `block` frames starts.
pub open spec fn piece_start(block: nat, j: int) -> int {
    j * block
}

/// How long the piece starting at frame `start` is, in a callback of
/// `frames` frames cut into blocks of `block`: a block, or what is left.
pub open spec fn piece_len(frames: int, block: nat, start: int) -> int {
    if frames - start < block {
        frames - start
    } else {
        block as int
    }
}

/// The chain's input for the piece of `len` frames starting at frame
/// `start`, fed from `waiting`: the waiting samples in order, then silence.
pub open spec fn piece_input(waiting: Seq<u32>, start: int, len: int) -> Seq<u32> {
    Seq::new(len as nat, |k: int| fed(waiting, start + k))
}

/// Whether a call with input `input` and outputs `left_len` and `right_len`
/// long is the one for piece `j` of a callback of `frames` frames cut into
/// blocks of `block`, fed from `waiting`, for a chain of `out_channels`.
pub open spec fn is_piece_call(
    input: Seq<u32>,
    left_len: nat,
    right_len: nat,
    waiting: Seq<u32>,
    frames: int,
    block: nat,
    out_channels: nat,
    j: int,
) -> bool {
    let start = piece_start(block, j);
    &&& 0 <= j
    &&& start < frames
    &&& input == piece_input(waiting, start, piece_len(frames, block, start))
    &&& left_len == input.len()
    &&& right_len == (if out_channels == 2 {
        input.len()
    } else {
        0
    })
}

/// Sample `ch` of frame `k` of piece `j`, in an interleaved buffer
/// `channels` wide cut into blocks of `block` frames.
pub open spec fn piece_sample(data: Seq<u32>, channels: nat, block: nat, j: int, k: int, ch: int) -> u32 {
    sample_at(data, channels, piece_start(block, j) + k, ch)
}

/// Sample `ch` of frame `f` in an interleaved buffer `channels` wide.
pub open spec fn sample_at(data: Seq<u32>, channels: nat, f: int, ch: int) -> u32 {
    data[f * channels + ch]
}

/// Silence is a finite sample, so nothing `audible` hands over is anything
/// else.
pub proof fn lemma_audible_is_finite(bits: u32)
    ensures
        is_finite_sample(audible(bits)),
{
    assert(0u32 & 0x7f80_0000u32 != 0x7f80_0000u32) by (bit_vector);
}

/// A sample of an earlier frame lies before every sample of a later one.
proof fn lemma_earlier_frame(first: int, i: int, f: int, h: int, c: int)
    requires
        0 <= i < f,
        0 <= h < c,
        first >= 0,
    ensures
        (first + i) * c + h < (first + f) * c,
        (first + i) * c + h >= first * c,
{
    assert((first + i) * c + h < (first + f) * c) by (nonlinear_arith)
        requires
            0 <= i < f,
            0 <= h < c,
    ;
    assert((first + i) * c >= first * c) by (nonlinear_arith)
        requires
            0 <= i,
            0 <= c,
    ;
}

/// A piece that starts before the current one ends before it starts.
proof fn lemma_piece_before(block: int, j: int, pieces: int, frames: int)
    requires
        block >= 1,
        0 <= j,
        j * block < pieces * block,
    ensures
        j * block + piece_len(frames, block as nat, j * block) <= pieces * block,
{
    assert(j < pieces) by (nonlinear_arith)
        requires
            j * block < pieces * block,
            block >= 1,
    ;
    assert(j * block + block <= pieces * block) by (nonlinear_arith)
        requires
            j < pieces,
            block >= 1,
    ;
}

/// A piece that starts at or after the current one, but before the current
/// one ends, is the current one.
proof fn lemma_piece_is_next(block: int, j: int, pieces: int, frames: int)
    requires
        block >= 1,
        1 <= frames <= block,
        0 <= pieces,
        pieces * block <= j * block < pieces * block + frames,
    ensures
        j == pieces,
{
    assert(j == pieces) by (nonlinear_arith)
        requires
            pieces * block <= j * block < pieces * block + frames,
            frames <= block,
            block >= 1,
    ;
}

/// Spreading a piece leaves the frames of earlier pieces as they were.
proof fn lemma_earlier_pieces_untouched(before: Seq<u32>, after: Seq<u32>, c: int, block: int, done: int, frames: int)
    requires
        c >= 1,
        done >= 0,
        after.len() == before.len(),
        forall|k: int|
            0 <= k < before.len() && !(done * c <= k < (done + frames) * c) ==> after[k] == before[k],
    ensures
        forall|f: int, ch: int|
            0 <= f < done && 0 <= ch < c && f * c + ch < before.len() ==> #[trigger] sample_at(after, c as nat, f, ch)
                == sample_at(before, c as nat, f, ch),
{
    assert forall|f: int, ch: int|
        0 <= f < done && 0 <= ch < c && f * c + ch < before.len() implies #[trigger] sample_at(after, c as nat, f, ch)
            == sample_at(before, c as nat, f, ch) by {
        lemma_earlier_frame(0, f, done, ch, c);
    }
}

/// Popping twice hands out what one pop of both amounts would.
proof fn lemma_handed_in_two(a: nat, b: nat, waiting: nat)
    ensures
        handed(a, waiting) + handed(b, (waiting - handed(a, waiting)) as nat) == handed(a + b, waiting),
        handed(a, waiting) <= waiting,
{
}

/// The pieces tile a callback: each frame of a callback of `frames` frames
/// cut into blocks of `block` lies in exactly one piece, the one numbered by
/// how many whole blocks come before it; every piece is a whole block but a
/// last one that ends with the callback; and that piece's input holds, at the
/// frame's place in it, what the callback is fed at that frame. So the
/// pieces' inputs, taken in order, are the waiting samples in order and then
/// silence, each frame once: nothing skipped, repeated or reordered.
pub proof fn law_pieces_tile_the_callback(waiting: Seq<u32>, frames: int, block: nat, f: int)
    requires
        block >= 1,
        0 <= f < frames,
    ensures
        ({
            let j = f / (block as int);
            let start = piece_start(block, j);
            let len = piece_len(frames, block, start);
            &&& 0 <= j
            &&& start <= f < start + len
            &&& start + len <= frames
            &&& len == block || start + len == frames
            &&& piece_input(waiting, start, len)[f - start] == fed(waiting, f)
        }),
        forall|j: int|
            #![trigger piece_start(block, j)]
            0 <= j && piece_start(block, j) <= f < piece_start(block, j) + piece_len(
                frames,
                block,
                piece_start(block, j),
            ) ==> j == f / (block as int),
{
    let b = block as int;
    let q = f / b;
    lemma_fundamental_div_mod(f, b);
    lemma_mod_pos_bound(f, b);
    lemma_div_pos_is_pos(f, b);
    assert(q * b == b * q) by (nonlinear_arith);
    assert forall|j: int|
        #![trigger piece_start(block, j)]
        0 <= j && piece_start(block, j) <= f < piece_start(block, j) + piece_len(
            frames,
            block,
            piece_start(block, j),
        ) implies j == q by {
        assert(j * b <= f < j * b + b);
        assert(j == q) by (nonlinear_arith)
            requires
                j * b <= f < j * b + b,
                q * b <= f < q * b + b,
                b >= 1,
        ;
    }
}

/// Cuts a device callback into blocks the chain can run, and interleaves the
/// result back across the device's channels.
pub struct Blocks {
    block: usize,
    channels: usize,
    out_channels: usize,
    mono: Vec<u32>,
    left: Vec<u32>,
    right: Vec<u32>,
}

impl Blocks {
    /// The most frames the chain is handed at once.
    pub closed spec fn block(&self) -> nat {
        self.block as nat
    }

    /// How many channels the output device interleaves.
    pub closed spec fn channels(&self) -> nat {
        self.channels as nat
    }

    /// How many channels the chain produces.
    pub closed spec fn out_channels(&self) -> nat {
        self.out_channels as nat
    }

    /// The sizes it was made with are usable and its buffers hold a block.
    pub closed spec fn wf(&self) -> bool {
        &&& self.block >= 1
        &&& self.channels >= 1
        &&& (self.out_channels == 1 || self.out_channels == 2)
        &&& self.block * self.channels <= usize::MAX
        &&& self.mono@.len() == self.block
        &&& self.left@.len() == self.block
        &&& self.right@.len() == self.block
    }

    /// The chain's output for its channel `which` (0 left, 1 right).
    spec fn wet(&self, which: int) -> Seq<u32> {
        if which == 0 {
            self.left@
        } else {
            self.right@
        }
    }

    /// `channels` is how many the output device interleaves, at least 1;
    /// `out_channels` is how many the chain produces, 1 or 2; `block` is the
    /// most frames the chain will be handed at once, at least 1.
    pub fn new(block: usize, channels: usize, out_channels: usize) -> (blocks: Blocks)
        requires
            block >= 1,
            channels >= 1,
            out_channels == 1 || out_channels == 2,
            block * channels <= usize::MAX,
        ensures
            blocks.wf(),
            blocks.block() == block,
            blocks.channels() == channels,
            blocks.out_channels() == out_channels,
    {
        let mut mono: Vec<u32> = Vec::new();
        let mut left: Vec<u32> = Vec::new();
        let mut right: Vec<u32> = Vec::new();
        while mono.len() < block
            invariant
                mono@.len() <= block,
                left@.len() == mono@.len(),
                right@.len() == mono@.len(),
            decreases block - mono@.len(),
        {
            mono.push(SILENCE);
            left.push(SILENCE);
            right.push(SILENCE);
        }
        Blocks { block, channels, out_channels, mono, left, right }
    }

    /// The first `frames` of the chain's input become what `ring` has
    /// waiting, and silence where it runs out.
    fn take_input(&mut self, frames: usize, ring: &mut Ring)
        requires
            old(self).wf(),
            frames <= old(self).block(),
            old(ring).wf(),
        ensures
            final(self).wf(),
            final(self).block == old(self).block,
            final(self).channels == old(self).channels,
            final(self).out_channels == old(self).out_channels,
            final(self).left == old(self).left,
            final(self).right == old(self).right,
            final(ring).wf(),
            final(ring).cap() == old(ring).cap(),
            final(ring)@ == old(ring)@.skip(handed(frames as nat, old(ring)@.len()) as int),
            final(self).mono@.take(frames as int) == old(ring)@.take(
                handed(frames as nat, old(ring)@.len()) as int,
            ) + Seq::new((frames - handed(frames as nat, old(ring)@.len())) as nat, |k: int| SILENCE),
    {
        let got = {
            let dst = self.mono.as_mut_slice().split_at_mut(frames).0;
            ring.pop(dst)
        };
        let mut k: usize = got;
        while k < frames
            invariant
                self.wf(),
                self.block == old(self).block,
                self.channels == old(self).channels,
                self.out_channels == old(self).out_channels,
                self.left == old(self).left,
                self.right == old(self).right,
                got <= k <= frames,
                frames <= self.block,
                forall|j: int| 0 <= j < got ==> self.mono@[j] == old(ring)@[j],
                forall|j: int| got <= j < k ==> self.mono@[j] == SILENCE,
            decreases frames - k,
        {
            self.mono.set(k, SILENCE);
            k = k + 1;
        }
        assert(self.mono@.take(frames as int) =~= old(ring)@.take(got as int) + Seq::new(
            (frames - got) as nat,
            |k: int| SILENCE,
        ));
    }

    /// The first `frames` of the chain's input become silence.
    fn silence_input(&mut self, frames: usize)
        requires
            old(self).wf(),
            frames <= old(self).block(),
        ensures
            final(self).wf(),
            final(self).block == old(self).block,
            final(self).channels == old(self).channels,
            final(self).out_channels == old(self).out_channels,
            final(self).left == old(self).left,
            final(self).right == old(self).right,
            final(self).mono@.take(frames as int) == Seq::new(frames as nat, |k: int| SILENCE),
    {
        let mut k: usize = 0;
        while k < frames
            invariant
                self.wf(),
                self.block == old(self).block,
                self.channels == old(self).channels,
                self.out_channels == old(self).out_channels,
                self.left == old(self).left,
                self.right == old(self).right,
                k <= frames,
                frames <= self.block,
                forall|j: int| 0 <= j < k ==> self.mono@[j] == SILENCE,
            decreases frames - k,
        {
            self.mono.set(k, SILENCE);
            k = k + 1;
        }
        assert(self.mono@.take(frames as int) =~= Seq::new(frames as nat, |k: int| SILENCE));
    }

    /// Silence whatever the chain left non-finite in its first `frames`
    /// outputs, then write them into frames `first ..` of `data`: the left
    /// output (or the only one) to channel 0, and to every channel of a mono
    /// chain; the right output to every channel after the first.
    fn spread(&mut self, data: &mut [u32], first: usize, frames: usize)
        requires
            old(self).wf(),
            frames <= old(self).block(),
            (first + frames) * old(self).channels() <= old(data)@.len(),
        ensures
            final(self).wf(),
            final(self).block == old(self).block,
            final(self).channels == old(self).channels,
            final(self).out_channels == old(self).out_channels,
            final(data)@.len() == old(data)@.len(),
            forall|i: int, ch: int|
                0 <= i < frames && 0 <= ch < old(self).channels() ==> #[trigger] sample_at(
                    final(data)@,
                    old(self).channels(),
                    first + i,
                    ch,
                ) == audible(old(self).wet(source_of(ch, old(self).out_channels()))[i]),
            forall|k: int|
                0 <= k < old(data)@.len() && !(first * old(self).channels() <= k < (first + frames)
                    * old(self).channels()) ==> final(data)@[k] == old(data)@[k],
    {
        let c = self.channels;
        let mut i: usize = 0;
        while i < frames
            invariant
                self.wf(),
                self.block == old(self).block,
                self.channels == c,
                self.out_channels == old(self).out_channels,
                self.mono == old(self).mono,
                i <= frames,
                frames <= self.block,
                forall|j: int| 0 <= j < i ==> self.left@[j] == audible(old(self).left@[j]),
                forall|j: int| i <= j < self.block ==> self.left@[j] == old(self).left@[j],
                self.out_channels == 2 ==> forall|j: int|
                    0 <= j < i ==> self.right@[j] == audible(old(self).right@[j]),
                self.out_channels == 2 ==> forall|j: int|
                    i <= j < self.block ==> self.right@[j] == old(self).right@[j],
                self.out_channels == 1 ==> self.right == old(self).right,
            decreases frames - i,
        {
            if !sample_is_finite(self.left[i]) {
                self.left.set(i, SILENCE);
            }
            if self.out_channels == 2 && !sample_is_finite(self.right[i]) {
                self.right.set(i, SILENCE);
            }
            i = i + 1;
        }
        let ghost sane = *self;
        let n = data.len();
        let mut f: usize = 0;
        while f < frames
            invariant
                *self == sane,
                self.wf(),
                self.channels == c,
                c >= 1,
                f <= frames,
                frames <= self.block,
                (first + frames) * c <= data@.len(),
                data@.len() == old(data)@.len(),
                n == data@.len(),
                forall|j: int| 0 <= j < frames ==> self.left@[j] == audible(old(self).left@[j]),
                self.out_channels == 2 ==> forall|j: int|
                    0 <= j < frames ==> self.right@[j] == audible(old(self).right@[j]),
                forall|i: int, ch: int|
                    0 <= i < f && 0 <= ch < c ==> #[trigger] sample_at(data@, c as nat, first + i, ch)
                        == audible(old(self).wet(source_of(ch, self.out_channels as nat))[i]),
                forall|k: int|
                    0 <= k < data@.len() && !(first * c <= k < (first + f) * c) ==> data@[k] == old(
                        data,
                    )@[k],
            decreases frames - f,
        {
            assert((first + f) * c + c <= (first + frames) * c) by (nonlinear_arith)
                requires
                    f < frames,
                    c >= 1,
            ;
            assert((first + f) * c <= (first + frames) * c && first + f <= (first + f) * c)
                by (nonlinear_arith)
                requires
                    f < frames,
                    c >= 1,
                    first >= 0,
            ;
            let base = (first + f) * c;
            let mut ch: usize = 0;
            while ch < c
                invariant
                    *self == sane,
                    self.wf(),
                    self.channels == c,
                    c >= 1,
                    ch <= c,
                    f < frames,
                    frames <= self.block,
                    base == (first + f) * c,
                    base + c <= data@.len(),
                    data@.len() == old(data)@.len(),
                    n == data@.len(),
                    forall|j: int| 0 <= j < frames ==> self.left@[j] == audible(old(self).left@[j]),
                    self.out_channels == 2 ==> forall|j: int|
                        0 <= j < frames ==> self.right@[j] == audible(old(self).right@[j]),
                    forall|i: int, h: int|
                        0 <= i < f && 0 <= h < c ==> #[trigger] sample_at(data@, c as nat, first + i, h)
                            == audible(old(self).wet(source_of(h, self.out_channels as nat))[i]),
                    forall|h: int|
                        0 <= h < ch ==> data@[base + h] == audible(
                            old(self).wet(source_of(h, self.out_channels as nat))[f as int],
                        ),
                    forall|k: int|
                        0 <= k < data@.len() && !(first * c <= k < (first + f) * c) && !(base <= k
                            < base + ch) ==> data@[k] == old(data)@[k],
                decreases c - ch,
            {
                let v = if ch == 0 || self.out_channels == 1 {
                    self.left[f]
                } else {
                    self.right[f]
                };
                let ghost before = data@;
                data[base + ch] = v;
                proof {
                    assert forall|i: int, h: int| 0 <= i < f && 0 <= h < c implies #[trigger] sample_at(
                        data@,
                        c as nat,
                        first + i,
                        h,
                    ) == audible(old(self).wet(source_of(h, self.out_channels as nat))[i]) by {
                        lemma_earlier_frame(first as int, i, f as int, h, c as int);
                        assert(sample_at(data@, c as nat, first + i, h) == sample_at(
                            before,
                            c as nat,
                            first + i,
                            h,
                        ));
                    }
                }
                ch = ch + 1;
            }
            proof {
                assert forall|i: int, h: int|
                    0 <= i < f + 1 && 0 <= h < c implies #[trigger] sample_at(
                    data@,
                    c as nat,
                    first + i,
                    h,
                ) == audible(old(self).wet(source_of(h, self.out_channels as nat))[i]) by {
                    if i == f {
                        assert(sample_at(data@, c as nat, first + i, h) == data@[base + h]);
                    } else {
                        lemma_earlier_frame(first as int, i, f as int, h, c as int);
                    }
                }
                assert forall|k: int|
                    0 <= k < data@.len() && !(first * c <= k < (first + f + 1) * c) implies data@[k]
                    == old(data)@[k] by {
                    assert((first + f + 1) * c == base + c && first * c <= base) by (nonlinear_arith)
                        requires
                            base == (first + f) * c,
                            f >= 0,
                            c >= 0,
                    ;
                }
            }
            f = f + 1;
        }
    }

    /// Fill one device callback's `data`, interleaved and `channels` wide.
    ///
    /// The device decides how much it asks for and it is not always what it
    /// was configured with, so `data` is cut into pieces of `block` frames,
    /// the last one shorter where the callback is not a whole number of
    /// blocks, and `process` sees one piece at a time, in order: the mono
    /// input, then the left output and the right one, all of the piece's
    /// length, except that the right output is empty for a mono chain.
    /// `input` is the live signal; frames the ring cannot supply arrive as
    /// silence, and with no ring the chain is fed silence throughout.
    ///
    /// A chain that returns a NaN or an infinity has a poisoned feedback
    /// structure inside it and will not recover on its own. Silence is the
    /// only honest thing to hand a driver, so that is what non-finite samples
    /// become.
    ///
    /// The first `requires` on `process` lists the only calls this makes of
    /// it: one for each piece of the callback, with that piece's input, so an
    /// empty callback never reaches the chain. The second is what every Rust
    /// closure does: it cannot change a slice's length.
    ///
    /// Each piece's frames are what the call for that piece left in its
    /// outputs, frame for frame (the left output to channel 0 and to every
    /// channel of a mono chain, the right one to the channels after the
    /// first), silenced where they are not finite.
    #[verifier::spinoff_prover]
    pub fn run<F: FnMut(&[u32], &mut [u32], &mut [u32])>(
        &mut self,
        data: &mut [u32],
        mut input: Option<&mut Ring>,
        process: &mut F,
    )
        requires
            old(self).wf(),
            old(data)@.len() % old(self).channels() == 0,
            input matches Some(r) ==> r.wf(),
            forall|i: &[u32], l: &mut [u32], r: &mut [u32]|
                (exists|j: int|
                    #[trigger] is_piece_call(
                        i@,
                        l@.len(),
                        r@.len(),
                        waiting_in(input),
                        (old(data)@.len() / old(self).channels()) as int,
                        old(self).block(),
                        old(self).out_channels(),
                        j,
                    )) ==> call_requires(*old(process), (i, l, r)),
            forall|i: &[u32], l: &mut [u32], r: &mut [u32]|
                call_ensures(*old(process), (i, l, r), ()) ==> final(l)@.len() == l@.len()
                    && final(r)@.len() == r@.len(),
        ensures
            final(self).wf(),
            final(self).block() == old(self).block(),
            final(self).channels() == old(self).channels(),
            final(self).out_channels() == old(self).out_channels(),
            final(data)@.len() == old(data)@.len(),
            forall|k: int| 0 <= k < final(data)@.len() ==> is_finite_sample(#[trigger] final(data)@[k]),
            forall|j: int|
                #![trigger piece_start(old(self).block(), j)]
                0 <= j && piece_start(old(self).block(), j) < old(data)@.len() / old(self).channels()
                    ==> exists|i: &[u32], l: &mut [u32], r: &mut [u32]|
                    #![trigger call_ensures(*old(process), (i, l, r), ())]
                    {
                        &&& call_ensures(*old(process), (i, l, r), ())
                        &&& is_piece_call(
                            i@,
                            l@.len(),
                            r@.len(),
                            waiting_in(input),
                            (old(data)@.len() / old(self).channels()) as int,
                            old(self).block(),
                            old(self).out_channels(),
                            j,
                        )
                        &&& forall|k: int, ch: int|
                            0 <= k < i@.len() && 0 <= ch < old(self).channels() ==> #[trigger] piece_sample(
                                final(data)@,
                                old(self).channels(),
                                old(self).block(),
                                j,
                                k,
                                ch,
                            ) == audible(
                                if source_of(ch, old(self).out_channels()) == 0 {
                                    final(l)@[k]
                                } else {
                                    final(r)@[k]
                                },
                            )
                    },
            input matches Some(r) ==> {
                &&& final(r).wf()
                &&& final(r).cap() == r.cap()
                &&& final(r)@ == r@.skip(
                    handed(old(data)@.len() / old(self).channels(), r@.len()) as int,
                )
            },
    {
        let c = self.channels;
        let block = self.block;
        let step = block * c;
        let n = data.len();
        let ghost frames_total: int = (old(data)@.len() / old(self).channels()) as int;
        let ghost out = old(self).out_channels();
        assert(block as nat == old(self).block());
        let ghost initial = input;
        let ghost w0 = waiting_in(input);
        let ghost chain = *process;
        proof {
            if input is Some {
                input->0.lemma_bounds();
            }
            vstd::arithmetic::div_mod::lemma_fundamental_div_mod(n as int, c as int);
            assert(n == frames_total * c) by (nonlinear_arith)
                requires
                    n == c * (n as int / c as int) + n as int % c as int,
                    n as int % c as int == 0,
                    frames_total == n as int / c as int,
            ;
            assert(step % c == 0 && step >= c) by (nonlinear_arith)
                requires
                    step == block * c,
                    c >= 1,
                    block >= 1,
            {
                vstd::arithmetic::div_mod::lemma_mod_multiples_basic(block as int, c as int);
            }
        }
        let mut start: usize = 0;
        let ghost mut done: nat = 0;
        let ghost mut pieces: nat = 0;
        while start < n
            invariant
                self.wf(),
                self.block == block,
                self.channels == c,
                self.out_channels == out,
                c >= 1,
                block >= 1,
                step == block * c,
                step % c == 0,
                step >= c,
                n == data@.len(),
                data@.len() == old(data)@.len(),
                n % c == 0,
                frames_total == n as int / c as int,
                n == frames_total * c,
                start <= n,
                start == done * c,
                done <= frames_total,
                start < n ==> done == pieces * block,
                *process == chain,
                chain == *old(process),
                input is Some <==> initial is Some,
                w0 == waiting_in(initial),
                initial matches Some(r0) ==> r0@.len() <= usize::MAX,
                input matches Some(r) ==> {
                    &&& r.wf()
                    &&& r.cap() == initial->0.cap()
                    &&& r@ == initial->0@.skip(handed(done, initial->0@.len()) as int)
                    &&& *final(r) == *final(initial->0)
                },
                forall|k: int| 0 <= k < done * c ==> is_finite_sample(#[trigger] data@[k]),
                forall|j: int|
                    #![trigger piece_start(block as nat, j)]
                    0 <= j && piece_start(block as nat, j) < done ==> exists|
                        i: &[u32],
                        l: &mut [u32],
                        r: &mut [u32],
                    |
                        #![trigger call_ensures(chain, (i, l, r), ())]
                        {
                            &&& call_ensures(chain, (i, l, r), ())
                            &&& is_piece_call(
                                i@,
                                l@.len(),
                                r@.len(),
                                w0,
                                frames_total,
                                block as nat,
                                out,
                                j,
                            )
                            &&& forall|k: int, ch: int|
                                0 <= k < i@.len() && 0 <= ch < c ==> #[trigger] piece_sample(
                                    data@,
                                    c as nat,
                                    block as nat,
                                    j,
                                    k,
                                    ch,
                                ) == audible(
                                    if source_of(ch, out) == 0 {
                                        final(l)@[k]
                                    } else {
                                        final(r)@[k]
                                    },
                                )
                        },
                forall|i: &[u32], l: &mut [u32], r: &mut [u32]|
                    (exists|j: int|
                        #[trigger] is_piece_call(
                            i@,
                            l@.len(),
                            r@.len(),
                            w0,
                            frames_total,
                            block as nat,
                            out,
                            j,
                        )) ==> call_requires(chain, (i, l, r)),
                forall|i: &[u32], l: &mut [u32], r: &mut [u32]|
                    call_ensures(chain, (i, l, r), ()) ==> final(l)@.len() == l@.len()
                        && final(r)@.len() == r@.len(),
            decreases n - start,
        {
            let len = if n - start < step {
                n - start
            } else {
                step
            };
            let frames = len / c;
            proof {
                lemma_whole_frames(n as int, start as int, len as int, step as int, c as int, done as int);
                assert(1 <= frames <= block) by (nonlinear_arith)
                    requires
                        frames * c == len,
                        len <= step,
                        step == block * c,
                        len >= 1,
                        c >= 1,
                ;
                assert(n - start == (frames_total - done) * c) by (nonlinear_arith)
                    requires
                        start == done * c,
                        n == frames_total * c,
                ;
                if len == step {
                    assert(frames == block && frames_total - done >= block) by (nonlinear_arith)
                        requires
                            frames * c == len,
                            len == step,
                            step == block * c,
                            n - start >= step,
                            n - start == (frames_total - done) * c,
                            c >= 1,
                    ;
                } else {
                    assert(frames == frames_total - done && frames_total - done < block) by (nonlinear_arith)
                        requires
                            frames * c == len,
                            len == n - start,
                            len < step,
                            step == block * c,
                            n - start == (frames_total - done) * c,
                            c >= 1,
                    ;
                }
                assert(frames == piece_len(frames_total, block as nat, done as int));
                assert(len < step ==> start + len == n);
                assert(len == step ==> frames == block) by (nonlinear_arith)
                    requires
                        frames * c == len,
                        step == block * c,
                        c >= 1,
                ;
            }
            match input {
                Some(ref mut r) => {
                    let ghost before = r@;
                    self.take_input(frames, r);
                    proof {
                        lemma_handed_in_two(done, frames as nat, initial->0@.len());
                        assert(r@ =~= initial->0@.skip(handed(done + frames as nat, initial->0@.len()) as int));
                        let w = initial->0@;
                        let h = handed(frames as nat, before.len());
                        assert forall|k: int| 0 <= k < frames implies self.mono@[k] == fed(w, done + k) by {
                            assert(self.mono@[k] == self.mono@.take(frames as int)[k]);
                            if k < h {
                                assert(before[k] == w[handed(done, w.len()) + k]);
                            }
                        }
                    }
                },
                None => {
                    self.silence_input(frames);
                    proof {
                        assert forall|k: int| 0 <= k < frames implies self.mono@[k] == fed(
                            waiting_in(initial),
                            done + k,
                        ) by {
                            assert(self.mono@[k] == self.mono@.take(frames as int)[k]);
                        }
                    }
                },
            }
            proof {
                assert(self.mono@.subrange(0, frames as int) =~= piece_input(w0, done as int, frames as int));
                assert(piece_start(block as nat, pieces as int) == done);
            }
            let ghost mut call_in: &[u32];
            {
                let right_len = if self.out_channels == 2 {
                    frames
                } else {
                    0
                };
                let mono = self.mono.as_slice().split_at(frames).0;
                let left = self.left.as_mut_slice().split_at_mut(frames).0;
                let right = self.right.as_mut_slice().split_at_mut(right_len).0;
                proof {
                    call_in = mono;
                    assert(is_piece_call(
                        mono@,
                        left@.len(),
                        right@.len(),
                        w0,
                        frames_total,
                        block as nat,
                        out,
                        pieces as int,
                    ));
                }
                process(mono, left, right);
            }
            let first = start / c;
            let ghost before = data@;
            let ghost fed = *self;
            self.spread(data, first, frames);
            proof {
                lemma_earlier_pieces_untouched(
                    before,
                    data@,
                    c as int,
                    block as int,
                    done as int,
                    frames as int,
                );
                assert forall|k: int| 0 <= k < (done + frames) * c implies is_finite_sample(
                    #[trigger] data@[k],
                ) by {
                    if k < done * c {
                        assert(data@[k] == before[k]);
                    } else {
                        assert((done + frames) * c == done * c + frames * c) by (nonlinear_arith);
                        lemma_frame_of_index(k - done * c, c as int, frames as int);
                        let i = (k - done * c) / (c as int);
                        let ch = (k - done * c) % (c as int);
                        assert(k == (first + i) * c + ch) by (nonlinear_arith)
                            requires
                                i * c + ch == k - done * c,
                                first == done,
                        ;
                        assert(sample_at(data@, c as nat, first + i, ch) == data@[k]);
                        lemma_audible_is_finite(fed.wet(source_of(ch, out))[i]);
                    }
                }
                assert forall|j: int|
                    #![trigger piece_start(block as nat, j)]
                    0 <= j && piece_start(block as nat, j) < done + frames implies exists|
                    i: &[u32],
                    l: &mut [u32],
                    r: &mut [u32],
                |
                    #![trigger call_ensures(chain, (i, l, r), ())]
                    {
                        &&& call_ensures(chain, (i, l, r), ())
                        &&& is_piece_call(i@, l@.len(), r@.len(), w0, frames_total, block as nat, out, j)
                        &&& forall|k: int, ch: int|
                            0 <= k < i@.len() && 0 <= ch < c ==> #[trigger] piece_sample(
                                data@,
                                c as nat,
                                block as nat,
                                j,
                                k,
                                ch,
                            ) == audible(
                                if source_of(ch, out) == 0 {
                                    final(l)@[k]
                                } else {
                                    final(r)@[k]
                                },
                            )
                    } by {
                    if piece_start(block as nat, j) < done {
                        lemma_piece_before(block as int, j, pieces as int, frames_total);
                        assert forall|k: int, ch: int|
                            0 <= k < piece_len(frames_total, block as nat, piece_start(block as nat, j))
                                && 0 <= ch < c implies #[trigger] piece_sample(
                                data@,
                                c as nat,
                                block as nat,
                                j,
                                k,
                                ch,
                            ) == piece_sample(before, c as nat, block as nat, j, k, ch) by {
                            let f = piece_start(block as nat, j) + k;
                            lemma_earlier_frame(0, f, done as int, ch, c as int);
                            assert(sample_at(data@, c as nat, f, ch) == sample_at(before, c as nat, f, ch));
                        }
                        assert(forall|k: int, ch: int|
                            0 <= k < piece_len(frames_total, block as nat, piece_start(block as nat, j))
                                && 0 <= ch < c ==> #[trigger] piece_sample(
                                data@,
                                c as nat,
                                block as nat,
                                j,
                                k,
                                ch,
                            ) == piece_sample(before, c as nat, block as nat, j, k, ch));
                    } else {
                        lemma_piece_is_next(block as int, j, pieces as int, frames as int);
                        let rl: int = if out == 2 { frames as int } else { 0 };
                        assert(exists|i: &[u32], l: &mut [u32], r: &mut [u32]|
                            #![trigger call_ensures(chain, (i, l, r), ())]
                            call_ensures(chain, (i, l, r), ()) && i == call_in && l@.len() == frames
                            && r@.len() == rl
                            && (forall|k: int| 0 <= k < frames ==> final(l)@[k] == fed.left@[k])
                            && (forall|k: int| 0 <= k < rl ==> final(r)@[k] == fed.right@[k]));
                        assert(call_in@ == piece_input(w0, done as int, frames as int));
                        assert(is_piece_call(call_in@, frames as nat, rl as nat, w0, frames_total, block as nat, out, j));
                        assert forall|k: int, ch: int| 0 <= k < frames && 0 <= ch < c implies #[trigger] piece_sample(
                            data@,
                            c as nat,
                            block as nat,
                            j,
                            k,
                            ch,
                        ) == audible(
                            if source_of(ch, out) == 0 {
                                fed.left@[k]
                            } else {
                                fed.right@[k]
                            },
                        ) by {
                            assert(piece_sample(data@, c as nat, block as nat, j, k, ch) == sample_at(data@, c as nat, first + k, ch));
                        }
                    }
                }
            }
            start = start + len;
            proof {
                if start < n {
                    assert(frames == block);
                    assert((pieces + 1) * block == pieces * block + block) by (nonlinear_arith);
                }
                done = done + frames as nat;
                pieces = pieces + 1;
            }
        }
        proof {
            lemma_whole_frames(n as int, start as int, 0, step as int, c as int, done as int);
        }
    }
}

/// A piece cut from a buffer of whole frames is whole frames.
proof fn lemma_whole_frames(n: int, start: int, len: int, step: int, c: int, done: int)
    requires
        c >= 1,
        n % c == 0,
        step % c == 0,
        start == done * c,
        0 <= len <= n - start,
        len == n - start || len == step,
        done >= 0,
    ensures
        len % c == 0,
        (len / c) * c == len,
        start / c == done,
        (done + len / c) * c == start + len,
        start + len == n ==> n / c == done + len / c,
{
    lemma_mod_multiples_vanish(-done, n, c);
    assert(c * (-done) + n == n - start) by (nonlinear_arith)
        requires
            start == done * c,
    ;
    lemma_fundamental_div_mod(len, c);
    assert((len / c) * c == c * (len / c)) by (nonlinear_arith);
    lemma_div_multiples_vanish(done, c);
    assert(c * done == start) by (nonlinear_arith)
        requires
            start == done * c,
    ;
    assert((done + len / c) * c == done * c + (len / c) * c) by (nonlinear_arith);
    if start + len == n {
        lemma_div_multiples_vanish(done + len / c, c);
        assert(c * (done + len / c) == (done + len / c) * c) by (nonlinear_arith);
    }
}

/// Index `k` of a buffer of `done` frames is sample `k % c` of frame `k / c`.
proof fn lemma_frame_of_index(k: int, c: int, done: int)
    requires
        c >= 1,
        0 <= k < done * c,
    ensures
        0 <= k / c < done,
        0 <= k % c < c,
        (k / c) * c + k % c == k,
{
    lemma_fundamental_div_mod(k, c);
    lemma_mod_pos_bound(k, c);
    lemma_div_pos_is_pos(k, c);
    assert((k / c) * c == c * (k / c)) by (nonlinear_arith);
    assert(k / c < done) by (nonlinear_arith)
        requires
            (k / c) * c <= k,
            k < done * c,
            c >= 1,
    ;
}

} // verus!