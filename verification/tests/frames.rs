use valverig_io::{Blocks, Fold, InputChannel, Ring};

fn bits(samples: &[f32]) -> Vec<u32> {
    samples.iter().map(|s| s.to_bits()).collect()
}

fn floats(samples: &[u32]) -> Vec<f32> {
    samples.iter().map(|b| f32::from_bits(*b)).collect()
}

/// The mean of two samples, as the live path folds a stereo input.
fn mean(a: u32, b: u32) -> u32 {
    (0.5 * (f32::from_bits(a) + f32::from_bits(b))).to_bits()
}

/// A chain that marks each output channel and each call, so the block
/// schedule and the channel mapping are both visible in the result.
fn marker(call: &mut usize) -> impl FnMut(&[u32], &mut [u32], &mut [u32]) + '_ {
    move |input, left, right| {
        *call += 1;
        let k = *call as f32;
        for (c, out) in [left, right].into_iter().enumerate() {
            for (i, o) in out.iter_mut().enumerate() {
                *o = (f32::from_bits(input[i]) + k * 1000.0 + (c as f32) * 100.0).to_bits();
            }
        }
    }
}

#[test]
fn a_mono_result_goes_to_every_channel() {
    let mut blocks = Blocks::new(4, 3, 1);
    // Two frames of a three-channel device.
    let mut data = bits(&vec![-1.0f32; 2 * 3]);
    let mut call = 0;
    blocks.run(&mut data, None, &mut marker(&mut call));
    assert_eq!(call, 1);
    assert_eq!(floats(&data), [1000.0, 1000.0, 1000.0, 1000.0, 1000.0, 1000.0]);
}

#[test]
fn a_stereo_pair_goes_left_right_and_right_again() {
    let mut blocks = Blocks::new(4, 4, 2);
    // One frame of a four-channel device.
    let mut data = bits(&vec![-1.0f32; 4]);
    let mut call = 0;
    blocks.run(&mut data, None, &mut marker(&mut call));
    assert_eq!(floats(&data), [1000.0, 1100.0, 1100.0, 1100.0]);
}

#[test]
fn an_over_delivered_callback_is_cut_into_blocks() {
    // CoreAudio's 140 frames for a stream configured at 128.
    let mut blocks = Blocks::new(128, 1, 1);
    let mut data = bits(&vec![0.0f32; 140]);
    let mut call = 0;
    blocks.run(&mut data, None, &mut marker(&mut call));
    assert_eq!(call, 2, "128 frames then 12");
    assert!(floats(&data[..128]).iter().all(|&v| v == 1000.0));
    assert!(floats(&data[128..]).iter().all(|&v| v == 2000.0));
}

#[test]
fn an_empty_callback_never_reaches_the_chain() {
    let mut blocks = Blocks::new(64, 2, 2);
    let mut call = 0;
    blocks.run(&mut [], None, &mut marker(&mut call));
    assert_eq!(call, 0);
}

#[test]
fn input_the_ring_cannot_supply_arrives_as_silence() {
    let mut ring = Ring::new(64);
    ring.push(&bits(&[7.0, 7.0, 7.0]));
    let mut blocks = Blocks::new(8, 1, 1);
    let mut data = bits(&vec![0.0f32; 5]);
    let mut call = 0;
    blocks.run(&mut data, Some(&mut ring), &mut marker(&mut call));
    assert_eq!(floats(&data), [1007.0, 1007.0, 1007.0, 1000.0, 1000.0]);
}

#[test]
fn a_non_finite_sample_leaves_as_silence() {
    let mut blocks = Blocks::new(4, 2, 2);
    let mut data = bits(&vec![-1.0f32; 2 * 2]);
    blocks.run(&mut data, None, &mut |_input: &[u32], left: &mut [u32], right: &mut [u32]| {
        left[0] = f32::NAN.to_bits();
        left[1] = 0.25f32.to_bits();
        right[0] = f32::INFINITY.to_bits();
        right[1] = f32::NEG_INFINITY.to_bits();
    });
    assert_eq!(floats(&data), [0.0, 0.0, 0.25, 0.0]);
}

#[test]
fn folding_picks_the_channel_it_was_asked_for() {
    let stereo = bits(&[1.0, 2.0, 3.0, 4.0]);
    for (channel, expected) in [
        (InputChannel::First, [1.0, 3.0]),
        (InputChannel::Second, [2.0, 4.0]),
        (InputChannel::Both, [1.5, 3.5]),
    ] {
        let mut ring = Ring::new(8);
        Fold::new(2, channel, 4).run(&stereo, &mut ring, &mean);
        let mut got = [0u32; 2];
        assert_eq!(ring.pop(&mut got), 2);
        assert_eq!(floats(&got), expected, "{channel:?}");
    }
}

#[test]
fn folding_a_mono_device_falls_back_to_its_one_channel() {
    for channel in [
        InputChannel::First,
        InputChannel::Second,
        InputChannel::Both,
    ] {
        let mut ring = Ring::new(8);
        Fold::new(1, channel, 4).run(&bits(&[5.0, 6.0]), &mut ring, &mean);
        let mut got = [0u32; 2];
        assert_eq!(ring.pop(&mut got), 2);
        assert_eq!(floats(&got), [5.0, 6.0], "{channel:?}");
    }
}

#[test]
fn folding_more_frames_than_a_block_takes_several_passes() {
    let mut ring = Ring::new(512);
    let data: Vec<f32> = (0..300).map(|i| i as f32).collect();
    Fold::new(1, InputChannel::First, 64).run(&bits(&data), &mut ring, &mean);
    let mut got = vec![0u32; 300];
    assert_eq!(ring.pop(&mut got), 300);
    assert_eq!(floats(&got), data);
}

#[test]
fn folding_drops_what_a_full_ring_has_no_room_for() {
    let mut ring = Ring::new(8);
    let data: Vec<f32> = (0..20).map(|i| i as f32).collect();
    Fold::new(1, InputChannel::First, 4).run(&bits(&data), &mut ring, &mean);
    let mut got = vec![0u32; 20];
    assert_eq!(
        ring.pop(&mut got),
        8,
        "the ring holds 8 and the rest is gone"
    );
    assert_eq!(floats(&got[..8]), data[..8]);
}

/// The whole live path, over every shape a device is likely to produce.
///
/// The chain must never be handed more than a block, must be primed with
/// exactly one block of silence, and must see the input frames in order.
/// Where the ring is big enough to hold a whole callback it must see all
/// of them. Where it is not, and a one-frame block leaves room for 32
/// samples against a 63-frame callback, the frames it cannot hold are
/// dropped rather than reordered or invented.
#[test]
fn the_live_path_delivers_the_input_frames_one_block_late() {
    for device_channels in [1usize, 2, 4] {
        for out_channels in [1usize, 2] {
            for block in [1usize, 7, 64, 128] {
                for delivered in [1usize, 63, 64, 70, 140, 256] {
                    let mut ring = Ring::new(block * 32);
                    let capacity = ring.capacity();
                    ring.push(&bits(&vec![0.0f32; block]));
                    let mut fold = Fold::new(device_channels, InputChannel::First, block);
                    let mut blocks = Blocks::new(block, device_channels, out_channels);
                    let shape = format!(
                        "dev={device_channels} out={out_channels} block={block} delivered={delivered}"
                    );

                    // Frames are numbered from one, so that a zero the
                    // chain sees can only be silence and never a sample.
                    let mut sent = Vec::new();
                    let mut seen = Vec::new();
                    for callback in 0..6 {
                        let input: Vec<f32> = (0..delivered * device_channels)
                            .map(|i| (callback * 10_000 + i + 1) as f32)
                            .collect();
                        sent.extend(input.iter().step_by(device_channels).copied());
                        fold.run(&bits(&input), &mut ring, &mean);
                        let mut data = bits(&vec![0.0f32; delivered * device_channels]);
                        blocks.run(
                            &mut data,
                            Some(&mut ring),
                            &mut |mono: &[u32], left: &mut [u32], right: &mut [u32]| {
                                assert!(mono.len() <= block, "{} frames, {shape}", mono.len());
                                seen.extend(floats(mono));
                                left.fill(0.0f32.to_bits());
                                right.fill(0.0f32.to_bits());
                            },
                        );
                    }

                    let primed = block.min(seen.len());
                    assert!(seen[..primed].iter().all(|&v| v == 0.0), "primed, {shape}");
                    let played: Vec<f32> = seen[primed..]
                        .iter()
                        .copied()
                        .filter(|&v| v != 0.0)
                        .collect();
                    let mut expected = sent.iter();
                    for sample in &played {
                        assert!(
                            expected.by_ref().any(|s| s == sample),
                            "{sample} is out of order or was never sent, {shape}"
                        );
                    }
                    if delivered + block <= capacity {
                        assert_eq!(played, sent[..played.len()], "nothing dropped, {shape}");
                        assert_eq!(seen[primed..], played[..], "no silence between, {shape}");
                    }
                }
            }
        }
    }
}

#[test]
fn the_pieces_of_a_callback_hand_over_each_frame_once_in_order() {
    let mut ring = Ring::new(64);
    ring.push(&bits(&[1.0, 2.0, 3.0, 4.0, 5.0, 6.0, 7.0]));
    let mut blocks = Blocks::new(4, 2, 2);
    let mut data = bits(&vec![-1.0f32; 10 * 2]);
    let mut lengths = Vec::new();
    let mut seen = Vec::new();
    blocks.run(
        &mut data,
        Some(&mut ring),
        &mut |mono: &[u32], left: &mut [u32], right: &mut [u32]| {
            lengths.push((mono.len(), left.len(), right.len()));
            seen.extend(floats(mono));
            left.copy_from_slice(mono);
            right.fill(0.0f32.to_bits());
        },
    );
    assert_eq!(lengths, [(4, 4, 4), (4, 4, 4), (2, 2, 2)]);
    assert_eq!(seen, [1.0, 2.0, 3.0, 4.0, 5.0, 6.0, 7.0, 0.0, 0.0, 0.0]);
    let left: Vec<f32> = floats(&data).iter().step_by(2).copied().collect();
    assert_eq!(left, seen);
    assert!(ring.is_empty());
}
