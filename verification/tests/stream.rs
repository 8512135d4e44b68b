use valverig_io::{
    find, pick, primed_ring, BufferRange, BufferSize, Candidate, Choice, Config, ConfigRange,
    Direction, Error, InputChannel, StreamSetup, MAX_BLOCK,
};

fn config() -> Config {
    Config {
        sample_rate: 48_000,
        block: 128,
        live_input: false,
        output_channels: 2,
        output_device: None,
        input_device: None,
        input_channel: InputChannel::First,
    }
}

fn range(f32_samples: bool, channels: u16, min: u32, max: u32, buffer_size: BufferRange) -> ConfigRange {
    ConfigRange {
        f32_samples,
        channels,
        min_sample_rate: min,
        max_sample_rate: max,
        buffer_size,
    }
}

#[test]
fn a_nonsense_configuration_is_refused_before_a_device_is_touched() {
    for (config, expected, text) in [
        (
            Config { block: 0, ..config() },
            Error::Block(0),
            "a block of 0 frames, which is not between 1 and 8192",
        ),
        (
            Config { block: MAX_BLOCK + 1, ..config() },
            Error::Block(8193),
            "a block of 8193 frames, which is not between 1 and 8192",
        ),
        (
            Config { output_channels: 0, ..config() },
            Error::OutputChannels(0),
            "0 output channels, which is not 1 or 2",
        ),
        (
            Config { output_channels: 3, ..config() },
            Error::OutputChannels(3),
            "3 output channels, which is not 1 or 2",
        ),
        (Config { sample_rate: 0, ..config() }, Error::SampleRate, "a sample rate of zero"),
    ] {
        let error = config.check().err().expect("refused");
        assert_eq!(error.message(), text, "{config:?}");
        assert_eq!(error, expected, "{config:?}");
        assert!(matches!(
            error,
            Error::Block(_) | Error::OutputChannels(_) | Error::SampleRate
        ));
    }
}

#[test]
fn the_block_is_checked_before_the_channels_and_the_channels_before_the_rate() {
    let all_wrong = Config { block: 0, output_channels: 5, sample_rate: 0, ..config() };
    assert_eq!(all_wrong.check(), Err(Error::Block(0)));
    let two_wrong = Config { output_channels: 5, sample_rate: 0, ..config() };
    assert_eq!(two_wrong.check(), Err(Error::OutputChannels(5)));
}

#[test]
fn a_sensible_configuration_passes() {
    assert_eq!(config().check(), Ok(()));
    assert_eq!(Config { block: 1, output_channels: 1, ..config() }.check(), Ok(()));
    assert_eq!(Config { block: MAX_BLOCK, ..config() }.check(), Ok(()));
}

#[test]
fn pick_takes_the_first_f32_range_at_the_rate() {
    let ranges = [
        range(false, 2, 8_000, 96_000, BufferRange::Unknown),
        range(true, 1, 8_000, 44_100, BufferRange::Unknown),
        range(true, 2, 8_000, 96_000, BufferRange::Range { min: 16, max: 4096 }),
        range(true, 4, 8_000, 96_000, BufferRange::Range { min: 16, max: 4096 }),
    ];
    assert_eq!(
        pick(&ranges, Direction::Output, 48_000, 128),
        Ok(StreamSetup { channels: 2, sample_rate: 48_000, buffer_size: BufferSize::Fixed(128) })
    );
}

#[test]
fn pick_leaves_the_buffer_to_the_device_when_the_block_does_not_fit() {
    let ranges = [range(true, 2, 44_100, 48_000, BufferRange::Range { min: 256, max: 4096 })];
    assert_eq!(
        pick(&ranges, Direction::Input, 44_100, 128),
        Ok(StreamSetup { channels: 2, sample_rate: 44_100, buffer_size: BufferSize::Default })
    );
    let ranges = [range(true, 1, 44_100, 48_000, BufferRange::Unknown)];
    assert_eq!(
        pick(&ranges, Direction::Input, 48_000, 128),
        Ok(StreamSetup { channels: 1, sample_rate: 48_000, buffer_size: BufferSize::Default })
    );
}

#[test]
fn pick_refuses_a_rate_no_f32_range_runs_at() {
    let ranges = [
        range(false, 2, 8_000, 96_000, BufferRange::Unknown),
        range(true, 2, 8_000, 44_100, BufferRange::Unknown),
    ];
    assert_eq!(pick(&ranges, Direction::Output, 48_000, 128), Err(Error::NoConfig(Direction::Output, 48_000)));
    assert_eq!(pick(&[], Direction::Input, 48_000, 128), Err(Error::NoConfig(Direction::Input, 48_000)));
}

#[test]
fn pick_refuses_a_range_with_no_channels() {
    let ranges = [
        range(true, 0, 8_000, 96_000, BufferRange::Unknown),
        range(true, 2, 8_000, 96_000, BufferRange::Unknown),
    ];
    assert_eq!(pick(&ranges, Direction::Output, 48_000, 128), Err(Error::NoChannels(Direction::Output)));
}

fn candidate(name: Option<&str>, has_configs: bool) -> Candidate {
    Candidate { name: name.map(|n| n.to_string()), has_configs }
}

#[test]
fn find_takes_the_default_without_a_name() {
    assert_eq!(find(None, true, &[], Direction::Output), Ok(Choice::Default));
    assert_eq!(find(None, false, &[], Direction::Input), Err(Error::NoDevice(Direction::Input)));
}

#[test]
fn find_takes_the_first_device_of_that_name_that_works_that_way() {
    let devices = [
        candidate(Some("box"), false),
        candidate(None, true),
        candidate(Some("other"), true),
        candidate(Some("box"), true),
        candidate(Some("box"), true),
    ];
    let name = "box".to_string();
    assert_eq!(find(Some(&name), true, &devices, Direction::Input), Ok(Choice::Listed(3)));
}

#[test]
fn a_device_that_does_not_exist_is_named_in_the_error() {
    let devices = [candidate(Some("box"), true)];
    let name = "no such box".to_string();
    let error = find(Some(&name), true, &devices, Direction::Output).err().expect("refused");
    assert_eq!(error, Error::NoSuchDevice(Direction::Output, "no such box".to_string()));
    assert_eq!(error.message(), r#"no output device named "no such box""#);
}

#[test]
fn every_failure_reads_as_a_sentence() {
    assert_eq!(Error::NoDevice(Direction::Input).message(), "no default input device");
    assert_eq!(
        Error::NoConfig(Direction::Output, 44_100).message(),
        "the output device offers no f32 configuration at 44100 Hz"
    );
    assert_eq!(
        Error::NoChannels(Direction::Input).message(),
        "the input device offers a configuration with no channels"
    );
    assert_eq!(
        Error::NoSuchDevice(Direction::Input, "a \"quoted\" box".to_string()).message(),
        r#"no input device named "a \"quoted\" box""#
    );
    assert_eq!(Error::Block(1234567890).message(), "a block of 1234567890 frames, which is not between 1 and 8192");
}

#[test]
fn the_primed_ring_holds_one_block_of_silence() {
    let mut ring = primed_ring(128);
    assert_eq!(ring.capacity(), 4096);
    assert_eq!(ring.len(), 128);
    let mut out = vec![1u32; 200];
    assert_eq!(ring.pop(&mut out), 128);
    assert!(out[..128].iter().all(|&v| f32::from_bits(v) == 0.0));
    assert!(out[128..].iter().all(|&v| v == 1));
}

#[test]
fn live_input_comes_out_one_block_late() {
    let block = 7;
    let mut ring = primed_ring(block);
    let mut out = Vec::new();
    for round in 0..10u32 {
        let input: Vec<u32> = (0..5).map(|i| 1 + round * 5 + i).collect();
        ring.push(&input);
        let mut got = vec![0u32; 4];
        let n = ring.pop(&mut got);
        out.extend_from_slice(&got[..n]);
    }
    assert!(out[..block].iter().all(|&v| v == 0));
    for (k, v) in out[block..].iter().enumerate() {
        assert_eq!(*v, 1 + k as u32);
    }
}

#[test]
fn directions_are_named_in_words() {
    assert_eq!(Direction::Input.name(), "input");
    assert_eq!(Direction::Output.name(), "output");
}
