use valverig_io::{describe, describe_all, BufferRange, ConfigRange, DeviceInfo, Listed};

fn range(f32_samples: bool, channels: u16, min: u32, max: u32) -> ConfigRange {
    ConfigRange {
        f32_samples,
        channels,
        min_sample_rate: min,
        max_sample_rate: max,
        buffer_size: BufferRange::Unknown,
    }
}

#[test]
fn a_device_is_described_by_its_f32_configurations() {
    let ranges = vec![
        range(false, 8, 8_000, 192_000),
        range(true, 2, 44_100, 48_000),
        range(true, 6, 88_200, 88_200),
    ];
    assert_eq!(
        describe(Some("box".to_string()), true, Some(&ranges)),
        Some(DeviceInfo {
            name: "box".to_string(),
            is_default: true,
            channels: 6,
            sample_rates: vec![44_100, 48_000, 88_200],
        })
    );
}

#[test]
fn a_device_half_known_is_left_out() {
    let ranges = vec![range(true, 2, 44_100, 48_000)];
    assert_eq!(describe(None, false, Some(&ranges)), None);
    assert_eq!(describe(Some("box".to_string()), false, None), None);
    let no_f32 = vec![range(false, 2, 44_100, 48_000)];
    assert_eq!(describe(Some("box".to_string()), false, Some(&no_f32)), None);
    assert_eq!(describe(Some("box".to_string()), false, Some(&Vec::new())), None);
}

#[test]
fn a_device_may_support_none_of_the_common_rates() {
    let ranges = vec![range(true, 2, 8_000, 22_050)];
    let info = describe(Some("phone".to_string()), false, Some(&ranges)).expect("described");
    assert!(info.sample_rates.is_empty());
    assert_eq!(info.channels, 2);
}

#[test]
fn every_device_is_listed_each_way_with_the_defaults_flagged() {
    let listing = vec![
        Listed {
            name: Some("mic".to_string()),
            inputs: Some(vec![range(true, 1, 48_000, 48_000)]),
            outputs: Some(vec![]),
        },
        Listed {
            name: Some("speakers".to_string()),
            inputs: None,
            outputs: Some(vec![range(true, 2, 44_100, 96_000)]),
        },
        Listed {
            name: None,
            inputs: Some(vec![range(true, 2, 44_100, 96_000)]),
            outputs: Some(vec![range(true, 2, 44_100, 96_000)]),
        },
        Listed {
            name: Some("interface".to_string()),
            inputs: Some(vec![range(true, 8, 44_100, 96_000)]),
            outputs: Some(vec![range(true, 8, 44_100, 96_000)]),
        },
    ];
    let all = describe_all(&Some("mic".to_string()), &Some("interface".to_string()), &listing);
    let inputs: Vec<(&str, bool, u16)> =
        all.inputs.iter().map(|d| (d.name.as_str(), d.is_default, d.channels)).collect();
    assert_eq!(inputs, [("mic", true, 1), ("interface", false, 8)]);
    let outputs: Vec<(&str, bool, u16)> =
        all.outputs.iter().map(|d| (d.name.as_str(), d.is_default, d.channels)).collect();
    assert_eq!(outputs, [("speakers", false, 2), ("interface", true, 8)]);
    assert_eq!(all.outputs[0].sample_rates, vec![44_100, 48_000, 88_200, 96_000]);
    assert_eq!(all.inputs[0].sample_rates, vec![48_000]);
}

#[test]
fn only_the_f32_configurations_shape_a_description() {
    let ranges = vec![
        range(false, 8, 8_000, 192_000),
        range(true, 2, 44_100, 48_000),
        range(true, 6, 88_200, 88_200),
    ];
    let shuffled = vec![
        range(true, 6, 88_200, 88_200),
        range(false, 16, 96_000, 96_000),
        range(true, 2, 44_100, 48_000),
        range(true, 6, 88_200, 88_200),
    ];
    let a = describe(Some("box".to_string()), false, Some(&ranges));
    let b = describe(Some("box".to_string()), false, Some(&shuffled));
    assert_eq!(a, b);
    assert_eq!(b.expect("described").sample_rates, vec![44_100, 48_000, 88_200]);
}
