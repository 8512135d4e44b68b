use valverig_io::Ring;

fn bits(samples: &[f32]) -> Vec<u32> {
    samples.iter().map(|s| s.to_bits()).collect()
}

fn floats(samples: &[u32]) -> Vec<f32> {
    samples.iter().map(|b| f32::from_bits(*b)).collect()
}

#[test]
fn samples_come_out_in_order_and_wrap() {
    let mut r = Ring::new(6);
    assert_eq!(r.capacity(), 8);
    assert_eq!(r.push(&bits(&[1.0, 2.0, 3.0, 4.0, 5.0])), 5);
    let mut out = [0u32; 3];
    assert_eq!(r.pop(&mut out), 3);
    assert_eq!(floats(&out), [1.0, 2.0, 3.0]);
    // Wraps around the end of the storage.
    assert_eq!(r.push(&bits(&[6.0, 7.0, 8.0, 9.0, 10.0, 11.0])), 6);
    assert_eq!(r.len(), 8);
    assert_eq!(r.push(&bits(&[12.0])), 0, "full");
    let mut out = [0u32; 8];
    assert_eq!(r.pop(&mut out), 8);
    assert_eq!(floats(&out), [4.0, 5.0, 6.0, 7.0, 8.0, 9.0, 10.0, 11.0]);
    assert!(r.is_empty());
    assert_eq!(r.pop(&mut out), 0, "empty leaves dst alone");
}

#[test]
fn capacity_is_rounded_up_to_a_power_of_two_and_never_below_two() {
    assert_eq!(Ring::new(0).capacity(), 2);
    assert_eq!(Ring::new(1).capacity(), 2);
    assert_eq!(Ring::new(2).capacity(), 2);
    assert_eq!(Ring::new(3).capacity(), 4);
    assert_eq!(Ring::new(1000).capacity(), 1024);
    assert_eq!(Ring::new(1024).capacity(), 1024);
    assert_eq!(Ring::new(1025).capacity(), 2048);
}

#[test]
fn the_documented_example_holds() {
    let mut ring = Ring::new(1000);
    assert_eq!(ring.capacity(), 1024, "rounded up to a power of two");
    assert_eq!(ring.push(&bits(&[0.1, 0.2, 0.3])), 3);
    let mut block = [0.0f32.to_bits(); 4];
    assert_eq!(ring.pop(&mut block), 3, "and the fourth is left alone");
    assert_eq!(floats(&block), [0.1, 0.2, 0.3, 0.0]);
    assert!(ring.is_empty());
}

#[test]
fn a_push_into_a_full_ring_takes_what_fits() {
    let mut r = Ring::new(4);
    assert_eq!(r.push(&[1, 2, 3]), 3);
    assert_eq!(r.push(&[4, 5, 6]), 1);
    assert_eq!(r.len(), 4);
    let mut out = [9u32; 6];
    assert_eq!(r.pop(&mut out), 4);
    assert_eq!(out, [1, 2, 3, 4, 9, 9]);
}

#[test]
fn many_laps_keep_the_order() {
    let mut r = Ring::new(4);
    let mut next = 0u32;
    let mut expected = 0u32;
    for lap in 0..100u32 {
        let batch: Vec<u32> = (0..(lap % 5)).map(|k| next + k).collect();
        let n = r.push(&batch);
        next += n as u32;
        let mut out = vec![0u32; (lap % 3) as usize];
        let got = r.pop(&mut out);
        for v in &out[..got] {
            assert_eq!(*v, expected);
            expected += 1;
        }
        assert!(r.len() <= r.capacity());
    }
}
