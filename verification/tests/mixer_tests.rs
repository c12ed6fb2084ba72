use pv_cobra_redux::mixer::{average, mix, quantize};
use pv_cobra_redux::ChannelLayout;

fn hardware_mono(sample: f32) -> i16 {
    (sample * i16::MAX as f32).round() as i16
}

fn hardware_stereo(left: f32, right: f32) -> i16 {
    let mono = (left + right) / 2.0;
    (mono * i16::MAX as f32).round() as i16
}

struct Lcg(u64);

impl Lcg {
    fn next(&mut self) -> u32 {
        self.0 = self.0.wrapping_mul(6364136223846793005).wrapping_add(1442695040888963407);
        (self.0 >> 32) as u32
    }
}

fn notable_patterns() -> Vec<u32> {
    let mut patterns = vec![
        0x0000_0000, 0x8000_0000, 0x3f80_0000, 0xbf80_0000, 0x7f80_0000, 0xff80_0000,
        0x7fc0_0000, 0xffc0_0000, 0x7f80_0001, 0x7f7f_ffff, 0xff7f_ffff, 0x0000_0001,
        0x8000_0001, 0x007f_ffff, 0x0080_0000, 0x0080_0001, 0x00ff_ffff, 0x0100_0000,
        0x7f00_0000, 0x3f00_0000, 0x3eff_ffff, 0x3f00_0001, 0x3f7f_ffff, 0x3f80_0001,
        0x4700_0000, 0x46ff_fe00, 0xc700_0000, 0x4b00_0000, 0x4b80_0000, 0x3380_0000,
        0x3400_0000, 0x3780_0000, 0x3800_0000, 0x3800_0100, 0x4000_0000, 0xc000_0000,
    ];
    for k in [0u32, 1, 2, 3, 100, 16383, 16384, 32765, 32766, 32767, 32768] {
        let tie = (k as f32 + 0.5) / 32767.0;
        let bits = tie.to_bits();
        for d in 0..7u32 {
            let near = bits.wrapping_add(d).wrapping_sub(3);
            patterns.push(near & 0x7fff_ffff);
            patterns.push(near | 0x8000_0000);
        }
    }
    patterns
}

#[test]
fn silence_mixes_to_silence() {
    for len in [0usize, 1, 2, 3, 7, 160, 512, 1024] {
        let block = vec![0.0f32.to_bits(); len];
        assert_eq!(mix(&block, ChannelLayout::Mono), vec![0i16; len]);
        assert_eq!(mix(&block, ChannelLayout::Stereo), vec![0i16; len / 2]);
        let minus = vec![(-0.0f32).to_bits(); len];
        assert_eq!(mix(&minus, ChannelLayout::Mono), vec![0i16; len]);
        assert_eq!(mix(&minus, ChannelLayout::Stereo), vec![0i16; len / 2]);
    }
}

#[test]
fn opposite_channels_cancel() {
    let mut block = Vec::new();
    for _ in 0..256 {
        block.push(1.0f32.to_bits());
        block.push((-1.0f32).to_bits());
    }
    assert_eq!(mix(&block, ChannelLayout::Stereo), vec![0i16; 256]);
    assert_eq!(average((-1.0f32).to_bits(), 1.0f32.to_bits()), 0);
    assert_eq!(average(0.3f32.to_bits(), (-0.3f32).to_bits()), 0);
    assert_eq!(average(f32::MAX.to_bits(), f32::MIN.to_bits()), 0);
}

#[test]
fn mono_samples_are_scaled_and_rounded() {
    assert_eq!(quantize(1.0f32.to_bits()), 32767);
    assert_eq!(quantize((-1.0f32).to_bits()), -32767);
    assert_eq!(quantize(0.5f32.to_bits()), 16384);
    assert_eq!(quantize((-0.5f32).to_bits()), -16384);
    assert_eq!(quantize(0.25f32.to_bits()), 8192);
    assert_eq!(quantize(0.1f32.to_bits()), 3277);
    assert_eq!(quantize((1.0f32 / 32767.0).to_bits()), 1);
    assert_eq!(quantize(0.00001f32.to_bits()), 0);
    assert_eq!(quantize(0.0f32.to_bits()), 0);
}

#[test]
fn stereo_pairs_are_averaged_then_scaled() {
    assert_eq!(average(1.0f32.to_bits(), 1.0f32.to_bits()), 32767);
    assert_eq!(average(1.0f32.to_bits(), 0.0f32.to_bits()), 16384);
    assert_eq!(average(0.5f32.to_bits(), 0.25f32.to_bits()), 12288);
    assert_eq!(average((-1.0f32).to_bits(), (-1.0f32).to_bits()), -32767);
    assert_eq!(average((-0.5f32).to_bits(), 0.0f32.to_bits()), -8192);
    let block = [
        1.0f32.to_bits(),
        1.0f32.to_bits(),
        0.5f32.to_bits(),
        (-0.5f32).to_bits(),
        (-1.0f32).to_bits(),
        0.0f32.to_bits(),
    ];
    assert_eq!(mix(&block, ChannelLayout::Stereo), vec![32767, 0, -16384]);
    assert_eq!(
        mix(&block, ChannelLayout::Mono),
        vec![32767, 32767, 16384, -16384, -32767, 0]
    );
}

#[test]
fn a_stereo_sample_without_partner_is_left_out() {
    let block = [1.0f32.to_bits(), 1.0f32.to_bits(), 0.5f32.to_bits()];
    assert_eq!(mix(&block, ChannelLayout::Stereo), vec![32767]);
    assert_eq!(mix(&block[..1], ChannelLayout::Stereo), Vec::<i16>::new());
}

#[test]
fn out_of_range_samples_are_cut_off() {
    assert_eq!(quantize(2.0f32.to_bits()), i16::MAX);
    assert_eq!(quantize((-2.0f32).to_bits()), i16::MIN);
    assert_eq!(quantize(1.00001f32.to_bits()), i16::MAX);
    assert_eq!(quantize((-1.00002f32).to_bits()), -32768);
    assert_eq!(quantize(f32::MAX.to_bits()), i16::MAX);
    assert_eq!(quantize(f32::MIN.to_bits()), i16::MIN);
    assert_eq!(quantize(f32::INFINITY.to_bits()), i16::MAX);
    assert_eq!(quantize(f32::NEG_INFINITY.to_bits()), i16::MIN);
    assert_eq!(average(f32::MAX.to_bits(), f32::MAX.to_bits()), i16::MAX);
    assert_eq!(average(f32::MIN.to_bits(), f32::MIN.to_bits()), i16::MIN);
}

#[test]
fn what_is_not_a_number_becomes_zero() {
    assert_eq!(quantize(f32::NAN.to_bits()), 0);
    assert_eq!(quantize(0xffc0_0000), 0);
    assert_eq!(quantize(0x7f80_0001), 0);
    assert_eq!(average(f32::NAN.to_bits(), 1.0f32.to_bits()), 0);
    assert_eq!(average(1.0f32.to_bits(), f32::NAN.to_bits()), 0);
    assert_eq!(average(f32::INFINITY.to_bits(), f32::NEG_INFINITY.to_bits()), 0);
    assert_eq!(average(f32::INFINITY.to_bits(), f32::INFINITY.to_bits()), i16::MAX);
    assert_eq!(average(f32::INFINITY.to_bits(), f32::MIN.to_bits()), i16::MAX);
    assert_eq!(average(1.0f32.to_bits(), f32::NEG_INFINITY.to_bits()), i16::MIN);
}

#[test]
fn mono_agrees_with_hardware_on_notable_patterns() {
    for bits in notable_patterns() {
        assert_eq!(quantize(bits), hardware_mono(f32::from_bits(bits)), "pattern {:#010x}", bits);
    }
}

#[test]
fn stereo_agrees_with_hardware_on_notable_patterns() {
    let patterns = notable_patterns();
    for left in &patterns {
        for right in &patterns {
            assert_eq!(
                average(*left, *right),
                hardware_stereo(f32::from_bits(*left), f32::from_bits(*right)),
                "patterns {:#010x} {:#010x}",
                left,
                right
            );
        }
    }
}

#[test]
fn mono_agrees_with_hardware_on_every_kind_of_pattern() {
    let mut random = Lcg(0x5eed);
    for _ in 0..1_000_000 {
        let bits = random.next();
        assert_eq!(quantize(bits), hardware_mono(f32::from_bits(bits)), "pattern {:#010x}", bits);
    }
}

#[test]
fn mono_agrees_with_hardware_in_the_audio_range() {
    let mut random = Lcg(0xa0d10);
    for _ in 0..1_000_000 {
        let sample = (random.next() as f32 / u32::MAX as f32) * 3.0 - 1.5;
        let bits = sample.to_bits();
        assert_eq!(quantize(bits), hardware_mono(sample), "pattern {:#010x}", bits);
    }
}

#[test]
fn mono_agrees_with_hardware_on_all_samples_of_one_binade() {
    // Every pattern from 0.5 up to 0.5 + 2^16 places: a stretch in which
    // the scaled sample crosses many halves.
    let start = 0.5f32.to_bits();
    for step in 0..200_000u32 {
        let bits = start + step * 41;
        assert_eq!(quantize(bits), hardware_mono(f32::from_bits(bits)), "pattern {:#010x}", bits);
        let minus = bits | 0x8000_0000;
        assert_eq!(quantize(minus), hardware_mono(f32::from_bits(minus)), "pattern {:#010x}", minus);
    }
}

#[test]
fn stereo_agrees_with_hardware_on_every_kind_of_pattern() {
    let mut random = Lcg(0xbeef);
    for _ in 0..1_000_000 {
        let left = random.next();
        let right = random.next();
        assert_eq!(
            average(left, right),
            hardware_stereo(f32::from_bits(left), f32::from_bits(right)),
            "patterns {:#010x} {:#010x}",
            left,
            right
        );
    }
}

#[test]
fn stereo_agrees_with_hardware_in_the_audio_range() {
    let mut random = Lcg(0xcafe);
    for _ in 0..1_000_000 {
        let left = (random.next() as f32 / u32::MAX as f32) * 3.0 - 1.5;
        let right = (random.next() as f32 / u32::MAX as f32) * 3.0 - 1.5;
        assert_eq!(
            average(left.to_bits(), right.to_bits()),
            hardware_stereo(left, right),
            "samples {} {}",
            left,
            right
        );
    }
}

#[test]
fn stereo_agrees_with_hardware_on_close_exponents() {
    let mut random = Lcg(0xd00d);
    for _ in 0..1_000_000 {
        let left = random.next();
        let exponent = (left >> 23) & 0xff;
        let shift = random.next() % 81;
        let other = (exponent + shift).saturating_sub(40).min(255);
        let right = (random.next() & 0x807f_ffff) | (other << 23);
        assert_eq!(
            average(left, right),
            hardware_stereo(f32::from_bits(left), f32::from_bits(right)),
            "patterns {:#010x} {:#010x}",
            left,
            right
        );
        assert_eq!(
            average(right, left),
            hardware_stereo(f32::from_bits(right), f32::from_bits(left)),
            "patterns {:#010x} {:#010x}",
            right,
            left
        );
    }
}

#[test]
fn mixing_agrees_with_hardware_on_a_block() {
    let mut random = Lcg(0xf00d);
    let samples: Vec<f32> =
        (0..4096).map(|_| (random.next() as f32 / u32::MAX as f32) * 2.0 - 1.0).collect();
    let bits: Vec<u32> = samples.iter().map(|s| s.to_bits()).collect();
    let mono: Vec<i16> = samples.iter().map(|s| hardware_mono(*s)).collect();
    let stereo: Vec<i16> = samples.chunks(2).map(|pair| hardware_stereo(pair[0], pair[1])).collect();
    assert_eq!(mix(&bits, ChannelLayout::Mono), mono);
    assert_eq!(mix(&bits, ChannelLayout::Stereo), stereo);
}

#[test]
fn samples_in_range_lie_near_the_exact_product() {
    let mut random = Lcg(0x1234);
    for _ in 0..100_000 {
        let sample = (random.next() as f32 / u32::MAX as f32) * 2.0 - 1.0;
        let mono = quantize(sample.to_bits());
        assert!((-32767..=32767).contains(&mono));
        let exact = sample as f64 * 32767.0;
        assert!((mono as f64 - exact).abs() <= 0.5 + 1.0 / 1024.0, "sample {}", sample);
    }
    assert_eq!(quantize(1.0f32.to_bits()), 32767);
    assert_eq!(quantize((-1.0f32).to_bits()), -32767);
}

#[test]
fn pairs_in_range_lie_near_the_exact_product_of_their_mean() {
    let mut random = Lcg(0x4321);
    for _ in 0..100_000 {
        let left = (random.next() as f32 / u32::MAX as f32) * 2.0 - 1.0;
        let right = (random.next() as f32 / u32::MAX as f32) * 2.0 - 1.0;
        let mono = average(left.to_bits(), right.to_bits());
        assert!((-32767..=32767).contains(&mono));
        let exact = (left as f64 + right as f64) / 2.0 * 32767.0;
        assert!((mono as f64 - exact).abs() <= 0.5 + 1.0 / 64.0, "pair {} {}", left, right);
    }
}
