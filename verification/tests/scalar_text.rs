use scene_converter::scalar::Scalar;

fn text_of(value: f32) -> String {
    let bytes = Scalar::new(value.to_bits()).to_decimal().expect("finite");
    String::from_utf8(bytes).expect("ascii")
}

#[test]
fn zero_and_one_have_one_fraction_digit() {
    assert_eq!(text_of(0.0), "0.0");
    assert_eq!(text_of(1.0), "1.0");
    assert_eq!(text_of(-2.5), "-2.5");
    assert_eq!(text_of(0.5), "0.5");
}

#[test]
fn negative_zero_keeps_its_sign() {
    assert_eq!(text_of(-0.0), "-0.0");
}

#[test]
fn a_tenth_is_written_exactly() {
    assert_eq!(text_of(0.1), "0.100000001490116119384765625");
    assert_eq!(text_of(0.001), "0.001000000047497451305389404296875");
    assert_eq!(text_of(3.1415927), "3.1415927410125732421875");
    assert_eq!(text_of(0.70710677), "0.707106769084930419921875");
}

#[test]
fn large_numbers_have_all_their_digits() {
    assert_eq!(text_of(16777216.0), "16777216.0");
    assert_eq!(text_of(1e10), "10000000000.0");
    assert_eq!(text_of(123456.789), "123456.7890625");
    assert_eq!(text_of(f32::MAX), "340282346638528859811704183484516925440.0");
    assert_eq!(text_of(f32::MIN), "-340282346638528859811704183484516925440.0");
}

#[test]
fn the_smallest_numbers_have_all_their_digits() {
    assert_eq!(
        text_of(f32::from_bits(1)),
        "0.00000000000000000000000000000000000000000000140129846432481707092372958328991613128026194187651577175706828388979108268586060148663818836212158203125"
    );
    assert_eq!(
        text_of(f32::MIN_POSITIVE),
        "0.000000000000000000000000000000000000011754943508222875079687365372222456778186655567720875215087517062784172594547271728515625"
    );
    assert_eq!(
        text_of(f32::from_bits(0x007f_ffff)),
        "0.00000000000000000000000000000000000001175494210692441075487029444849287348827052428745893333857174530571588870475618904265502351336181163787841796875"
    );
}

#[test]
fn nan_and_infinities_have_no_text() {
    assert!(Scalar::new(f32::NAN.to_bits()).to_decimal().is_none());
    assert!(Scalar::new(f32::INFINITY.to_bits()).to_decimal().is_none());
    assert!(Scalar::new(f32::NEG_INFINITY.to_bits()).to_decimal().is_none());
    assert!(Scalar::new(0x7fc0_0001).to_decimal().is_none());
}

#[test]
fn finiteness_follows_the_exponent_bits() {
    assert!(Scalar::new(0).is_finite());
    assert!(Scalar::new(f32::MAX.to_bits()).is_finite());
    assert!(Scalar::new(0xff7f_ffff).is_finite());
    assert!(!Scalar::new(0x7f80_0000).is_finite());
    assert!(!Scalar::new(0xff80_0000).is_finite());
    assert!(!Scalar::new(0x7f80_0001).is_finite());
}

#[test]
fn both_zeros_are_zero_and_nothing_else() {
    assert!(Scalar::new(0).is_zero());
    assert!(Scalar::new(0x8000_0000).is_zero());
    assert!(!Scalar::new(1).is_zero());
    assert!(!Scalar::new(1.0f32.to_bits()).is_zero());
    assert!(!Scalar::new(0x0080_0000).is_zero());
}

#[test]
fn the_text_reads_back_as_the_same_number() {
    let mut bits: u32 = 1;
    let mut checked = 0;
    while checked < 20000 {
        let value = f32::from_bits(bits);
        if value.is_finite() {
            let text = text_of(value);
            let back: f32 = text.parse().expect("a decimal number");
            assert_eq!(back.to_bits(), bits, "{}", text);
        }
        bits = bits.wrapping_mul(1664525).wrapping_add(1013904223);
        checked += 1;
    }
}

#[test]
fn every_exponent_reads_back() {
    let mut exponent: u32 = 0;
    while exponent < 255 {
        for fraction in [0u32, 1, 0x40_0000, 0x2a_aaaa, 0x7f_ffff] {
            let bits = (exponent << 23) | fraction;
            let text = text_of(f32::from_bits(bits));
            let back: f32 = text.parse().expect("a decimal number");
            assert_eq!(back.to_bits(), bits, "{}", text);
        }
        exponent += 1;
    }
}
