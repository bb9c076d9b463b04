use tri_boost_core::float::{F32, F64};
use tri_boost_core::shown::{number_shown, show, show_double};

fn f(v: f32) -> F32 {
    F32::from_bits(v.to_bits())
}

fn d(v: f64) -> F64 {
    F64::from_bits(v.to_bits())
}

#[test]
fn numbers_are_written_as_their_shortest_decimal() {
    let written = [
        (0.1, "0.1"),
        (1.0, "1"),
        (-2.5, "-2.5"),
        (0.0, "0"),
        (-0.0, "-0"),
        (16777216.0, "16777216"),
        (1.0e10, "10000000000"),
        (9.5367431640625e-7, "0.0000009536743"),
        (f32::MAX, "340282350000000000000000000000000000000"),
        (f32::MIN_POSITIVE, "0.000000000000000000000000000000000000011754944"),
        (f32::from_bits(1), "0.000000000000000000000000000000000000000000001"),
        (f32::INFINITY, "inf"),
        (f32::NEG_INFINITY, "-inf"),
        (f32::NAN, "NaN"),
        (-f32::NAN, "NaN"),
    ];
    for (v, text) in written {
        assert_eq!(show(f(v)), text);
    }
    assert_eq!(number_shown("got ", f(-0.25)), "got -0.25");
    assert_eq!(show_double(d(0.1)), "0.1");
    assert_eq!(show_double(d(5.0e-324)).len(), 326);
    assert_eq!(show_double(d(f64::MAX)).len(), 309);
    assert_eq!(show_double(d(-f64::NAN)), "NaN");
}

#[test]
fn texts_agree_with_the_standard_ones() {
    // Every exponent with the significands at its ends, and a walk in between.
    let mut bits = Vec::new();
    for e in 0..255u32 {
        for m in [0u32, 1, 2, 0x3f_ffff, 0x40_0000, 0x55_5555, 0x7f_fffe, 0x7f_ffff] {
            bits.push(e << 23 | m);
        }
    }
    let mut x = 0x1234_5678u32;
    for _ in 0..3000 {
        x = x.wrapping_mul(1_664_525).wrapping_add(1_013_904_223);
        bits.push(x);
    }
    for b in bits {
        let v = f32::from_bits(b);
        assert_eq!(show(f(v)), format!("{v}"), "{b:#x}");
    }
}

#[test]
fn wide_texts_agree_with_the_standard_ones() {
    let mut bits = Vec::new();
    for e in (0..2047u64).step_by(97) {
        for m in [0u64, 1, 0xf_ffff_ffff_ffff] {
            bits.push(e << 52 | m);
        }
    }
    // Powers of two around one, some of them half-way between two decimals.
    for e in 950..1100u64 {
        bits.push(e << 52);
    }
    let mut x = 0x0123_4567_89ab_cdefu64;
    for _ in 0..100 {
        x = x.wrapping_mul(6_364_136_223_846_793_005).wrapping_add(1_442_695_040_888_963_407);
        bits.push(x);
    }
    for b in bits {
        let v = f64::from_bits(b);
        assert_eq!(show_double(d(v)), format!("{v}"), "{b:#x}");
    }
}

#[test]
fn texts_read_back_as_the_number() {
    for b in (1u32..0x7f80_0000).step_by(0x3_0001) {
        let v = f32::from_bits(b);
        assert_eq!(show(f(v)).parse::<f32>().unwrap().to_bits(), b);
    }
}
