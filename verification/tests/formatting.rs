use human_number::{Binary64, Formatter, Options, Scale, Scales};

fn num(x: f64) -> Binary64 {
    Binary64::from_bits(x.to_bits())
}

fn text(formatter: &Formatter, x: f64) -> String {
    formatter.format(num(x)).to_string()
}

#[test]
fn getting_scale() {
    let si = human_number::si_scale();
    assert!(si.get_scale(num(1.0)).is_none());
    assert_eq!(si.get_scale(num(1000.0)).unwrap().prefix(), "k");
    assert_eq!(si.get_scale(num(0.10)).unwrap().prefix(), "m");
}

#[test]
fn format_with_sign() {
    let scales: Scales = Scales::new(vec![], vec![]);
    let options = Options::default().with_force_sign(true);
    let formatter = Formatter::new(scales, options);
    assert_eq!(formatter.format(num(-1.0)).to_string(), "-1.00");
    assert_eq!(formatter.format(num(1.0)).to_string(), "+1.00");
}

#[test]
fn format_with_non_static() {
    let negatives = vec![Scale::new(num(0.000_001), String::from("x").as_str())];
    let positives = vec![Scale::new(num(1_000.0), String::from("k").as_str())];
    let scales: Scales = Scales::new(negatives, positives);
    let options = Options::default()
        .with_unit("🦀")
        .with_separator("")
        .with_decimals(1);
    let formatter = Formatter::new(scales, options);
    assert_eq!(formatter.format(num(1_234.567)).to_string(), "1.2k🦀");
    assert_eq!(
        formatter.format(num(0.000_012_345_678)).to_string(),
        "12.3x🦀"
    );
}

#[test]
fn format_si_values_with_decimals_small() {
    let formatter = Formatter::si().with_decimals(3);
    assert_eq!(text(&formatter, 0.005), "5.000 m");
}

#[test]
fn format_si_values_with_decimals_plain() {
    let formatter = Formatter::si().with_decimals(3);
    assert_eq!(text(&formatter, 100.0), "100.000");
}

#[test]
fn format_si_values_with_decimals_big() {
    let formatter = Formatter::si().with_decimals(3);
    assert_eq!(text(&formatter, 5_432_100.0), "5.432 M");
}

#[test]
fn format_si_values_with_separator_small() {
    let formatter = Formatter::si().with_separator("🦀");
    assert_eq!(text(&formatter, 0.005), "5.00🦀m");
}

#[test]
fn format_si_values_with_separator_plain() {
    let formatter = Formatter::si().with_separator("🦀");
    assert_eq!(text(&formatter, 100.0), "100.00");
}

#[test]
fn format_si_values_with_separator_big() {
    let formatter = Formatter::si().with_separator("🦀");
    assert_eq!(text(&formatter, 5_432_100.0), "5.43🦀M");
}

#[test]
fn format_si_values_without_unit_small() {
    assert_eq!(text(&Formatter::si(), 0.005), "5.00 m");
}

#[test]
fn format_si_values_without_unit_plain() {
    assert_eq!(text(&Formatter::si(), 100.0), "100.00");
}

#[test]
fn format_si_values_without_unit_big() {
    assert_eq!(text(&Formatter::si(), 5_432_100.0), "5.43 M");
}

#[test]
fn format_si_values_with_unit_small() {
    let formatter = Formatter::si().with_unit("g");
    assert_eq!(text(&formatter, 0.005), "5.00 mg");
}

#[test]
fn format_si_values_with_unit_plain() {
    let formatter = Formatter::si().with_unit("g");
    assert_eq!(text(&formatter, 100.0), "100.00 g");
}

#[test]
fn format_si_values_with_unit_big() {
    let formatter = Formatter::si().with_unit("g");
    assert_eq!(text(&formatter, 5_432_100.0), "5.43 Mg");
}

#[test]
fn format_binary_values_without_unit_plain() {
    assert_eq!(text(&Formatter::binary(), 100.0), "100.00");
}

#[test]
fn format_binary_values_without_unit_kilo() {
    assert_eq!(text(&Formatter::binary(), 4096.0), "4.00 ki");
}

#[test]
fn format_binary_values_without_unit_mega() {
    assert_eq!(text(&Formatter::binary(), 4194304.0), "4.00 Mi");
}

#[test]
fn format_binary_values_with_unit_plain() {
    let formatter = Formatter::binary().with_unit("B");
    assert_eq!(text(&formatter, 100.0), "100.00 B");
}

#[test]
fn format_binary_values_with_unit_kilo() {
    let formatter = Formatter::binary().with_unit("B");
    assert_eq!(text(&formatter, 4096.0), "4.00 kiB");
}

#[test]
fn format_binary_values_with_unit_mega() {
    let formatter = Formatter::binary().with_unit("B");
    assert_eq!(text(&formatter, 4194304.0), "4.00 MiB");
}

#[test]
fn si_kilo() {
    assert_eq!(text(&Formatter::si(), 4234.0), "4.23 k");
}

#[test]
fn si_milli() {
    assert_eq!(text(&Formatter::si(), 0.01234), "12.34 m");
}

#[test]
fn si_unscaled() {
    assert_eq!(text(&Formatter::si(), 100.0), "100.00");
}

#[test]
fn binary_bytes() {
    let formatter = Formatter::binary().with_unit("B");
    assert_eq!(text(&formatter, 4320133.0), "4.12 MiB");
}

#[test]
fn si_grams_one_decimal_no_separator() {
    let formatter = Formatter::si()
        .with_unit("g")
        .with_separator("")
        .with_decimals(1);
    assert_eq!(text(&formatter, 4234.0), "4.2kg");
    assert_eq!(text(&formatter, 0.01234), "12.3mg");
}

#[test]
fn boundary_at_one_thousand() {
    let formatter = Formatter::si().with_decimals(3);
    let below = f64::from_bits(1000.0f64.to_bits() - 1);
    assert!(below < 1000.0);
    let scaled = formatter.format(num(below));
    assert!(scaled.scale().is_none());
    assert_eq!(scaled.to_string(), "1000.000");
    let at = formatter.format(num(1000.0));
    assert_eq!(at.scale().unwrap().prefix(), "k");
    assert_eq!(at.to_string(), "1.000 k");
    assert_eq!(at.value().to_bits(), 1.0f64.to_bits());
}

#[test]
fn one_takes_the_positive_side() {
    let negatives = vec![Scale::new(num(0.001), "m")];
    let positives = vec![Scale::new(num(1.0), "u")];
    let scales = Scales::new(negatives, positives);
    assert_eq!(scales.get_scale(num(1.0)).unwrap().prefix(), "u");
    assert_eq!(scales.get_scale(num(-1.0)).unwrap().prefix(), "u");
    assert_eq!(scales.get_scale(num(0.999)).unwrap().prefix(), "m");
}

#[test]
fn small_magnitudes_saturate() {
    let si = human_number::si_scale();
    assert_eq!(si.get_scale(num(1e-31)).unwrap().prefix(), "q");
    assert_eq!(si.get_scale(num(1e-300)).unwrap().prefix(), "q");
    assert_eq!(si.get_scale(num(0.0)).unwrap().prefix(), "q");
    assert_eq!(si.get_scale(num(1e-30)).unwrap().prefix(), "q");
    assert_eq!(si.get_scale(num(0.5)).unwrap().prefix(), "m");
    assert_eq!(si.get_scale(num(2e-6)).unwrap().prefix(), "μ");
    assert_eq!(text(&Formatter::si(), 1e-33), "0.00 q");
    assert_eq!(text(&Formatter::si(), 0.0), "0.00 q");
}

#[test]
fn binary_has_nothing_below_one() {
    let binary = human_number::binary_scale();
    assert!(binary.get_scale(num(0.5)).is_none());
    assert!(binary.get_scale(num(0.0)).is_none());
    assert!(binary.get_scale(num(1023.0)).is_none());
    assert_eq!(binary.get_scale(num(1024.0)).unwrap().prefix(), "ki");
    assert_eq!(text(&Formatter::binary(), 0.25), "0.25");
}

#[test]
fn large_magnitudes_take_the_last_scale() {
    let si = human_number::si_scale();
    assert_eq!(si.get_scale(num(1e30)).unwrap().prefix(), "Q");
    assert_eq!(si.get_scale(num(1e300)).unwrap().prefix(), "Q");
    assert_eq!(si.get_scale(num(f64::INFINITY)).unwrap().prefix(), "Q");
    assert_eq!(si.get_scale(num(f64::NAN)).unwrap().prefix(), "Q");
    assert_eq!(text(&Formatter::si(), 2.5e33), "2500.00 Q");
}

#[test]
fn every_si_prefix() {
    let formatter = Formatter::si().with_decimals(0);
    let cases: [(f64, &str); 20] = [
        (2e-3, "2 m"),
        (2e-6, "2 μ"),
        (2e-9, "2 n"),
        (2e-12, "2 p"),
        (2e-15, "2 f"),
        (2e-18, "2 a"),
        (2e-21, "2 z"),
        (2e-24, "2 y"),
        (2e-27, "2 r"),
        (2e-30, "2 q"),
        (2e3, "2 k"),
        (2e6, "2 M"),
        (2e9, "2 G"),
        (2e12, "2 T"),
        (2e15, "2 P"),
        (2e18, "2 E"),
        (2e21, "2 Z"),
        (2e24, "2 Y"),
        (2e27, "2 R"),
        (2e30, "2 Q"),
    ];
    for (value, expected) in cases {
        assert_eq!(text(&formatter, value), expected);
    }
}

#[test]
fn every_binary_prefix() {
    let formatter = Formatter::binary().with_decimals(1);
    let prefixes = ["ki", "Mi", "Gi", "Ti", "Pi", "Ei", "Zi", "Yi", "Ri", "Qi"];
    let mut value = 1536.0f64;
    for prefix in prefixes {
        assert_eq!(text(&formatter, value), format!("1.5 {}", prefix));
        value *= 1024.0;
    }
}

#[test]
fn separator_only_with_prefix_or_unit() {
    let formatter = Formatter::si().with_separator("---");
    assert_eq!(text(&formatter, 100.0), "100.00");
    assert_eq!(text(&formatter, 1000.0), "1.00---k");
    let with_unit = Formatter::si().with_separator("---").with_unit("m");
    assert_eq!(text(&with_unit, 100.0), "100.00---m");
    assert_eq!(text(&with_unit, 1000.0), "1.00---km");
}

#[test]
fn negative_numbers_keep_their_sign() {
    assert_eq!(text(&Formatter::si(), -4234.0), "-4.23 k");
    assert_eq!(text(&Formatter::si(), -0.01234), "-12.34 m");
    let signed = Formatter::si().with_force_sign(true);
    assert_eq!(text(&signed, 4234.0), "+4.23 k");
    assert_eq!(text(&signed, -4234.0), "-4.23 k");
}

#[test]
fn non_finite_values_pass_through() {
    let formatter = Formatter::si();
    assert_eq!(text(&formatter, f64::INFINITY), "inf Q");
    assert_eq!(text(&formatter, f64::NEG_INFINITY), "-inf Q");
    assert_eq!(text(&formatter, f64::NAN), "NaN Q");
    let plain = Formatter::new(Scales::new(vec![], vec![]), Options::default());
    assert_eq!(text(&plain, f64::NAN), "NaN");
    assert_eq!(text(&plain, f64::INFINITY), "inf");
}

#[test]
fn same_configuration_same_text() {
    let first = Formatter::si().with_unit("W").with_decimals(4);
    let second = Formatter::new(
        human_number::si_scale(),
        Options::new(4, " ", Some("W")),
    );
    for value in [0.0, 1.0, -17.25, 3.3e-7, 9.99e11, 123456.789] {
        assert_eq!(text(&first, value), text(&second, value));
    }
}

#[test]
fn setters_change_the_formatter_in_place() {
    let mut formatter = Formatter::si();
    formatter.set_decimals(1);
    formatter.set_separator("_");
    formatter.set_unit("Hz");
    formatter.set_force_sign(true);
    assert_eq!(text(&formatter, 2_500_000.0), "+2.5_MHz");
}

#[test]
fn plain_range_of_the_si_table() {
    let formatter = Formatter::si().with_decimals(3).with_separator("~");
    for value in [1.0, 1.5, 2.0, 9.999, 10.0, 99.95, 100.0, 512.25, 999.0, 999.9995, -1.0, -999.0] {
        let scaled = formatter.format(num(value));
        assert!(scaled.scale().is_none());
        assert_eq!(scaled.value().to_bits(), value.to_bits());
        assert_eq!(scaled.to_string(), format!("{:.3}", value));
    }
}

#[test]
fn kilo_range_of_the_si_table() {
    let formatter = Formatter::si().with_decimals(3);
    for value in [1000.0, 1000.5, 4234.0, 65536.0, 999_999.0, 999_999.999, -1000.0, -123_456.0] {
        let scaled = formatter.format(num(value));
        assert_eq!(scaled.scale().unwrap().prefix(), "k");
        assert_eq!(scaled.scale().unwrap().factor().to_bits(), 1000.0f64.to_bits());
        assert_eq!(scaled.value().to_bits(), (value / 1000.0).to_bits());
        assert_eq!(scaled.to_string(), format!("{:.3} k", value / 1000.0));
    }
}

#[test]
fn below_one_always_a_scale_under_the_si_table() {
    let si = human_number::si_scale();
    let mut value = 0.999f64;
    while value > 0.0 {
        let scale = si.get_scale(num(value)).unwrap();
        if value < 1e-30 {
            assert_eq!(scale.prefix(), "q");
        }
        value /= 7.0;
    }
}

#[test]
fn written_value_times_factor_comes_back() {
    let formatter = Formatter::si().with_decimals(6);
    for value in [4234.0f64, 0.01234, 5_432_100.0, 3.3e-7, 9.99e11, 123456.789, 1e-29] {
        let scaled = formatter.format(num(value));
        let factor = f64::from_bits(scaled.scale().unwrap().factor().to_bits());
        let text = scaled.to_string();
        let mantissa: f64 = text.split(' ').next().unwrap().parse().unwrap();
        let back = mantissa * factor;
        assert!((back - value).abs() <= 0.5e-6 * factor + value.abs() * 1e-15);
    }
}

#[test]
fn unsorted_tables_are_searched_as_they_stand() {
    let negatives = vec![Scale::new(num(1e-6), "u"), Scale::new(num(1e-3), "m")];
    let positives = vec![Scale::new(num(1e6), "M"), Scale::new(num(1e3), "k")];
    let scales = Scales::new(negatives, positives);
    // the first factor at most the magnitude
    assert_eq!(scales.get_scale(num(0.5)).unwrap().prefix(), "u");
    // none is below: the last one
    assert_eq!(scales.get_scale(num(1e-9)).unwrap().prefix(), "m");
    // the first factor is above already
    assert!(scales.get_scale(num(5000.0)).is_none());
    assert_eq!(scales.get_scale(num(5e6)).unwrap().prefix(), "k");
}

#[test]
fn scaled_value_hands_out_its_parts() {
    let formatter = Formatter::binary();
    let scaled = formatter.format(num(3.0 * 1024.0 * 1024.0));
    assert_eq!(scaled.value().to_bits(), 3.0f64.to_bits());
    let scale = scaled.scale().unwrap();
    assert_eq!(scale.prefix(), "Mi");
    assert_eq!(scale.factor().to_bits(), 1048576.0f64.to_bits());
    let copy = scaled.clone();
    assert_eq!(copy.to_string(), "3.00 Mi");
}

#[test]
fn into_scaled_with_options_of_its_own() {
    let si = human_number::si_scale();
    let options = Options::new(1, "", Some("W"));
    assert_eq!(si.into_scaled(&options, num(2_500.0)).to_string(), "2.5kW");
    assert_eq!(si.into_scaled(&options, num(25.0)).to_string(), "25.0W");
    let binary = human_number::binary_scale();
    assert_eq!(binary.into_scaled(&options, num(2048.0)).to_string(), "2.0kiW");
}
