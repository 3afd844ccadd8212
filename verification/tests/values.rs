use wasmcheck::{
    delta_str, format_size, Budget, Compression, MaxDelta, Metric, Percent, Size, SizeReport,
    Threshold, WasmCheckError,
};

#[test]
fn size_parses_and_prints_whole_units() {
    let size = Size::parse("280 KB").unwrap();
    assert_eq!(size.bytes(), 280 * 1024);
    assert_eq!(size.to_text(), "280 KB");
    let odd = Size::from_bytes(10_700);
    assert_eq!(odd.to_text(), "10700 B");
    assert_eq!(Size::parse("10700 B").unwrap(), odd);
    assert_eq!(Size::from_bytes(2 * 1024 * 1024).to_text(), "2 MB");
    assert_eq!(Size::from_bytes(0).to_text(), "0 B");
}

#[test]
fn size_parse_accepts_decimals_units_and_case() {
    assert_eq!(Size::parse("1.5 KB").unwrap().bytes(), 1536);
    assert_eq!(Size::parse("2.5mb").unwrap().bytes(), 2_621_440);
    assert_eq!(Size::parse("512").unwrap().bytes(), 512);
    assert_eq!(Size::parse("  700 KiB ").unwrap().bytes(), 700 * 1024);
    assert_eq!(Size::parse("1 MiB").unwrap().bytes(), 1024 * 1024);
}

#[test]
fn size_parse_rejects_bad_input_with_invalid_size() {
    for bad in ["-1 KB", "10 GB", "nan", "", "KB", "5%"] {
        match Size::parse(bad) {
            Err(WasmCheckError::InvalidSize(text)) => assert_eq!(text, bad.trim()),
            other => panic!("{bad:?} gave {other:?}"),
        }
    }
}

#[test]
fn size_text_reads_back() {
    for bytes in [0u64, 1, 1023, 1024, 1536, 10_700, 1024 * 1024, 3 * 1024 * 1024, u64::MAX] {
        let size = Size::from_bytes(bytes);
        assert_eq!(Size::parse(&size.to_text()).unwrap(), size);
    }
}

#[test]
fn from_kib_ceil_rounds_up_to_whole_kib() {
    assert_eq!(Size::from_kib_ceil(10_700).bytes(), 11 * 1024);
    assert_eq!(Size::from_kib_ceil(10_240).bytes(), 10 * 1024);
    assert_eq!(Size::from_kib_ceil(0).bytes(), 0);
    assert_eq!(Size::from_kib_ceil(1).bytes(), 1024);
}

#[test]
fn format_size_rounds_like_two_decimal_floats() {
    assert_eq!(format_size(0), "0 B");
    assert_eq!(format_size(1023), "1023 B");
    assert_eq!(format_size(1024), "1.00 KB");
    assert_eq!(format_size(675_212), "659.39 KB");
    assert_eq!(format_size(1_048_575), "1024.00 KB");
    assert_eq!(format_size(5 * 1024 * 1024 + 1024 * 1024 / 2), "5.50 MB");
    for bytes in [1536u64, 2047, 10_700, 240_928, 1_000_000, 123_456_789] {
        let expected = if bytes >= 1024 * 1024 {
            format!("{:.2} MB", bytes as f64 / (1024.0 * 1024.0))
        } else {
            format!("{:.2} KB", bytes as f64 / 1024.0)
        };
        assert_eq!(format_size(bytes), expected, "bytes = {bytes}");
    }
}

#[test]
fn delta_str_signs_the_difference() {
    assert_eq!(delta_str(1200, 1000), "+200 B");
    assert_eq!(delta_str(1000, 3048), "-2.00 KB");
    assert_eq!(delta_str(500, 500), "±0 B");
}

#[test]
fn percent_parses_and_applies() {
    let five = Percent::parse("5%").unwrap();
    assert_eq!(five.hundredths(), 500);
    assert_eq!(five.to_text(), "5%");
    assert_eq!(five.of(675_212), 33_760);
    assert_eq!(Percent::parse("0.5%").unwrap().to_text(), "0.5%");
    assert_eq!(Percent::parse("12.25%").unwrap().to_text(), "12.25%");
    assert_eq!(Percent::from_hundredths(500).of(100_000), 5_000);
    assert_eq!(Percent::from_hundredths(100).of(100_000), 1_000);
    assert_eq!(Percent::from_hundredths(1).of(100_000), 10);
}

#[test]
fn percent_rejects_bad_input_with_invalid_percent() {
    assert_eq!(Percent::parse("5").unwrap().hundredths(), 500);
    assert_eq!(Percent::parse("0.120%").unwrap().hundredths(), 12);
    assert!(matches!("0.125%".parse::<Percent>(), Err(WasmCheckError::InvalidPercent(_))));
    for bad in ["-5%", "%", "abc%", "nan%", "0.125%", "12.251%", "0.001"] {
        assert!(
            matches!(Percent::parse(bad), Err(WasmCheckError::InvalidPercent(_))),
            "{bad:?}"
        );
    }
}

#[test]
fn percent_reads_exponent_notation() {
    assert_eq!(Percent::parse("1e1%").unwrap().hundredths(), 1000);
    assert_eq!(Percent::parse("2.5E-1%").unwrap().hundredths(), 25);
    assert_eq!(Percent::parse("1e+2").unwrap().hundredths(), 10000);
    assert_eq!(Percent::parse("125e-2%").unwrap().hundredths(), 125);
    assert_eq!(Percent::parse("1000e-5%").unwrap().hundredths(), 1);
    assert_eq!(Percent::parse("0e99999999999999999999999%").unwrap().hundredths(), 0);
    assert_eq!(Percent::parse("-0e5%").unwrap().hundredths(), 0);
    for bad in [
        "1e400%",
        "5e%",
        "e5%",
        "1e1.5%",
        "-1e1%",
        "inf%",
        "1e99999999999999999999999%",
        "125e-3%",
        "1e-9%",
        "1e-99999999999999999999999%",
    ] {
        assert!(
            matches!(Percent::parse(bad), Err(WasmCheckError::InvalidPercent(_))),
            "{bad:?}"
        );
    }
}

#[test]
fn threshold_is_absolute_or_relative() {
    let absolute = Threshold::parse("50 KB").unwrap();
    assert_eq!(absolute.allowed(1_000_000), 1_000_000 + 50 * 1024);
    let relative = Threshold::parse("5%").unwrap();
    assert_eq!(relative.allowed(1_000_000), 1_050_000);
    assert_eq!(relative.to_text(), "5%");
    assert_eq!(absolute.to_text(), "50 KB");
    assert!(matches!(Threshold::parse("x%"), Err(WasmCheckError::InvalidPercent(_))));
    assert!(matches!(Threshold::parse("x"), Err(WasmCheckError::InvalidSize(_))));
}

#[test]
fn threshold_allowance_saturates() {
    let absolute = Threshold::Bytes(Size::from_bytes(10));
    assert_eq!(absolute.allowed(u64::MAX - 1), u64::MAX);
}

#[test]
fn budget_fails_only_strictly_over() {
    let budget = Budget::raw_only(Size::parse("700 KB").unwrap());
    assert_eq!(budget.limit(Metric::Raw).unwrap().bytes(), 700 * 1024);
    assert!(budget.limit(Metric::Gzip).is_none());
    let ok = SizeReport::new("app.wasm", 600_000, 200_000, 180_000);
    assert!(budget.exceeded_metrics(&ok).is_empty());
    let at_limit = SizeReport::new("app.wasm", 700 * 1024, 1, 1);
    assert!(budget.exceeded_metrics(&at_limit).is_empty());
    let over = SizeReport::new("app.wasm", 700 * 1024 + 1, 1, 1);
    assert_eq!(budget.exceeded_metrics(&over), vec![Metric::Raw]);
    let small = Budget::raw_only(Size::parse("2 KB").unwrap());
    let report = SizeReport::new("app.wasm", 3_000, 500, 400);
    assert_eq!(small.exceeded_metrics(&report), vec![Metric::Raw]);
}

#[test]
fn budget_lists_metrics_in_reporting_order() {
    let mut budget = Budget::new();
    budget.set_limit(Metric::Brotli, Some(Size::from_bytes(10)));
    budget.set_limit(Metric::Raw, Some(Size::from_bytes(10)));
    budget.set_limit(Metric::Gzip, Some(Size::from_bytes(10)));
    let report = SizeReport::new("app.wasm", 11, 11, 11);
    assert_eq!(
        budget.exceeded_metrics(&report),
        vec![Metric::Raw, Metric::Gzip, Metric::Brotli]
    );
    assert!(!budget.is_empty());
    assert!(Budget::new().is_empty());
}

#[test]
fn growth_gate_by_size_and_percentage() {
    let baseline = SizeReport::new("app.wasm", 10_000, 4_000, 3_500);
    let kb = MaxDelta::raw_only(Threshold::parse("1 KB").unwrap());
    let grown = SizeReport::new("app.wasm", 12_000, 4_000, 3_500);
    assert_eq!(kb.exceeded_delta(&grown, &baseline), vec![Metric::Raw]);
    let percent = MaxDelta::raw_only(Threshold::parse("5%").unwrap());
    let too_much = SizeReport::new("app.wasm", 10_600, 4_000, 3_500);
    assert_eq!(percent.exceeded_delta(&too_much, &baseline), vec![Metric::Raw]);
    let fine = SizeReport::new("app.wasm", 10_400, 4_000, 3_500);
    assert!(percent.exceeded_delta(&fine, &baseline).is_empty());
    assert_eq!(percent.limit(Metric::Raw).unwrap().to_text(), "5%");
    assert_eq!(percent.allowed(Metric::Raw, &baseline), Some(10_500));
    assert_eq!(percent.allowed(Metric::Gzip, &baseline), None);
}

#[test]
fn growth_exactly_at_allowance_and_shrinking_pass() {
    let baseline = SizeReport::new("app.wasm", 10_000, 4_000, 3_500);
    let percent = MaxDelta::raw_only(Threshold::parse("5%").unwrap());
    let exact = SizeReport::new("app.wasm", 10_500, 4_000, 3_500);
    assert!(percent.exceeded_delta(&exact, &baseline).is_empty());
    let shrunk = SizeReport::new("app.wasm", 1, 1, 1);
    assert!(percent.exceeded_delta(&shrunk, &baseline).is_empty());
}

#[test]
fn compression_presets_and_validation() {
    assert_eq!(Compression::default(), Compression::cdn());
    assert_eq!(Compression::cdn().gzip_level(), 6);
    assert_eq!(Compression::cdn().brotli_quality(), 5);
    assert_eq!(Compression::max(), Compression::new(9, 11).unwrap());
    assert!(matches!(Compression::new(10, 5), Err(WasmCheckError::InvalidGzipLevel(10))));
    assert!(matches!(Compression::new(5, 12), Err(WasmCheckError::InvalidBrotliQuality(12))));
    assert!(matches!(Compression::new(5, -1), Err(WasmCheckError::InvalidBrotliQuality(-1))));
    assert_eq!(Compression::new(9, 11).unwrap().gzip_level(), 9);
    assert!(Compression::cdn().is_default());
    assert!(!Compression::max().is_default());
    let tuned = Compression::cdn().with_gzip_level(9).unwrap();
    assert_eq!((tuned.gzip_level(), tuned.brotli_quality()), (9, 5));
    assert_eq!(Compression::max().to_text(), "gzip level 9, brotli quality 11");
}

#[test]
fn metric_names_parse_back() {
    let report = SizeReport::new("app.wasm", 700_000, 250_000, 200_000);
    assert_eq!(Metric::Gzip.value(&report), 250_000);
    assert_eq!(Metric::Gzip.name(), "gzip");
    assert_eq!(Metric::parse("brotli").unwrap(), Metric::Brotli);
    for m in Metric::all() {
        assert_eq!(Metric::parse(m.name()).unwrap(), m);
    }
    assert!(matches!(Metric::parse("zstd"), Err(WasmCheckError::InvalidMetric(_))));
}

#[test]
fn report_delta_is_signed() {
    let before = SizeReport::new("app.wasm", 1000, 500, 400);
    let after = SizeReport::new("app.wasm", 1200, 480, 400);
    let delta = after.delta(&before);
    assert_eq!(delta.get(Metric::Raw), 200);
    assert_eq!(delta.get(Metric::Gzip), -20);
    assert_eq!(delta.get(Metric::Brotli), 0);
}

#[test]
fn measuring_compresses_but_keeps_raw_size() {
    let data = vec![b'a'; 10_000];
    let report = SizeReport::measure("app.wasm", &data).unwrap();
    assert_eq!(report.file(), "app.wasm");
    assert_eq!(report.raw(), 10_000);
    assert!(report.gzip() > 0 && report.gzip() < 10_000);
    assert!(report.brotli() > 0 && report.brotli() < 10_000);
    let max = SizeReport::measure_with("app.wasm", &data, Compression::max()).unwrap();
    assert_eq!(max.raw(), 10_000);
    assert_eq!(
        wasmcheck::size::compress_gzip(&data, 6).unwrap(),
        report.gzip()
    );
    assert_eq!(
        wasmcheck::size::compress_brotli(&data, 5).unwrap(),
        report.brotli()
    );
}

#[test]
fn test_compress_gzip_not_empty() {
    let data: Vec<u8> = (0..10_000).map(|i| (i % 256) as u8).collect();
    let data = data.repeat(8);
    let compressed = wasmcheck::size::compress_gzip(&data, 9).unwrap();
    assert!(compressed > 0);
    assert!((compressed as usize) < data.len()); // should compress
}

#[test]
fn test_compress_brotli_not_empty() {
    let data: Vec<u8> = (0..10_000).map(|i| (i % 256) as u8).collect();
    let data = data.repeat(8);
    let compressed = wasmcheck::size::compress_brotli(&data, 11).unwrap();
    assert!(compressed > 0);
    assert!((compressed as usize) < data.len()); // should compress
}

#[test]
fn measure_is_measure_with_the_default_setting() {
    let data: Vec<u8> = (0..4_000u32).map(|i| (i * 7 % 251) as u8).collect();
    let a = SizeReport::measure("x.wasm", &data).unwrap();
    let b = SizeReport::measure_with("x.wasm", &data, Compression::default()).unwrap();
    assert_eq!((a.file(), a.raw(), a.gzip(), a.brotli()), (b.file(), b.raw(), b.gzip(), b.brotli()));
    let max = SizeReport::measure_with("x.wasm", &data, Compression::max()).unwrap();
    assert_eq!(max.raw(), a.raw());
}

#[test]
fn error_kind_of_budget_failures() {
    let err = Size::parse("nope").unwrap_err();
    assert!(matches!(err, WasmCheckError::InvalidSize(_)));
    assert!(!err.is_budget_exceeded());
    let over = WasmCheckError::BudgetExceeded("app.wasm".into());
    assert!(over.is_budget_exceeded());
}

#[test]
fn percent_and_threshold_text_read_back() {
    for hundredths in [0u32, 1, 10, 50, 100, 125, 500, 1234, 100_000, u32::MAX] {
        let p = Percent::from_hundredths(hundredths);
        assert_eq!(Percent::parse(&p.to_text()).unwrap(), p, "{}", p.to_text());
        let t = Threshold::Percent(p);
        assert_eq!(Threshold::parse(&t.to_text()).unwrap(), t);
    }
    for bytes in [0u64, 7, 1024, 50 * 1024, 3 * 1024 * 1024] {
        let t = Threshold::Bytes(Size::from_bytes(bytes));
        assert_eq!(Threshold::parse(&t.to_text()).unwrap(), t);
    }
    assert_eq!(Percent::from_hundredths(1234).to_text(), "12.34%");
    assert_eq!(Percent::from_hundredths(1).to_text(), "0.01%");
}
