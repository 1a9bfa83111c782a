use duckfn_quantstats::browser::{
    is_requested, local_path, temporary_file, temporary_name, temporary_name_at,
};
use duckfn_quantstats::error::ReportError;
use duckfn_quantstats::naming::{
    file_name, finish_part, hex8, push_part, sanitize_part, stem, stem_at, white_space,
    MAX_PART_CHARS, REPORT_EXTENSION,
};
use duckfn_quantstats::options::QuantstatsHtmlOptions;

fn options() -> QuantstatsHtmlOptions {
    QuantstatsHtmlOptions::default()
}

#[test]
fn white_space_follows_the_unicode_property() {
    for c in [' ', '\t', '\n', '\r', '\u{0B}', '\u{0C}', '\u{85}', '\u{A0}', '\u{2003}', '\u{3000}'] {
        assert!(white_space(c), "{c:?}");
        assert!(c.is_whitespace());
    }
    for c in ['a', '_', '-', '\u{200B}', '\u{180E}', 'é'] {
        assert!(!white_space(c), "{c:?}");
        assert_eq!(c.is_whitespace(), false);
    }
}

#[test]
fn finishing_joins_words_with_underscores() {
    assert_eq!(finish_part("  hello   world  "), "hello_world");
    assert_eq!(finish_part("a\tb\nc"), "a_b_c");
    assert_eq!(finish_part("plain"), "plain");
    assert_eq!(finish_part("   "), "");
    assert_eq!(finish_part(""), "");
    assert_eq!(finish_part("___"), "");
    assert_eq!(finish_part("x__"), "x");
}

#[test]
fn finishing_caps_the_length_and_trims_the_underscore_left_by_the_cap() {
    let long = "a".repeat(40);
    assert_eq!(finish_part(&long), "a".repeat(MAX_PART_CHARS));
    let almost = format!("{} b", "a".repeat(31));
    assert_eq!(finish_part(&almost), "a".repeat(31));
    let multi = "é".repeat(33);
    assert_eq!(finish_part(&multi).chars().count(), MAX_PART_CHARS);
}

#[test]
fn sanitizing_replaces_what_no_file_name_may_hold() {
    assert_eq!(sanitize_part("a/b c"), "a_b_c");
    assert_eq!(sanitize_part("S&P 500"), "S&P_500");
    assert_eq!(sanitize_part("what?*<>"), "what");
    assert_eq!(sanitize_part("CON"), "");
    assert_eq!(sanitize_part("nul.txt"), "");
    assert_eq!(sanitize_part(".."), "");
    assert_eq!(sanitize_part("fund. "), "fund");
    assert_eq!(sanitize_part("  hello   world  "), "hello_world");
}

#[test]
fn empty_parts_are_left_out() {
    let mut parts = vec!["t".to_string()];
    push_part(&mut parts, "CON");
    assert_eq!(parts, vec!["t".to_string()]);
    push_part(&mut parts, "My Fund");
    assert_eq!(parts, vec!["t".to_string(), "My_Fund".to_string()]);
}

#[test]
fn stems_join_the_time_and_the_names() {
    assert_eq!(
        stem_at("20240102-030405", "My Fund", Some("S&P 500")),
        "20240102-030405-My_Fund-S&P_500"
    );
    assert_eq!(stem_at("20240102-030405", "My Fund", None), "20240102-030405-My_Fund");
    assert_eq!(stem_at("20240102-030405", "???", Some("CON")), "20240102-030405");
    assert_eq!(stem_at("T", "", Some("SPX")), "T-SPX");
}

#[test]
fn the_stem_starts_with_a_time_stamp() {
    let s = stem("AAPL", Some("SPX"));
    assert!(s.ends_with("-AAPL-SPX"), "{s}");
    let time = &s[..s.len() - "-AAPL-SPX".len()];
    assert_eq!(time.len(), 15);
    assert_eq!(&time[8..9], "-");
    assert!(time.chars().enumerate().all(|(i, c)| i == 8 || c.is_ascii_digit()));
}

#[test]
fn hex8_pads_to_eight_lowercase_digits() {
    assert_eq!(hex8(0xdeadbeef), "deadbeef");
    assert_eq!(hex8(0), "00000000");
    assert_eq!(hex8(0x1f), "0000001f");
    assert_eq!(hex8(u32::MAX), "ffffffff");
    for x in [1u32, 0xabc, 0x1234_5678, 0x8000_0000] {
        assert_eq!(hex8(x), format!("{x:08x}"));
    }
}

#[test]
fn file_names_carry_a_random_suffix_and_the_extension() {
    let name = file_name("My Fund", Some("S&P 500"));
    assert!(name.ends_with(REPORT_EXTENSION), "{name}");
    let body = &name[..name.len() - REPORT_EXTENSION.len()];
    let (stem_part, suffix) = body.rsplit_once('-').unwrap();
    assert_eq!(suffix.len(), 8);
    assert!(suffix.chars().all(|c| c.is_ascii_hexdigit() && !c.is_ascii_uppercase()));
    assert!(stem_part.ends_with("-My_Fund-S&P_500"), "{stem_part}");
}

#[test]
fn the_browser_is_asked_for_only_explicitly() {
    assert!(!is_requested(&options()));
    assert!(!is_requested(&QuantstatsHtmlOptions { open_in_browser: Some(false), ..options() }));
    assert!(is_requested(&QuantstatsHtmlOptions { open_in_browser: Some(true), ..options() }));
}

#[test]
fn remote_paths_cannot_be_opened() {
    assert_eq!(
        local_path("s3://bucket/report.html"),
        Err(ReportError::NonLocalPath { path: "s3://bucket/report.html".to_string() })
    );
    assert_eq!(
        local_path("memory://x"),
        Err(ReportError::NonLocalPath { path: "memory://x".to_string() })
    );
}

#[test]
fn local_paths_become_absolute() {
    let p = local_path("reports/a.html").unwrap();
    assert!(p.is_absolute());
    assert!(p.ends_with("reports/a.html"));
    let p = local_path("C:/data/a.html").unwrap();
    assert!(p.ends_with("a.html"));
    assert_eq!(local_path("/tmp/report.html").unwrap(), std::path::PathBuf::from("/tmp/report.html"));
}

#[test]
fn an_empty_path_cannot_be_made_absolute() {
    match local_path("") {
        Err(ReportError::AbsolutePath { path, .. }) => assert_eq!(path, ""),
        other => panic!("unexpected {other:?}"),
    }
}

#[test]
fn temporary_names_prefer_the_strategy_title() {
    let o = QuantstatsHtmlOptions {
        title: Some("Report".to_string()),
        strategy_title: Some("My Fund".to_string()),
        benchmark_title: Some("S&P 500".to_string()),
        ..options()
    };
    assert_eq!(temporary_name_at("T", &o), "T-My_Fund-S&P_500");
    let o = QuantstatsHtmlOptions { title: Some("Report".to_string()), ..options() };
    assert_eq!(temporary_name_at("T", &o), "T-Report");
    assert_eq!(temporary_name_at("T", &options()), "T");
    let o = QuantstatsHtmlOptions { benchmark_title: Some("CON".to_string()), ..options() };
    assert_eq!(temporary_name_at("T", &o), "T");
    let o = QuantstatsHtmlOptions {
        strategy_title: Some("GOOGL".to_string()),
        benchmark: Some("SPX".to_string()),
        ..options()
    };
    assert_eq!(temporary_name_at("20240102-030405", &o), "20240102-030405-GOOGL-SPX");
    let o = QuantstatsHtmlOptions { benchmark_title: Some("S&P 500".to_string()), ..o };
    assert_eq!(temporary_name_at("T", &o), "T-GOOGL-S&P_500");
    let live = temporary_name(&QuantstatsHtmlOptions { title: Some("Report".to_string()), ..options() });
    assert!(live.ends_with("-Report"), "{live}");
}

#[test]
fn no_temporary_file_without_the_browser() {
    assert_eq!(temporary_file(&options()), Ok(None));
    let o = QuantstatsHtmlOptions { open_in_browser: Some(false), title: Some("x".to_string()), ..options() };
    assert_eq!(temporary_file(&o), Ok(None));
}

#[test]
fn a_temporary_file_is_created_for_the_browser() {
    let o = QuantstatsHtmlOptions {
        open_in_browser: Some(true),
        strategy_title: Some("Temp Test".to_string()),
        benchmark: Some("SPX".to_string()),
        ..options()
    };
    let path = temporary_file(&o).unwrap().unwrap();
    let file = std::path::Path::new(&path);
    assert!(file.exists());
    let name = file.file_name().unwrap().to_str().unwrap();
    assert!(name.contains("-Temp_Test-SPX-"), "{name}");
    let random = &name[name.find("-Temp_Test-SPX-").unwrap() + "-Temp_Test-SPX-".len()..name.len() - REPORT_EXTENSION.len()];
    assert!(!random.is_empty() && random.chars().all(|c| c.is_ascii_alphanumeric()), "{name}");
    assert!(name.ends_with(REPORT_EXTENSION));
}

#[test]
fn finished_parts_are_short_unbroken_and_not_trailing_underscores() {
    let inputs = [
        "  spaced   out  ",
        "tab\tand\nnewline",
        "trailing___",
        "a_very_long_name_that_goes_well_beyond_the_cap_of_the_part",
        "thirty-one characters exactly _ and more",
        "\u{3000}ideographic\u{3000}space\u{3000}",
        "",
    ];
    for input in inputs {
        let part = finish_part(input);
        assert!(part.chars().count() <= MAX_PART_CHARS, "{part}");
        assert!(!part.chars().any(char::is_whitespace), "{part}");
        assert!(!part.ends_with('_'), "{part}");
    }
}

#[test]
fn sanitized_parts_hold_no_illegal_or_control_character() {
    assert_eq!(sanitize_part("a\u{1}b\u{85}c/d"), "a_b_c_d");
    for input in ["x<y>z", "q?\"*|:", "tab\there", "\u{9f}bell\u{7}", "C:\\data\\file"] {
        let part = sanitize_part(input);
        assert!(
            !part.chars().any(|c| "/?<>\\:*|\"".contains(c)
                || (c as u32) <= 0x1f
                || (0x80..=0x9f).contains(&(c as u32))),
            "{input:?} gave {part:?}"
        );
    }
}
