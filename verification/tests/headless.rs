use cargo_shepherd::app::{App, DeleteOutcome};
use cargo_shepherd::file_path::FilePath;
use cargo_shepherd::headless::{
    candidates, clean_failure, clean_limits, clean_outcome, collect, confirm, is_candidate,
    plan_clean, project_label, render_table, report_row, run_clean, run_list, tally, CleanPlan,
    CleanStep, Mark, ReportRow,
};
use cargo_shepherd::quantity::{
    self, age_error, age_parts, is_yes, scale, size_error, size_parts, Number, QuantityError,
};
use cargo_shepherd::scan::{DiscoveredEntry, Measurement, OutputKind, TargetEntry};

const SECOND: i128 = 1_000_000_000;
const NOW: i128 = 1_700_000_000 * SECOND;

/// A floating-point number taken apart.
fn taken_apart(x: f64) -> Number {
    if x.is_nan() {
        return Number::Nan;
    }
    let negative = x.is_sign_negative();
    if x.is_infinite() {
        return Number::Infinite { negative };
    }
    let bits = x.to_bits();
    let raw_exponent = ((bits >> 52) & 0x7ff) as i32;
    let fraction = bits & 0xf_ffff_ffff_ffff;
    if raw_exponent == 0 {
        Number::Finite { negative, mantissa: fraction, exponent: -1074 }
    } else {
        Number::Finite {
            negative,
            mantissa: fraction | 0x10_0000_0000_0000,
            exponent: raw_exponent - 1075,
        }
    }
}

fn number(text: &str) -> Number {
    text.parse::<f64>().map(taken_apart).unwrap_or(Number::Invalid)
}

fn parse_size(raw: &str) -> Result<u64, QuantityError> {
    let n = size_parts(raw).map_or(Number::Invalid, |p| number(&p.number));
    quantity::parse_size(raw, n)
}

fn parse_age(raw: &str) -> Result<u64, QuantityError> {
    let n = age_parts(raw).map_or(Number::Invalid, |p| number(&p.number));
    quantity::parse_age(raw, n)
}

#[test]
fn sizes_use_binary_units() {
    assert_eq!(parse_size("512").unwrap(), 512);
    assert_eq!(parse_size("100MB").unwrap(), 100 * 1024 * 1024);
    assert_eq!(parse_size("1gib").unwrap(), 1024 * 1024 * 1024);
    assert_eq!(parse_size("2K").unwrap(), 2048);
    assert_eq!(
        parse_size("1.5GB").unwrap(),
        (1.5 * 1024.0 * 1024.0 * 1024.0) as u64
    );
}

#[test]
fn bad_sizes_fail() {
    assert!(parse_size("").is_err());
    assert!(parse_size("10XB").is_err());
    assert!(parse_size("-5MB").is_err());
}

#[test]
fn size_errors_say_why() {
    assert_eq!(parse_size("   "), Err(QuantityError::Empty));
    assert_eq!(parse_size("MB"), Err(QuantityError::Invalid));
    assert_eq!(parse_size("-5MB"), Err(QuantityError::Invalid));
    assert_eq!(parse_size("-0"), Ok(0));
    assert_eq!(parse_size("10XB"), Err(QuantityError::InvalidUnit));
    assert_eq!(size_error(QuantityError::Empty, ""), "empty size");
    assert_eq!(size_error(QuantityError::Invalid, "-5MB"), "invalid size: -5MB");
    assert_eq!(
        size_error(QuantityError::InvalidUnit, "10XB"),
        "invalid size unit in \"10XB\": use B, KB, MB, GB, or TB"
    );
    assert_eq!(
        size_error(QuantityError::InvalidUnit, "1\t\"q"),
        "invalid size unit in \"1\\t\\\"q\": use B, KB, MB, GB, or TB"
    );
}

#[test]
fn ages_parse_with_day_default() {
    assert_eq!(parse_age("30d").unwrap(), 30 * 86_400);
    assert_eq!(parse_age("30").unwrap(), 30 * 86_400);
    assert_eq!(parse_age("12h").unwrap(), 12 * 3600);
    assert_eq!(parse_age("1w").unwrap(), 7 * 86_400);
}

#[test]
fn months_and_years_use_fixed_lengths() {
    assert_eq!(parse_age("6mo").unwrap(), 6 * 30 * 86_400);
    assert_eq!(parse_age("2 months").unwrap(), 2 * 30 * 86_400);
    assert_eq!(parse_age("1y").unwrap(), 365 * 86_400);
    assert_eq!(parse_age("2years").unwrap(), 2 * 365 * 86_400);
    assert_eq!(parse_age("90m").unwrap(), 90 * 60);
}

#[test]
fn bad_ages_fail() {
    assert!(parse_age("").is_err());
    assert!(parse_age("10x").is_err());
}

#[test]
fn age_errors_say_why() {
    assert_eq!(parse_age(" "), Err(QuantityError::Empty));
    assert_eq!(parse_age("d"), Err(QuantityError::Invalid));
    assert_eq!(parse_age("-1d"), Err(QuantityError::Invalid));
    assert_eq!(parse_age("1.5.2d"), Err(QuantityError::Invalid));
    assert_eq!(age_error(QuantityError::Empty, ""), "empty age");
    assert_eq!(age_error(QuantityError::Invalid, "-1d"), "invalid age: -1d");
    assert_eq!(
        age_error(QuantityError::InvalidUnit, "10x"),
        "invalid age unit in \"10x\": use s, m, h, d, w, mo, or y"
    );
}

#[test]
fn units_are_cut_at_the_first_letter_of_any_script() {
    let parts = size_parts(" 12 µb").expect("not empty");
    assert_eq!((parts.number.as_str(), parts.unit.as_str()), ("12", "ΜB"));
    let parts = age_parts("3 Ωx").expect("not empty");
    assert_eq!((parts.number.as_str(), parts.unit.as_str()), ("3", "ωx"));
    assert!(size_parts("  ").is_none());
}

#[test]
fn scaling_rounds_as_floating_point_does() {
    let factors: [u64; 6] = [1, 60, 3_600, 86_400, 604_800, 31_536_000];
    let numbers = [
        0.0, 0.1, 0.3, 0.5, 1.1, 1.5, 2.7, 12.345678, 1e-9, 5e-324, 123456789.987654321,
        9007199254740993.0, 1.8446744073709552e19, 1e300, 0.000011574074074074,
    ];
    for f in factors {
        for x in numbers {
            assert_eq!(scale(taken_apart(x), f), (x * f as f64).round() as u64, "{x} {f}");
        }
    }
    assert_eq!(scale(taken_apart(f64::INFINITY), 7), u64::MAX);
    assert_eq!(scale(taken_apart(f64::NAN), 7), 0);
    assert_eq!(parse_size("99999999999999999999TB"), Ok(u64::MAX));
    assert_eq!(parse_age("0.5s"), Ok(1));
    assert_eq!(parse_age("0.4s"), Ok(0));
}

fn entry(size: Option<u64>, age: Option<i128>) -> TargetEntry {
    TargetEntry {
        project_path: FilePath::new("proj"),
        target_dir: FilePath::new("proj/target"),
        kind: OutputKind::Target,
        size,
        last_modified: age.map(|a| NOW - a * SECOND),
    }
}

#[test]
fn candidates_need_both_age_and_size() {
    let min_age = Some(30 * 86_400);
    let min_size = Some(100 * 1024 * 1024);
    let old_big = entry(Some(100 * 1024 * 1024 + 1), Some(31 * 86_400));
    assert!(is_candidate(&old_big, NOW, min_age, min_size));
    let edge = entry(Some(100 * 1024 * 1024), Some(30 * 86_400));
    assert!(!is_candidate(&edge, NOW, min_age, min_size));
    let fresh = entry(Some(100 * 1024 * 1024 + 1), Some(1));
    assert!(!is_candidate(&fresh, NOW, min_age, min_size));
    let small = entry(Some(1), Some(31 * 86_400));
    assert!(!is_candidate(&small, NOW, min_age, min_size));
    assert!(!is_candidate(&entry(None, None), NOW, min_age, min_size));
}

#[test]
fn single_filter_ignores_the_other() {
    let fresh_big = entry(Some(10 * 1024 * 1024 * 1024), Some(1));
    assert!(is_candidate(&fresh_big, NOW, None, Some(1024 * 1024 * 1024)));
    let old_small = entry(Some(1), Some(31 * 86_400));
    assert!(is_candidate(&old_small, NOW, Some(30 * 86_400), None));
}

#[test]
fn candidates_keep_their_order() {
    let entries = vec![
        entry(Some(5), Some(10)),
        entry(Some(1), Some(10)),
        entry(None, None),
        entry(Some(9), Some(10)),
        entry(Some(7), Some(-10)),
    ];
    assert_eq!(candidates(&entries, NOW, None, Some(4)), vec![0, 3, 4]);
    assert_eq!(candidates(&entries, NOW, Some(5), Some(4)), vec![0, 3]);
    assert_eq!(candidates(&entries, NOW, None, None), vec![0, 1, 2, 3, 4]);
}

#[test]
fn defaults_apply_only_without_any_limit() {
    let text = |s: &str| Some(s.to_string());
    assert_eq!(clean_limits(&None, &None), (text("30d"), text("100MB")));
    assert_eq!(clean_limits(&text("1w"), &None), (text("1w"), None));
    assert_eq!(clean_limits(&None, &text("1G")), (None, text("1G")));
}

fn plan(age: Option<&str>, size: Option<&str>) -> Result<(Option<u64>, Option<u64>, String), String> {
    let age = age.map(str::to_string);
    let size = size.map(str::to_string);
    let (age, size) = clean_limits(&age, &size);
    let age_number = age
        .as_deref()
        .and_then(age_parts)
        .map_or(Number::Invalid, |p| number(&p.number));
    let size_number = size
        .as_deref()
        .and_then(size_parts)
        .map_or(Number::Invalid, |p| number(&p.number));
    plan_clean(&age, &size, age_number, size_number)
        .map(|p| (p.min_age, p.min_size, p.description))
}

#[test]
fn clean_plans_describe_themselves() {
    assert_eq!(
        plan(None, None),
        Ok((
            Some(2_592_000),
            Some(104_857_600),
            "older than 30d and larger than 100MB".to_string()
        ))
    );
    assert_eq!(plan(Some("2h"), None), Ok((Some(7_200), None, "older than 2h".to_string())));
    assert_eq!(plan(None, Some("1K")), Ok((None, Some(1_024), "larger than 1K".to_string())));
    assert_eq!(plan(Some("x"), Some("y")), Err("invalid age: x".to_string()));
    assert_eq!(plan(Some("1d"), Some("y")), Err("invalid size: y".to_string()));
}

#[test]
fn answers_mean_yes_in_any_case() {
    for line in ["y", "Y", " yes\n", "YES", "Yes \r\n"] {
        assert!(is_yes(line), "{line:?}");
        assert!(matches!(confirm(line).1, CleanStep::Delete));
    }
    for line in ["", "n", "yep", "ja", "y e s"] {
        assert!(!is_yes(line), "{line:?}");
        let (said, step) = confirm(line);
        assert_eq!(said, "Aborted.\n");
        assert!(matches!(step, CleanStep::Stop));
    }
}

fn row(name: &str, size: &str, modified: &str, path: &str) -> ReportRow {
    ReportRow {
        name: name.to_string(),
        size: size.to_string(),
        modified: modified.to_string(),
        path: path.to_string(),
    }
}

#[test]
fn report_columns_are_aligned() {
    let rows = vec![
        row("a-long-project", "1 B", "now", "~/a"),
        row("b", "1.25 GiB", "3 weeks ago", "/b"),
    ];
    assert_eq!(
        render_table(&rows),
        "PROJECT            SIZE MODIFIED    PATH\n\
         a-long-project      1 B now         ~/a\n\
         b              1.25 GiB 3 weeks ago /b\n"
    );
    assert_eq!(render_table(&vec![]), "PROJECT SIZE MODIFIED PATH\n");
    // Widths count bytes, padding counts characters.
    assert_eq!(
        render_table(&vec![row("ääääää", "-", "-", "p")]),
        "PROJECT      SIZE MODIFIED PATH\nääääää          - -        p\n"
    );
}

#[test]
fn rows_show_what_is_known_of_an_entry() {
    let home = Some(FilePath::new("/home/u"));
    let mark = Mark {
        place: Some(FilePath::new("/home/u/w/proj/target")),
        suffix: Some(" (build)".to_string()),
    };
    let r = report_row(&entry(Some(100), Some(120)), &mark, &home, NOW);
    assert_eq!(r.name, "proj (build)");
    assert_eq!(r.size, "100 B");
    assert_eq!(r.modified, "2 minutes ago");
    assert_eq!(r.path, "~/w/proj/target");
    let r = report_row(&entry(None, None), &Mark { place: None, suffix: None }, &home, NOW);
    assert_eq!((r.size.as_str(), r.modified.as_str()), ("-", "-"));
    assert_eq!(r.path, "proj/target");
    assert_eq!(project_label(&entry(None, None), None), "proj");
}

/// A scan that found and measured projects of the given sizes, each an hour
/// old.
fn scanned(projects: &[(&str, u64)]) -> App {
    let found = projects
        .iter()
        .map(|p| DiscoveredEntry::from(FilePath::new(p.0)))
        .collect();
    let measured: Vec<Measurement> = projects
        .iter()
        .map(|p| Measurement {
            target_dir: FilePath::new(p.0).join("target"),
            size: p.1,
            last_modified: Some(NOW - 3_600 * SECOND),
        })
        .collect();
    collect(FilePath::new("."), None, found, &measured, None, 0)
}

#[test]
fn lists_count_and_add_up() {
    assert_eq!(
        run_list(&scanned(&[]), &vec![], &None, NOW),
        "No target/ directories found.\n"
    );
    assert_eq!(
        run_list(&scanned(&[("/w/p", 10)]), &vec![], &None, NOW),
        "PROJECT SIZE MODIFIED   PATH\n\
         p       10 B 1 hour ago /w/p/target\n\
         \n1 project · 10 B total\n"
    );
    let marks = vec![Mark {
        place: Some(FilePath::new("/home/u/b")),
        suffix: Some("*".to_string()),
    }];
    assert_eq!(
        run_list(
            &scanned(&[("/w/a", 10), ("/w/b", 20)]),
            &marks,
            &Some(FilePath::new("/home/u")),
            NOW
        ),
        "PROJECT SIZE MODIFIED   PATH\n\
         b*      20 B 1 hour ago ~/b\n\
         a       10 B 1 hour ago /w/a/target\n\
         \n2 projects · 30 B total\n"
    );
}

fn limits(min_age: Option<u64>, min_size: Option<u64>, description: &str) -> CleanPlan {
    CleanPlan { min_age, min_size, description: description.to_string() }
}

#[test]
fn clean_asks_unless_told_not_to() {
    let app = scanned(&[("/w/a", 10), ("/w/b", 20), ("/w/c", 5)]);
    let limit = limits(Some(60), Some(5), "older than 1m and larger than 5");
    let r = run_clean(&app, &limit, NOW, &vec![], &None, NOW, false);
    assert_eq!(
        r.text,
        "Candidates older than 1m and larger than 5:\n\
         PROJECT SIZE MODIFIED   PATH\n\
         b       20 B 1 hour ago /w/b/target\n\
         a       10 B 1 hour ago /w/a/target\n\
         \n2 directories · 30 B reclaimable\n"
    );
    assert_eq!(r.found, vec![0, 1]);
    assert!(matches!(r.step, CleanStep::Ask(q) if q == "Delete 2 directories? [y/N] "));
    let r = run_clean(&app, &limit, NOW, &vec![], &None, NOW, true);
    assert!(matches!(r.step, CleanStep::Delete));
    let r = run_clean(&app, &limits(None, Some(15), "x"), NOW, &vec![], &None, NOW, true);
    assert!(r.text.ends_with("\n1 directory · 20 B reclaimable\n"));
    let none = limits(None, Some(1_024), "larger than 1K");
    let r = run_clean(&app, &none, NOW, &vec![], &None, NOW, true);
    assert_eq!(r.text, "Nothing to clean: no target/ dirs larger than 1K.\n");
    assert!(r.found.is_empty());
    assert!(matches!(r.step, CleanStep::Stop));
}

#[test]
fn missing_directories_count_as_deleted() {
    let entries = vec![
        entry(Some(10), Some(1)),
        entry(Some(20), Some(1)),
        entry(Some(40), Some(1)),
        entry(None, None),
    ];
    let found = vec![0, 1, 3];
    let outcomes = vec![
        DeleteOutcome::Removed,
        DeleteOutcome::Failed("denied".to_string()),
        DeleteOutcome::Missing,
    ];
    let t = tally(&entries, &found, &outcomes);
    assert_eq!((t.deleted, t.freed), (2, 10));
    assert_eq!(t.failures, vec!["proj/target: denied"]);
    assert_eq!(clean_outcome(&t), "Deleted 2 directories, freed 10 B.\n");
    assert_eq!(clean_failure(&t).as_deref(), Some("failed to delete 1 directories"));
    let fine = tally(
        &entries,
        &found,
        &vec![DeleteOutcome::Removed, DeleteOutcome::Removed, DeleteOutcome::Removed],
    );
    assert_eq!(clean_failure(&fine), None);
}

#[test]
fn collecting_sorts_and_adds_up() {
    let found = vec![
        DiscoveredEntry::from(FilePath::new("a")),
        DiscoveredEntry::from(FilePath::new("b")),
    ];
    let ms = vec![
        Measurement { target_dir: FilePath::new("a/target"), size: 1, last_modified: Some(0) },
        Measurement { target_dir: FilePath::new("b/target"), size: 2, last_modified: Some(0) },
    ];
    let app = collect(FilePath::new("."), None, found, &ms, None, 0);
    assert_eq!(app.entries[0].project_name(), "b");
    assert_eq!(app.total_size, 3);
    assert!(!app.scanning);
}


#[test]
fn whole_numbers_scale_exactly_however_they_are_taken_apart() {
    for (n, factor) in [(0u64, 1024u64), (1, 1), (7, 86_400), (1_023, 1_099_511_627_776)] {
        for k in [0, 1, 20, 43] {
            let shifted = Number::Finite { negative: false, mantissa: n << k, exponent: -k };
            assert_eq!(scale(shifted, factor), n * factor, "{n} {k}");
        }
        assert_eq!(scale(taken_apart(n as f64), factor), n * factor, "{n}");
    }
}
