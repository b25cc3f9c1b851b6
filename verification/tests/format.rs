use cargo_shepherd::file_path::FilePath;
use cargo_shepherd::scan::{OutputKind, TargetEntry};
use cargo_shepherd::ui::format::{
    display_path, format_age, format_modified_at, format_modified_entry, format_modified_opt,
    format_size, format_size_opt, size_style, Heat,
};

const SECOND: u128 = 1_000_000_000;
const NOW: i128 = 1_700_000_000_000_000_000;

fn secs(n: u128) -> String {
    format_age(n * SECOND)
}

#[test]
fn relative_ages_use_exact_vocab() {
    assert_eq!(secs(0), "now");
    assert_eq!(secs(4), "now");
    assert_eq!(secs(5), "5 seconds ago");
    assert_eq!(secs(30), "30 seconds ago");
    assert_eq!(secs(60), "1 minute ago");
    assert_eq!(secs(3600), "1 hour ago");
    assert_eq!(secs(23 * 3600), "23 hours ago");
    assert_eq!(secs(36 * 3600), "yesterday");
    assert_eq!(secs(3 * 86_400), "3 days ago");
}

#[test]
fn yesterday_window_edges() {
    assert_eq!(secs(86_399), "23 hours ago");
    assert_eq!(secs(86_400), "yesterday");
    assert_eq!(secs(172_799), "yesterday");
    assert_eq!(secs(172_800), "2 days ago");
}

#[test]
fn long_ages_use_weeks_months_and_years() {
    assert_eq!(secs(604_799), "6 days ago");
    assert_eq!(secs(604_800), "1 week ago");
    assert_eq!(secs(2_628_002), "4 weeks ago");
    assert_eq!(secs(2_628_003), "1 month ago");
    assert_eq!(secs(31_536_035), "11 months ago");
    assert_eq!(secs(31_536_036), "1 year ago");
    assert_eq!(secs(63_072_072), "2 years ago");
    assert_eq!(secs(119), "1 minute ago");
    assert_eq!(format_age(6 * SECOND - 1), "5 seconds ago");
    assert_eq!(secs(u64::MAX as u128), format!("{} years ago", u64::MAX / 31_536_036));
    assert_eq!(format_age(u128::MAX), secs(u64::MAX as u128));
}

#[test]
fn future_timestamp_reads_as_now() {
    assert_eq!(format_modified_at(NOW + 60 * 1_000_000_000, NOW), "now");
}

#[test]
fn deleted_dir_reads_as_deleted() {
    assert_eq!(format_modified_opt(None, NOW), "deleted");
    assert_eq!(format_modified_opt(Some(NOW), NOW), "now");
}

#[test]
fn times_before_the_epoch_have_an_age() {
    assert_eq!(format_modified_at(-60_000_000_000, 60_000_000_000), "2 minutes ago");
    assert_eq!(format_modified_at(-180_000_000_000, -60_000_000_000), "2 minutes ago");
    assert_eq!(format_modified_at(i128::MAX, i128::MIN), "now");
    assert_eq!(format_modified_at(i128::MIN, i128::MAX), secs(u64::MAX as u128));
}

#[test]
fn pending_entries_read_as_dash() {
    assert_eq!(format_size_opt(None), "-");
    assert_eq!(format_size_opt(Some(0)), "0 B");
    let pending = TargetEntry {
        project_path: FilePath::new("proj-a"),
        target_dir: FilePath::new("proj-a/target"),
        kind: OutputKind::Target,
        size: None,
        last_modified: None,
    };
    assert_eq!(format_modified_entry(&pending, NOW), "-");
}

#[test]
fn sizes_pick_the_largest_unit_that_fits() {
    assert_eq!(format_size(0), "0 B");
    assert_eq!(format_size(100), "100 B");
    assert_eq!(format_size(1023), "1023 B");
    assert_eq!(format_size(1024), "1 KiB");
    assert_eq!(format_size(1536), "1.5 KiB");
    assert_eq!(format_size(1024 * 1024 - 1), "1024 KiB");
    assert_eq!(format_size(1024 * 1024), "1 MiB");
    assert_eq!(format_size(5 * 1024 * 1024 * 1024 / 4), "1.25 GiB");
    assert_eq!(format_size(3 << 40), "3 TiB");
    assert_eq!(format_size(2048 << 40), "2048 TiB");
}

#[test]
fn size_cells_heat_with_magnitude() {
    const MIB: u64 = 1024 * 1024;
    const GIB: u64 = 1024 * MIB;
    assert_eq!(size_style(None), Heat::Dim);
    assert_eq!(size_style(Some(0)), Heat::Dim);
    assert_eq!(size_style(Some(50 * MIB - 1)), Heat::Dim);
    assert_eq!(size_style(Some(50 * MIB)), Heat::Plain);
    assert_eq!(size_style(Some(GIB - 1)), Heat::Plain);
    assert_eq!(size_style(Some(GIB)), Heat::Amber);
    assert_eq!(size_style(Some(5 * GIB - 1)), Heat::Amber);
    assert_eq!(size_style(Some(5 * GIB)), Heat::Rose);
}

fn shown(path: &str, home: Option<&str>) -> String {
    display_path(&FilePath::new(path), &home.map(FilePath::new))
}

#[test]
fn home_contracts_to_a_tilde() {
    assert_eq!(shown("/home/u", Some("/home/u")), "~");
    assert_eq!(shown("/home/u/", Some("/home/u/")), "~");
    assert_eq!(shown("/home/u/w/x", Some("/home/u")), "~/w/x");
    assert_eq!(shown("/home/u//w/./x/.", Some("/home/u")), "~/w/./x");
    assert_eq!(shown("/home/user/w", Some("/home/u")), "/home/user/w");
    assert_eq!(shown("/srv/w", Some("/home/u")), "/srv/w");
    assert_eq!(shown("/srv/w", Some("")), "/srv/w");
    assert_eq!(shown("/srv/w", None), "/srv/w");
    assert_eq!(shown("/srv/w", Some("/")), "~/srv/w");
}

#[test]
fn bytes_that_are_no_text_are_replaced() {
    let path = FilePath::from_bytes(vec![b'/', b'a', 0xff, b'b']);
    assert_eq!(display_path(&path, &None), "/a\u{fffd}b");
    assert_eq!(FilePath::new("/ä").to_text(), "/ä");
}
