use memwatch::render::{final_frame, format_status_line, line_reset, render, status_frame};
use memwatch::sample::MemorySample;
use memwatch::units::UnitChoice;

const MB: u64 = 1024 * 1024;
const GB: u64 = 1024 * 1024 * 1024;

#[test]
fn status_line_of_nothing() {
    assert_eq!(format_status_line(0, 0, 0), "[00:00] RSS: 0.00 B | VSZ: 0.00 B");
}

#[test]
fn status_line_scales_each_value_on_its_own() {
    assert_eq!(
        format_status_line(75, 3 * MB + MB / 2, 2 * GB),
        "[01:15] RSS: 3.50 MB | VSZ: 2.00 GB"
    );
    assert_eq!(format_status_line(5, 512, 2048), "[00:05] RSS: 512.00 B | VSZ: 2.00 KB");
}

#[test]
fn seconds_are_the_remainder_and_minutes_the_quotient() {
    assert_eq!(format_status_line(59, 0, 0), "[00:59] RSS: 0.00 B | VSZ: 0.00 B");
    assert_eq!(format_status_line(60, 0, 0), "[01:00] RSS: 0.00 B | VSZ: 0.00 B");
    assert_eq!(format_status_line(61, 0, 0), "[01:01] RSS: 0.00 B | VSZ: 0.00 B");
    assert_eq!(format_status_line(599, 0, 0), "[09:59] RSS: 0.00 B | VSZ: 0.00 B");
    assert_eq!(format_status_line(600, 0, 0), "[10:00] RSS: 0.00 B | VSZ: 0.00 B");
}

#[test]
fn minutes_are_not_wrapped_at_sixty() {
    assert_eq!(format_status_line(3600, 0, 0), "[60:00] RSS: 0.00 B | VSZ: 0.00 B");
    assert_eq!(format_status_line(5999, 0, 0), "[99:59] RSS: 0.00 B | VSZ: 0.00 B");
    assert_eq!(format_status_line(6000, 0, 0), "[100:00] RSS: 0.00 B | VSZ: 0.00 B");
    assert_eq!(
        format_status_line(u64::MAX, 0, 0),
        "[307445734561825860:15] RSS: 0.00 B | VSZ: 0.00 B"
    );
}

#[test]
fn elapsed_part_agrees_with_std_formatting() {
    for secs in [0u64, 1, 9, 10, 59, 60, 61, 119, 120, 3599, 3600, 86399, 86400, 360000] {
        let line = format_status_line(secs, 0, 0);
        let expected = format!("[{:02}:{:02}] ", secs / 60, secs % 60);
        assert!(line.starts_with(&expected), "{} in {}", expected, line);
    }
}

#[test]
fn status_line_agrees_with_floating_point_formatting() {
    let values = [0u64, 1, 1023, 1024, 1152, 4096, 123456, MB - 1, MB, 7 * MB + 12345, GB, 3 * GB + 999];
    for rss in values {
        for vsz in values {
            let expected = format!("[02:05] RSS: {} | VSZ: {}", shown(rss), shown(vsz));
            assert_eq!(format_status_line(125, rss, vsz), expected);
        }
    }
}

fn shown(bytes: u64) -> String {
    if bytes >= GB {
        format!("{:.2} GB", bytes as f64 / 1073741824.0)
    } else if bytes >= MB {
        format!("{:.2} MB", bytes as f64 / 1048576.0)
    } else if bytes >= 1024 {
        format!("{:.2} KB", bytes as f64 / 1024.0)
    } else {
        format!("{:.2} B", bytes as f64)
    }
}

#[test]
fn render_with_automatic_unit_is_the_status_line() {
    let sample = MemorySample { resident_bytes: 5 * MB, virtual_bytes: 3 * GB };
    assert_eq!(render(42, sample, UnitChoice::Auto), format_status_line(42, 5 * MB, 3 * GB));
}

#[test]
fn render_with_fixed_unit_skips_scaling() {
    let sample = MemorySample { resident_bytes: 5 * MB, virtual_bytes: 3 * GB };
    assert_eq!(render(42, sample, UnitChoice::Kb), "[00:42] RSS: 5120.00 KB | VSZ: 3145728.00 KB");
    assert_eq!(render(42, sample, UnitChoice::Mb), "[00:42] RSS: 5.00 MB | VSZ: 3072.00 MB");
    assert_eq!(render(42, sample, UnitChoice::Gb), "[00:42] RSS: 0.00 GB | VSZ: 3.00 GB");
}

#[test]
fn render_with_fixed_unit_shows_small_values_in_it() {
    let sample = MemorySample { resident_bytes: 0, virtual_bytes: 512 };
    assert_eq!(render(0, sample, UnitChoice::Kb), "[00:00] RSS: 0.00 KB | VSZ: 0.50 KB");
}

#[test]
fn every_value_has_two_fraction_digits() {
    for bytes in [0u64, 1, 1023, 1024, 1100, 999999, MB, GB + 1, u64::MAX] {
        let line = format_status_line(0, bytes, bytes);
        let value = line.trim_start_matches("[00:00] RSS: ");
        let number = value.split(' ').next().unwrap();
        let fraction = number.split('.').nth(1).unwrap();
        assert_eq!(fraction.len(), 2, "{}", line);
        assert!(fraction.chars().all(|c| c.is_ascii_digit()));
    }
}

#[test]
fn line_reset_returns_and_clears_the_line() {
    assert_eq!(line_reset(), "\r\x1b[2K");
}

#[test]
fn status_frame_clears_before_the_line() {
    assert_eq!(status_frame("[00:01] RSS"), "\r\x1b[2K[00:01] RSS");
    assert_eq!(status_frame(""), "\r\x1b[2K");
}

#[test]
fn final_frame_ends_with_a_line_feed() {
    assert_eq!(final_frame("[00:01] RSS"), "\r\x1b[2K[00:01] RSS\n");
}
