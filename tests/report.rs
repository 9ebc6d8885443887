use diskhound::group::{Group, GroupStats, Totals};
use diskhound::report::{bar_filled, bar_text, build_report, percent_hundredths, BAR_WIDTH};

#[test]
fn percentage_of_empty_total_is_zero() {
    assert_eq!(percent_hundredths(0, 0), 0);
    assert_eq!(percent_hundredths(5, 0), 0);
}

#[test]
fn percentage_in_hundredths() {
    assert_eq!(percent_hundredths(30, 38), 7895);
    assert_eq!(percent_hundredths(5, 38), 1316);
    assert_eq!(percent_hundredths(38, 38), 10000);
    assert_eq!(percent_hundredths(1, 3), 3333);
    assert_eq!(percent_hundredths(2, 3), 6667);
    assert_eq!(percent_hundredths(u64::MAX, u64::MAX), 10000);
}

#[test]
fn bar_is_proportional_to_largest() {
    assert_eq!(bar_filled(30, 30, BAR_WIDTH), 20);
    assert_eq!(bar_filled(5, 30, BAR_WIDTH), 3);
    assert_eq!(bar_filled(15, 30, BAR_WIDTH), 10);
    assert_eq!(bar_filled(3, 40, BAR_WIDTH), 2);
    assert_eq!(bar_filled(0, 0, BAR_WIDTH), 0);
}

#[test]
fn bar_text_has_fixed_width() {
    assert_eq!(bar_text(3, 5), "\u{2588}\u{2588}\u{2588}\u{2591}\u{2591}");
    assert_eq!(bar_text(0, 2), "\u{2591}\u{2591}");
}

#[test]
fn report_rows_and_summary() {
    let selected = vec![
        Group { key: "a".to_string(), stats: GroupStats { size: 30, file_count: 2 } },
        Group { key: "c".to_string(), stats: GroupStats { size: 1024, file_count: 1 } },
    ];
    let totals = Totals { total_size: 2048, total_files: 4, total_dirs: 3 };
    let r = build_report(&selected, totals);
    assert_eq!(r.rows.len(), 2);
    assert_eq!(r.rows[0].name, "a");
    assert_eq!(r.rows[0].size_human, "30 B");
    assert_eq!(r.rows[0].bar_filled, 1);
    assert_eq!(r.rows[0].percent_hundredths, 146);
    assert_eq!(r.rows[1].size_human, "1 KiB");
    assert_eq!(r.rows[1].bar_filled, 20);
    assert_eq!(r.rows[1].percent_hundredths, 5000);
    assert_eq!(r.rows[1].file_count, 1);
    assert_eq!(r.summary.total_size_human, "2 KiB");
    assert_eq!(r.summary.shown, 2);
    assert_eq!(r.summary.total_files, 4);
    assert_eq!(r.summary.total_dirs, 3);
}

#[test]
fn empty_report_is_valid() {
    let r = build_report(&Vec::new(), Totals { total_size: 0, total_files: 0, total_dirs: 0 });
    assert!(r.rows.is_empty());
    assert_eq!(r.summary.shown, 0);
    assert_eq!(r.summary.total_size_human, "0 B");
}
