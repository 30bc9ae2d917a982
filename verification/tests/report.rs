use gugolpi::config::{Module, RunConfig};
use gugolpi::report::{
    csv_row, format_thousands, group_key, result_file_name, status_label, suite_dir_name, truncate,
};
use gugolpi::result::VerificationStatus;

#[test]
fn thousands_separator() {
    assert_eq!(format_thousands(0), "0");
    assert_eq!(format_thousands(999), "999");
    assert_eq!(format_thousands(1_000), "1\u{202f}000");
    assert_eq!(format_thousands(32_000_000), "32\u{202f}000\u{202f}000");
}

#[test]
fn csv_fields_are_quoted_when_needed() {
    assert_eq!(csv_row(&vec!["pi", "1M", "12.5"]), "pi,1M,12.5\n");
    assert_eq!(csv_row(&vec!["a,b", "say \"hi\"", ""]), "\"a,b\",\"say \"\"hi\"\"\",\n");
    assert_eq!(csv_row(&vec![]), "\n");
}

#[test]
fn long_labels_are_cut() {
    assert_eq!(truncate("radical", 10), "radical");
    assert_eq!(truncate("radical 1024M multi", 10), "radical 1…");
    assert_eq!(truncate("abc", 0), "…");
}

#[test]
fn status_labels() {
    assert_eq!(status_label(VerificationStatus::Passed), "correcta");
    assert_eq!(status_label(VerificationStatus::Failed), "FALLIDA");
    assert_eq!(status_label(VerificationStatus::Unverified), "sin ref.");
}

#[test]
fn names_of_directories_and_files() {
    assert_eq!(suite_dir_name("trio", "2026-09-24T12:34:56Z"), "trio-20260924T123456Z");
    let config = RunConfig::new(Module::Pi, "1M").expect("1M");
    assert_eq!(group_key(&config), "pi 1M single");
    assert_eq!(result_file_name(&config, "2026-09-24T12:34:56Z", 0), "pi-1M-single-20260924T123456Z.json");
    assert_eq!(result_file_name(&config, "2026-09-24T12:34:56Z", 2), "pi-1M-single-20260924T123456Z-2.json");
}
