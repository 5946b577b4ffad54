use droplet_rs::listing::{parse_listing, ListingError};

const RULER: &str =
    "------------------- ----- ------------ ------------  ------------------------";

fn banner() -> String {
    [
        "",
        "7-Zip [64] 16.02 : Copyright (c) 1999-2016 Igor Pavlov : 2016-05-21",
        "p7zip Version 16.02 (locale=en_US.UTF-8,Utf16=on,HugeFiles=on,64 bits,8 CPUs)",
        "",
        "Scanning the drive for archives:",
        "1 file, 1234 bytes (2 KiB)",
        "",
        "Listing archive: TheGame.zip",
        "",
        "--",
        "Path = TheGame.zip",
        "Type = zip",
        "Physical Size = 1234",
        "",
        "   Date      Time    Attr         Size   Compressed  Name",
    ]
    .join("\n")
}

const WIDE_RULER: &str =
    "------------------- ----- -------------------- ------------  ------------------------";

fn wide_row(size: &str, name: &str) -> String {
    format!("{} {} {:>20} {:>12}  {}", "2024-01-01 10:00:00", "....A", size, "512", name)
}

fn row(size: &str, name: &str) -> String {
    format!("{} {} {:>12} {:>12}  {}", "2024-01-01 10:00:00", "....A", size, "512", name)
}

#[test]
fn listing_reads_names_and_sizes() {
    let text = format!(
        "{}\n{}\n{}\n{}\n{}\n{}\n",
        banner(),
        RULER,
        row("1024", "game/bin/run.exe"),
        row("0", "empty file.txt"),
        RULER,
        "2024-01-01 10:00:00               1024          512  2 files"
    );
    let entries = parse_listing(&text.into_bytes()).unwrap();
    assert_eq!(entries.len(), 2);
    assert_eq!(entries[0].name, b"game/bin/run.exe".to_vec());
    assert_eq!(entries[0].size, 1024);
    assert_eq!(entries[1].name, b"empty file.txt".to_vec());
    assert_eq!(entries[1].size, 0);
}

#[test]
fn listing_with_crlf_lines_is_trimmed() {
    let text = format!("{}\r\n{}\r\n{}\r\n{}\r\n", banner(), RULER, row("+7", "a.bin"), RULER);
    let entries = parse_listing(&text.into_bytes()).unwrap();
    assert_eq!(entries.len(), 1);
    assert_eq!(entries[0].name, b"a.bin".to_vec());
    assert_eq!(entries[0].size, 7);
}

#[test]
fn listing_with_no_files() {
    let text = format!("{}\n{}\n{}\n", banner(), RULER, RULER);
    assert_eq!(parse_listing(&text.into_bytes()).unwrap().len(), 0);
}

#[test]
fn listing_without_ruler_is_refused() {
    let text = format!("{}\n", banner());
    assert!(matches!(parse_listing(&text.into_bytes()), Err(ListingError::NoRuler)));
    assert!(matches!(parse_listing(&Vec::new()), Err(ListingError::NoRuler)));
}

#[test]
fn ruler_with_too_few_columns_is_refused() {
    let text = format!("{}\n{}\n", banner(), "------- -----");
    assert!(matches!(parse_listing(&text.into_bytes()), Err(ListingError::BadColumns)));
}

#[test]
fn bad_size_is_refused() {
    let text = format!("{}\n{}\n{}\n{}\n", banner(), RULER, row("12x", "a"), RULER);
    assert!(matches!(parse_listing(&text.into_bytes()), Err(ListingError::BadLine)));
    let text = format!(
        "{}\n{}\n{}\n{}\n",
        banner(),
        WIDE_RULER,
        wide_row("18446744073709551616", "a"),
        WIDE_RULER
    );
    assert!(matches!(parse_listing(&text.into_bytes()), Err(ListingError::BadLine)));
}

#[test]
fn largest_size_is_read() {
    let text = format!(
        "{}\n{}\n{}\n{}\n",
        banner(),
        WIDE_RULER,
        wide_row("18446744073709551615", "a"),
        WIDE_RULER
    );
    let entries = parse_listing(&text.into_bytes()).unwrap();
    assert_eq!(entries[0].size, u64::MAX);
}

#[test]
fn short_line_is_refused() {
    let text = format!("{}\n{}\n{}\n", banner(), RULER, row("5", "a"));
    assert!(matches!(parse_listing(&text.into_bytes()), Err(ListingError::BadLine)));
}
