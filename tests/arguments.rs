use btrfs_dedupe::arguments::{parse_size, Arguments, Command};

#[test]
fn parse_size_iec_units() {
    assert_eq!(parse_size("1KiB"), Ok(1024));
    assert_eq!(parse_size("64MiB"), Ok(64 * 1024 * 1024));
    assert_eq!(parse_size("2GiB"), Ok(2 * 1024 * 1024 * 1024));
    assert_eq!(parse_size("8GiB"), Ok(8 * 1024 * 1024 * 1024));
    assert_eq!(parse_size("1TiB"), Ok(1024u64 * 1024 * 1024 * 1024));
}

#[test]
fn parse_size_si_units() {
    assert_eq!(parse_size("1KB"), Ok(1000));
    assert_eq!(parse_size("5MB"), Ok(5_000_000));
    assert_eq!(parse_size("3GB"), Ok(3_000_000_000));
    assert_eq!(parse_size("2TB"), Ok(2_000_000_000_000));
}

#[test]
fn parse_size_short_units_are_iec() {
    assert_eq!(parse_size("3K"), Ok(3072));
    assert_eq!(parse_size("1M"), Ok(1024 * 1024));
    assert_eq!(parse_size("1G"), Ok(1024 * 1024 * 1024));
    assert_eq!(parse_size("1T"), Ok(1024u64 * 1024 * 1024 * 1024));
}

#[test]
fn parse_size_bytes() {
    assert_eq!(parse_size("100B"), Ok(100));
    assert_eq!(parse_size("0B"), Ok(0));
    assert_eq!(parse_size("+7B"), Ok(7));
    assert_eq!(parse_size("4096"), Ok(4096));
    assert_eq!(parse_size("0"), Ok(0));
    assert_eq!(parse_size("18446744073709551615"), Ok(u64::MAX));
}

#[test]
fn parse_size_errors() {
    assert_eq!(parse_size("12X"), Err("Units not specified or recognised".to_string()));
    assert_eq!(parse_size(""), Err("Units not specified or recognised".to_string()));
    assert_eq!(parse_size("1 KiB"), Err("Unable to parse integer value".to_string()));
    assert_eq!(parse_size("KiB"), Err("Unable to parse integer value".to_string()));
    assert_eq!(parse_size("1.5GiB"), Err("Unable to parse integer value".to_string()));
    assert_eq!(parse_size("-1KiB"), Err("Unable to parse integer value".to_string()));
    assert_eq!(parse_size("+B"), Err("Unable to parse integer value".to_string()));
    assert_eq!(
        parse_size("99999999999999999999B"),
        Err("Unable to parse integer value".to_string())
    );
    assert_eq!(parse_size("20000000TiB"), Err("Size too large".to_string()));
}

#[test]
fn arguments_hold_configuration() {
    let args = Arguments {
        command: Command::Dedupe,
        database_path: None,
        minimum_file_size: parse_size("1KiB").unwrap(),
        content_hash_batch_size: parse_size("2GiB").unwrap(),
        extent_hash_batch_size: parse_size("8GiB").unwrap(),
        dedupe_batch_size: parse_size("64MiB").unwrap(),
        dedupe_sleep_time: 5,
        root_paths: vec![b"/data".to_vec()],
    };
    assert_eq!(args.command, Command::Dedupe);
    assert_eq!(args.minimum_file_size, 1024);
    assert_eq!(args.root_paths.len(), 1);
}
