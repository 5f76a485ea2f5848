use envcache::cache::{
    cache_age, cache_text, format_age, meta_text, needs_refresh, new_meta, read_cache,
    read_meta, refresh_due_at, write_cache, CacheMeta, ClockReading, MetaError,
};
use envcache::config::Config;

fn test_config() -> Config {
    Config {
        secrets_file: "/home/u/.envcache.secrets".to_string(),
        cache_file: "/home/u/.envrc.cache".to_string(),
        meta_file: "/home/u/.envrc.cache.meta".to_string(),
        ttl: 28800,
        force: false,
    }
}

const SECRETS: &[u8] = b"VAR|op://vault/item/field\n";

fn clock_at(timestamp: i64) -> ClockReading {
    ClockReading { date: "2024-05-06".to_string(), timestamp }
}

fn now() -> ClockReading {
    clock_at(1_714_953_600)
}

#[test]
fn test_needs_refresh_no_cache() {
    let config = test_config();
    assert!(needs_refresh(&config, false, "", SECRETS, &now()).unwrap());
}

#[test]
fn test_needs_refresh_force() {
    let mut config = test_config();
    config.force = true;
    assert!(needs_refresh(&config, false, "", SECRETS, &now()).unwrap());
}

#[test]
fn test_write_and_read_cache() {
    let secrets = vec![
        ("MY_KEY".to_string(), "secret-value".to_string()),
        ("OTHER".to_string(), "other-value".to_string()),
    ];

    let files = write_cache(&secrets, SECRETS, &now());
    let read_back = read_cache(&files.cache_text);

    assert_eq!(read_back.len(), 2);
    assert_eq!(
        read_back[0],
        ("MY_KEY".to_string(), "secret-value".to_string())
    );
    assert_eq!(
        read_back[1],
        ("OTHER".to_string(), "other-value".to_string())
    );
}

#[test]
fn test_needs_refresh_after_write() {
    let config = test_config();
    let secrets = vec![("KEY".to_string(), "val".to_string())];
    let files = write_cache(&secrets, SECRETS, &now());
    let meta = files.meta_text;

    // Should not need refresh — cache is fresh
    assert!(!needs_refresh(&config, true, &meta, SECRETS, &now()).unwrap());
}

#[test]
fn test_needs_refresh_secrets_changed() {
    let config = test_config();
    let secrets = vec![("KEY".to_string(), "val".to_string())];
    let files = write_cache(&secrets, SECRETS, &now());
    let meta = files.meta_text;

    // Modify secrets file
    let changed: &[u8] = b"VAR|op://vault/item/field\nNEW|op://vault/item/new\n";

    assert!(needs_refresh(&config, true, &meta, changed, &now()).unwrap());
}

#[test]
fn cache_text_escapes_single_quotes() {
    let secrets = vec![("K".to_string(), "it's".to_string())];
    assert_eq!(cache_text(&secrets), "export K='it'\\''s'\n");
}

#[test]
fn cache_text_of_nothing_is_empty() {
    assert_eq!(cache_text(&[]), "");
}

#[test]
fn quoted_values_read_back_unchanged() {
    let secrets = vec![
        ("K".to_string(), "it's".to_string()),
        ("Q".to_string(), "'".to_string()),
        ("R".to_string(), "''x'\\''".to_string()),
        ("E".to_string(), "".to_string()),
        ("S".to_string(), " spaced = out ".to_string()),
    ];
    let back = read_cache(&cache_text(&secrets));
    assert_eq!(back, secrets);
}

#[test]
fn unquoted_or_half_quoted_values_lose_their_edge_quotes() {
    assert_eq!(read_cache("export A='x\n"), vec![("A".to_string(), "x".to_string())]);
    assert_eq!(read_cache("export A=x'\n"), vec![("A".to_string(), "x".to_string())]);
    assert_eq!(read_cache("export A='\n"), vec![("A".to_string(), "".to_string())]);
}

#[test]
fn read_cache_skips_other_lines_and_trims() {
    let text = "# comment\n  export A='1'  \r\nexport B=two\nexport NOEQ\nunset C\nexport D=''\n\nexport E='x=y'";
    let back = read_cache(text);
    assert_eq!(
        back,
        vec![
            ("A".to_string(), "1".to_string()),
            ("B".to_string(), "two".to_string()),
            ("D".to_string(), "".to_string()),
            ("E".to_string(), "x=y".to_string()),
        ]
    );
}

#[test]
fn meta_round_trip() {
    let meta = CacheMeta {
        date: "2024-05-06".to_string(),
        timestamp: -1234567890123,
        secrets_hash: "00000000000000ff".to_string(),
    };
    let text = meta_text(&meta);
    assert_eq!(text, "2024-05-06\n-1234567890123\n00000000000000ff\n");
    let back = read_meta(&text).unwrap();
    assert_eq!(back.date, meta.date);
    assert_eq!(back.timestamp, meta.timestamp);
    assert_eq!(back.secrets_hash, meta.secrets_hash);
}

#[test]
fn meta_with_too_few_lines() {
    assert_eq!(read_meta("2024-01-01\n17\n").unwrap_err(), MetaError::TooFewLines(2));
    assert_eq!(read_meta("").unwrap_err(), MetaError::TooFewLines(0));
}

#[test]
fn meta_with_bad_timestamp() {
    assert_eq!(read_meta("2024-01-01\n17s\nabc\n").unwrap_err(), MetaError::BadTimestamp);
    assert_eq!(
        read_meta("2024-01-01\n99999999999999999999\nabc\n").unwrap_err(),
        MetaError::BadTimestamp
    );
}

#[test]
fn needs_refresh_passes_meta_error_on() {
    let config = test_config();
    assert_eq!(
        needs_refresh(&config, true, "only one line", SECRETS, &now()).unwrap_err(),
        MetaError::TooFewLines(1)
    );
}

#[test]
fn refresh_due_rules() {
    let meta = CacheMeta {
        date: "2024-01-01".to_string(),
        timestamp: 1000,
        secrets_hash: "h".to_string(),
    };
    let same_day = |t: i64| ClockReading { date: "2024-01-01".to_string(), timestamp: t };
    assert!(!refresh_due_at(&meta, &same_day(1000), 10));
    assert!(!refresh_due_at(&meta, &same_day(1010), 10));
    assert!(refresh_due_at(&meta, &same_day(1011), 10));
    let next_day = ClockReading { date: "2024-01-02".to_string(), timestamp: 1001 };
    assert!(refresh_due_at(&meta, &next_day, 10));
    // a clock that went back is not stale
    assert!(!refresh_due_at(&meta, &same_day(0), 10));
    // a TTL beyond i64::MAX is taken as it is
    assert!(!refresh_due_at(&meta, &same_day(i64::MAX), u64::MAX));
}

#[test]
fn age_texts() {
    assert_eq!(format_age(7500, 0), "2h5m old");
    assert_eq!(format_age(59, 0), "0m old");
    assert_eq!(format_age(3600, 0), "1h0m old");
    assert_eq!(format_age(0, 120), "-2m old");
    assert_eq!(format_age(100, 100), "0m old");
}

#[test]
fn cache_age_reads_meta() {
    assert_eq!(cache_age("x\n", &now()).unwrap_err(), MetaError::TooFewLines(1));
    let meta = meta_text(&new_meta(SECRETS, &now()));
    let age = cache_age(&meta, &clock_at(1_714_953_600 + 7500)).unwrap();
    assert_eq!(age, "2h5m old");
}

#[test]
fn new_meta_hashes_the_secrets() {
    let meta = new_meta(b"", &now());
    assert_eq!(meta.secrets_hash, "0000000000000000");
    assert_eq!(meta.date, "2024-05-06");
    assert_eq!(meta.timestamp, 1_714_953_600);
}

#[test]
fn stale_after_ttl_or_on_a_new_day() {
    let config = test_config();
    let meta = files_meta();
    assert!(!needs_refresh(&config, true, &meta, SECRETS, &clock_at(1_714_953_600 + 28800)).unwrap());
    assert!(needs_refresh(&config, true, &meta, SECRETS, &clock_at(1_714_953_600 + 28801)).unwrap());
    let tomorrow = ClockReading { date: "2024-05-07".to_string(), timestamp: 1_714_953_601 };
    assert!(needs_refresh(&config, true, &meta, SECRETS, &tomorrow).unwrap());
}

fn files_meta() -> String {
    write_cache(&[("K".to_string(), "v".to_string())], SECRETS, &now()).meta_text
}

#[test]
fn time_differences_do_not_wrap() {
    let meta = CacheMeta {
        date: "2024-01-01".to_string(),
        timestamp: i64::MIN,
        secrets_hash: "h".to_string(),
    };
    let clock = ClockReading { date: "2024-01-01".to_string(), timestamp: 1 };
    assert!(refresh_due_at(&meta, &clock, 28800));
    assert_eq!(format_age(i64::MAX, i64::MIN), "5124095576030431h0m old");
    assert_eq!(format_age(i64::MIN, i64::MAX), "0m old");
    assert_eq!(format_age(i64::MIN, i64::MIN + 7 * 60), "-7m old");
}

#[test]
fn stray_quotes_are_trimmed() {
    assert_eq!(read_cache("export K='''\n"), vec![("K".to_string(), "".to_string())]);
    assert_eq!(read_cache("export K='a'b'\n"), vec![("K".to_string(), "a'b".to_string())]);
}

#[test]
fn written_meta_reads_back_and_is_fresh() {
    let files = write_cache(&[("K".to_string(), "v".to_string())], SECRETS, &now());
    let back = read_meta(&files.meta_text).unwrap();
    assert_eq!(back.date, files.meta.date);
    assert_eq!(back.timestamp, files.meta.timestamp);
    assert_eq!(back.secrets_hash, files.meta.secrets_hash);
    assert_eq!(cache_age(&files.meta_text, &now()).unwrap(), "0m old");
    assert_eq!(cache_age(&files.meta_text, &clock_at(1_714_953_600 + 59)).unwrap(), "0m old");
}
