use elicznik::DecodeError;
use elicznik::config::{config_read_postgres, config_read_tauron, ConfigError, ConfigKey, Database};
use elicznik::csv_format::parse;
use elicznik::date::Date;
use elicznik::decimal::{parse_decimal, encode_decimal, Decimal};
use elicznik::fetch::{FetchStrategy, HttpMethod, RangeError, Scraper, validate_range};
use elicznik::json_format::{decode_document, encode_document};
use elicznik::paths::change_file_name;
use elicznik::reading::{kind_from_category, parse_csv_timestamp, Direction, EnergyKind, Entry,
    Timestamp};
use elicznik::store::{summarize, MemStore, RowOutcome, WriteSummary};
use ini::Ini;

fn dec(s: &str) -> Decimal {
    parse_decimal(&s.as_bytes().to_vec()).expect("decimal")
}

fn approx(d: &Decimal) -> f64 {
    (d.mantissa as f64) / 10f64.powi(d.scale as i32)
}

fn entry(date: Date, hour: u8, value: &str, kind: EnergyKind) -> Entry {
    Entry { date_time: Timestamp { date, hour }, kwh_value: dec(value), kind }
}

#[test]
fn csv_two_row_scenario() {
    let input = b"Data; Wartosc kWh;Rodzaj\n2023-01-10 1:01;0,500;pob\xc3\xb3r\n2023-01-10 24:24;1,250;oddanie".to_vec();
    let entries = parse(&input).expect("two rows decode");
    assert_eq!(entries.len(), 2);
    assert_eq!(entries[0].date_time, Timestamp { date: Date { year: 2023, month: 1, day: 10 }, hour: 0 });
    assert_eq!(approx(&entries[0].kwh_value), 0.5);
    assert_eq!(entries[0].kind, EnergyKind::Imported);
    assert_eq!(entries[1].date_time, Timestamp { date: Date { year: 2023, month: 1, day: 11 }, hour: 0 });
    assert_eq!(approx(&entries[1].kwh_value), 1.25);
    assert_eq!(entries[1].kind, EnergyKind::Exported);
}

#[test]
fn csv_header_only_is_empty_error() {
    let input = b"Data; Wartosc kWh;Rodzaj".to_vec();
    assert_eq!(parse(&input).unwrap_err(), DecodeError::Empty);
    let with_newline = b"Data; Wartosc kWh;Rodzaj\n".to_vec();
    assert_eq!(parse(&with_newline).unwrap_err(), DecodeError::Empty);
}

#[test]
fn csv_bad_row_is_dropped_not_fatal() {
    let input = b"header\n2023-01-10 1:00;0,774;pob\xc3\xb3r\nnot a row at all\n2023-01-10 2:00;0,100;oddanie".to_vec();
    let entries = parse(&input).expect("good rows survive");
    assert_eq!(entries.len(), 2);
    assert_eq!(entries[0].kind, EnergyKind::Imported);
    assert_eq!(entries[1].date_time.hour, 1);
}

#[test]
fn csv_crlf_rows_decode() {
    let input = b"header\r\n2023-01-10 1:00;0,774;pob\xc3\xb3r\r\n".to_vec();
    let entries = parse(&input).expect("crlf decodes");
    assert_eq!(entries.len(), 1);
    assert_eq!(approx(&entries[0].kwh_value), 0.774);
}

#[test]
fn category_vocabulary_maps_exactly() {
    let cases: [(&str, EnergyKind); 4] = [
        ("pob\u{f3}r", EnergyKind::Imported),
        ("oddanie", EnergyKind::Exported),
        ("pobrana po zbilansowaniu", EnergyKind::BalancedImported),
        ("oddana po zbilansowaniu", EnergyKind::BalancedExported),
    ];
    for (raw, kind) in cases {
        assert_eq!(kind_from_category(&raw.as_bytes().to_vec()), Some(kind));
    }
    assert_eq!(kind_from_category(&b"pobor".to_vec()), None);
    assert_eq!(kind_from_category(&b"".to_vec()), None);
}

#[test]
fn kind_labels() {
    assert_eq!(EnergyKind::Imported.label(), "imported");
    assert_eq!(EnergyKind::Exported.label(), "exported");
    assert_eq!(EnergyKind::BalancedImported.label(), "balanced_imported");
    assert_eq!(EnergyKind::BalancedExported.label(), "balanced_exported");
}

#[test]
fn decimal_comma_matches_float_parse() {
    for raw in ["0,774", "1,250", "0,5", "123", "0,000", "999,999"] {
        let d = parse_decimal(&raw.as_bytes().to_vec()).expect("decimal parses");
        let float: f64 = raw.replace(',', ".").parse().expect("float parses");
        assert_eq!(approx(&d), float);
    }
}

#[test]
fn decimal_rejects_malformed() {
    for raw in ["", ",", "1,", ",5", "abc", "1,2,3", "1.5", "-1", "12345678901234567890"] {
        assert_eq!(parse_decimal(&raw.as_bytes().to_vec()), None, "{raw}");
    }
}

#[test]
fn decimal_round_trip_keeps_scale() {
    for raw in ["0,500", "1,250", "7", "0,000"] {
        let d = parse_decimal(&raw.as_bytes().to_vec()).expect("decimal parses");
        let rendered = encode_decimal(&d);
        assert_eq!(rendered, raw.as_bytes().to_vec());
        assert_eq!(parse_decimal(&rendered), Some(d));
    }
}

#[test]
fn calendar_steps() {
    let leap = Date { year: 2024, month: 2, day: 28 };
    assert_eq!(leap.next_day(), Date { year: 2024, month: 2, day: 29 });
    let plain = Date { year: 2023, month: 2, day: 28 };
    assert_eq!(plain.next_day(), Date { year: 2023, month: 3, day: 1 });
    let eve = Date { year: 2023, month: 12, day: 31 };
    assert_eq!(eve.next_day(), Date { year: 2024, month: 1, day: 1 });
    assert_eq!(eve.next_day().prev_day(), eve);
    let century = Date { year: 1900, month: 2, day: 28 };
    assert_eq!(century.next_day(), Date { year: 1900, month: 3, day: 1 });
}

#[test]
fn hour_label_normalization() {
    let t = parse_csv_timestamp(&b"2023-12-31 24:00".to_vec()).expect("label 24 decodes");
    assert_eq!(t, Timestamp { date: Date { year: 2024, month: 1, day: 1 }, hour: 0 });
    let t1 = parse_csv_timestamp(&b"2023-01-10 1:01".to_vec()).expect("label 1 decodes");
    assert_eq!(t1, Timestamp { date: Date { year: 2023, month: 1, day: 10 }, hour: 0 });
    let t23 = parse_csv_timestamp(&b"2023-01-10 23:00".to_vec()).expect("label 23 decodes");
    assert_eq!(t23.hour, 22);
    assert_eq!(parse_csv_timestamp(&b"2023-01-10 25:00".to_vec()), None);
    assert_eq!(parse_csv_timestamp(&b"2023-01-10 0:00".to_vec()), None);
    assert_eq!(parse_csv_timestamp(&b"2023-02-30 1:00".to_vec()), None);
}

#[test]
fn json_round_trip_single_reading() {
    let e = entry(Date { year: 2023, month: 1, day: 10 }, 7, "0,774", EnergyKind::Imported);
    let doc = encode_document(&vec![e], Direction::Imported);
    let back = decode_document(&doc, Direction::Imported).expect("round trip decodes");
    assert_eq!(back, vec![e]);
}

#[test]
fn json_round_trip_midnight_and_balanced() {
    let es = vec![
        entry(Date { year: 2023, month: 1, day: 11 }, 0, "1,250", EnergyKind::BalancedExported),
        entry(Date { year: 2023, month: 1, day: 11 }, 23, "0,001", EnergyKind::Exported),
    ];
    let doc = encode_document(&es, Direction::Exported);
    let back = decode_document(&doc, Direction::Exported).expect("round trip decodes");
    assert_eq!(back, es);
}

#[test]
fn json_wire_shape_decodes() {
    let doc = "{\"dane\":{\"chart\":[{\"Data\":\"2023-01-10\",\"Hour\":\"2\",\"Status\":\"8\",\"Extra\":\"N\",\"EC\":\"0,500\",\"Zone\":\"1\",\"Tariff\":\"G11\"}]}}";
    let es = decode_document(&doc.as_bytes().to_vec(), Direction::Imported).expect("decodes");
    assert_eq!(es.len(), 1);
    assert_eq!(es[0].date_time, Timestamp { date: Date { year: 2023, month: 1, day: 10 }, hour: 2 });
    assert_eq!(approx(&es[0].kwh_value), 0.5);
    assert_eq!(es[0].kind, EnergyKind::Imported);
}

#[test]
fn json_empty_chart_is_empty_error() {
    let doc = b"{\"dane\":{\"chart\":[]}}".to_vec();
    assert_eq!(decode_document(&doc, Direction::Imported).unwrap_err(), DecodeError::Empty);
}

#[test]
fn json_is_strict_per_document() {
    let bad_extra = "{\"dane\":{\"chart\":[{\"Data\":\"2023-01-10\",\"Hour\":\"2\",\"Status\":\"8\",\"Extra\":\"X\",\"EC\":\"0,500\",\"Zone\":\"\",\"Tariff\":\"\"}]}}";
    assert_eq!(
        decode_document(&bad_extra.as_bytes().to_vec(), Direction::Imported).unwrap_err(),
        DecodeError::Malformed
    );
    assert_eq!(
        decode_document(&b"not json".to_vec(), Direction::Imported).unwrap_err(),
        DecodeError::Malformed
    );
}

#[test]
fn upsert_batch_is_idempotent() {
    let es = vec![
        entry(Date { year: 2023, month: 1, day: 10 }, 0, "0,500", EnergyKind::Imported),
        entry(Date { year: 2023, month: 1, day: 10 }, 1, "0,774", EnergyKind::Imported),
        entry(Date { year: 2023, month: 1, day: 10 }, 0, "1,250", EnergyKind::Exported),
    ];
    let no_fail = vec![false, false, false];
    let mut store = MemStore::new();
    let first = store.apply_batch(&es, &no_fail);
    assert_eq!(first.inserted, 3);
    assert_eq!(first.updated, 0);
    assert_eq!(first.failed, 0);
    let second = store.apply_batch(&es, &no_fail);
    assert_eq!(second.inserted, 0);
    assert_eq!(second.updated, 0);
    assert_eq!(second.unchanged, 3);
    assert_eq!(store.row_count(), 3);
}

#[test]
fn upsert_updates_changed_value_only() {
    let a = entry(Date { year: 2023, month: 1, day: 10 }, 0, "0,500", EnergyKind::Imported);
    let mut changed = a;
    changed.kwh_value = dec("0,600");
    let mut store = MemStore::new();
    store.apply_batch(&vec![a], &vec![false]);
    let s = store.apply_batch(&vec![changed], &vec![false]);
    assert_eq!(s.inserted, 0);
    assert_eq!(s.updated, 1);
    assert_eq!(store.row_count(), 1);
}

#[test]
fn single_row_failure_is_isolated() {
    let es = vec![
        entry(Date { year: 2023, month: 1, day: 10 }, 0, "0,500", EnergyKind::Imported),
        entry(Date { year: 2023, month: 1, day: 10 }, 1, "0,774", EnergyKind::Imported),
        entry(Date { year: 2023, month: 1, day: 10 }, 2, "1,250", EnergyKind::Imported),
    ];
    let one_fail = vec![false, true, false];
    let mut store = MemStore::new();
    let s = store.apply_batch(&es, &one_fail);
    assert_eq!(s.processed, 3);
    assert_eq!(s.inserted + s.updated, 2);
    assert_eq!(s.failed, 1);
    assert_eq!(store.row_count(), 2);
}

#[test]
fn summarize_folds_outcomes() {
    let outcomes = vec![
        RowOutcome::Applied { inserted: 1, updated: 0 },
        RowOutcome::Applied { inserted: 0, updated: 1 },
        RowOutcome::Failed,
        RowOutcome::Applied { inserted: 0, updated: 0 },
    ];
    let s: WriteSummary = summarize(&outcomes);
    assert_eq!(s.processed, 4);
    assert_eq!(s.inserted, 1);
    assert_eq!(s.updated, 1);
    assert_eq!(s.failed, 1);
}

#[test]
fn fetch_plan_shapes_requests() {
    let scraper = Scraper {
        name: "tauron".to_owned(),
        username: "user".to_owned(),
        password: "pass".to_owned(),
        start_date: "08.01.2023".to_owned(),
        end_date: Some("10.01.2023".to_owned()),
    };
    let plan = scraper.request_plan(FetchStrategy::DaneRange);
    assert_eq!(plan.len(), 4);
    assert_eq!(plan[0].method, HttpMethod::Get);
    assert_eq!(plan[0].url, "https://logowanie.tauron-dystrybucja.pl/login");
    assert!(plan[0].params.is_empty());
    assert_eq!(plan[1].method, HttpMethod::PostForm);
    assert_eq!(
        plan[1].params,
        vec![
            ("username".to_owned(), "user".to_owned()),
            ("password".to_owned(), "pass".to_owned()),
            ("service".to_owned(), "https://elicznik.tauron-dystrybucja.pl".to_owned()),
        ]
    );
    assert_eq!(plan[2].url, "https://elicznik.tauron-dystrybucja.pl/index/charts");
    assert_eq!(
        plan[2].params,
        vec![
            ("dane[startDay]".to_owned(), "08.01.2023".to_owned()),
            ("dane[endDay]".to_owned(), "10.01.2023".to_owned()),
            ("type".to_owned(), "consum".to_owned()),
        ]
    );
    assert_eq!(plan[3].params[2], ("type".to_owned(), "oze".to_owned()));

    let open_ended = Scraper { end_date: None, ..scraper };
    let plan2 = open_ended.request_plan(FetchStrategy::PlainRange);
    assert_eq!(
        plan2[2].params,
        vec![
            ("from".to_owned(), "08.01.2023".to_owned()),
            ("type".to_owned(), "consum".to_owned()),
        ]
    );
}

#[test]
fn range_validation() {
    let d1 = Date { year: 2023, month: 1, day: 8 };
    let d2 = Date { year: 2023, month: 1, day: 10 };
    assert_eq!(validate_range(&None, &None), Ok(()));
    assert_eq!(validate_range(&Some(d1), &None), Ok(()));
    assert_eq!(validate_range(&Some(d1), &Some(d2)), Ok(()));
    assert_eq!(validate_range(&Some(d1), &Some(d1)), Ok(()));
    assert_eq!(validate_range(&None, &Some(d2)), Err(RangeError::EndWithoutStart));
    assert_eq!(validate_range(&Some(d2), &Some(d1)), Err(RangeError::EndBeforeStart));
}

#[test]
fn config_reads_sections() {
    let mut conf = Ini::new();
    conf.with_section(Some("postgres"))
        .set("host", "db.example")
        .set("dbname", "energy")
        .set("username", "writer")
        .set("password", "SECRET-REDACTED");
    conf.with_section(Some("tauron")).set("username", "meter").set("password", "SECRET-REDACTED");
    let db: Database = config_read_postgres(&conf).expect("postgres section reads");
    assert_eq!(db.host, "db.example");
    assert_eq!(db.dbname, "energy");
    assert_eq!(db.username, "writer");
    assert_eq!(
        db.connection_string(),
        format!("postgres://writer:{}@db.example/energy?sslmode=require&application_name=elicznik", db.password)
    );
    let sc = config_read_tauron(&conf, "08.01.2023".to_owned(), None).expect("tauron section reads");
    assert_eq!(sc.username, "meter");
    assert_eq!(sc.start_date, "08.01.2023");
    assert_eq!(sc.end_date, None);
}

#[test]
fn config_reports_missing_pieces() {
    let empty = Ini::new();
    assert!(matches!(config_read_postgres(&empty), Err(ConfigError::MissingSection)));
    assert!(matches!(
        config_read_tauron(&empty, String::new(), None),
        Err(ConfigError::MissingSection)
    ));
    let mut partial = Ini::new();
    partial.with_section(Some("postgres")).set("host", "h").set("dbname", "d").set("username", "u");
    assert!(matches!(
        config_read_postgres(&partial),
        Err(ConfigError::MissingKey(ConfigKey::Password))
    ));
    let mut no_host = Ini::new();
    no_host.with_section(Some("postgres")).set("dbname", "d");
    assert!(matches!(
        config_read_postgres(&no_host),
        Err(ConfigError::MissingKey(ConfigKey::Host))
    ));
}

#[test]
fn output_file_names_per_direction() {
    assert_eq!(
        change_file_name(&b"/var/data/out.json".to_vec(), &b"out_consum".to_vec()),
        b"/var/data/out_consum.json".to_vec()
    );
    assert_eq!(
        change_file_name(&b"/var/data/out".to_vec(), &b"out_oze".to_vec()),
        b"/var/data/out_oze".to_vec()
    );
    assert_eq!(
        change_file_name(&b"out.json".to_vec(), &b"out_oze".to_vec()),
        b"out_oze.json".to_vec()
    );
    assert_eq!(
        change_file_name(&b"/var/data/.hidden".to_vec(), &b"x".to_vec()),
        b"/var/data/x".to_vec()
    );
}
