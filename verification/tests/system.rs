use rest_client::security::validate_file_path;
use rest_client::system::{epoch_days_to_date, fill_random, format_datetime, format_uuid_v4, random_int, resolve_dotenv};

fn chars(s: &str) -> Vec<char> {
    s.chars().collect()
}

fn text(v: Vec<char>) -> String {
    v.into_iter().collect()
}

#[test]
fn civil_dates() {
    assert_eq!(epoch_days_to_date(0), (1970, 1, 1));
    assert_eq!(epoch_days_to_date(19723), (2024, 1, 1));
    assert_eq!(epoch_days_to_date(11016), (2000, 2, 29));
    for d in [0u64, 59, 365, 10_000, 20_000, 100_000] {
        let (_, m, day) = epoch_days_to_date(d);
        assert!((1..=12).contains(&m));
        assert!((1..=31).contains(&day));
    }
}

#[test]
fn datetime_formats() {
    assert_eq!(text(format_datetime(&chars("iso8601"), 0)), "1970-01-01T00:00:00Z");
    assert_eq!(text(format_datetime(&chars(""), 86399)), "1970-01-01T23:59:59Z");
    assert_eq!(text(format_datetime(&chars("rfc1123"), 0)), "Thu, 01 Jan 1970 00:00:00 GMT");
    assert_eq!(text(format_datetime(&chars("other"), 42)), "42");
}

#[test]
fn uuid_layout() {
    let bytes: Vec<u8> = (0u8..16).collect();
    assert_eq!(
        text(format_uuid_v4(&bytes)),
        "00010203-0405-4607-8809-0a0b0c0d0e0f"
    );
}

#[test]
fn random_draws_in_range_and_deterministic_per_seed() {
    for seed in 0u64..20 {
        let v = random_int(&chars("5 7"), seed).unwrap();
        assert!((5..=7).contains(&v));
        assert_eq!(random_int(&chars("5 7"), seed), random_int(&chars("5 7"), seed));
    }
    assert_eq!(fill_random(1, 4), fill_random(1, 4));
    assert_eq!(fill_random(1, 4).len(), 4);
}

#[test]
fn dotenv_quotes() {
    let content = Some(chars("A='x y'\n# B=1\nB = \"q\"\nC=plain\n"));
    assert_eq!(text(resolve_dotenv(&content, &chars("A"))), "x y");
    assert_eq!(text(resolve_dotenv(&content, &chars("B"))), "q");
    assert_eq!(text(resolve_dotenv(&content, &chars("C"))), "plain");
    assert_eq!(text(resolve_dotenv(&None, &chars("C"))), "");
}

#[test]
fn file_path_resolved_inside_root() {
    assert_eq!(validate_file_path(" tmp ", "/").unwrap(), "/tmp");
}
