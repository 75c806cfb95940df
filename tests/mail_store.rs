use trapmail::listing::select_mail_names;
use trapmail::mail::{CliOptions, Mail, UniqueClock};
use trapmail::names::is_mail_file_name;
use trapmail::store::MailStore;

fn options() -> CliOptions {
    CliOptions {
        debug: false,
        ignore_dots: true,
        inline_recipients: false,
        addresses: vec!["someone@example.com".to_string()],
        dump: None,
    }
}

fn record(ts: u128, ppid: i32, pid: i32) -> Mail {
    Mail::from_parts(options(), vec![0, 159, 146, 150, 10], pid, ppid, ts)
}

fn strings(v: &[&str]) -> Vec<String> {
    v.iter().map(|s| s.to_string()).collect()
}

#[test]
fn file_name_has_the_canonical_form() {
    assert_eq!(record(1, 2, 3).file_name(), "trapmail_1_2_3.json");
    assert_eq!(
        record(1_560_000_000_123_456, 4021, 4022).file_name(),
        "trapmail_1560000000123456_4021_4022.json"
    );
    assert_eq!(record(0, 0, 10).file_name(), "trapmail_0_0_10.json");
}

#[test]
fn file_name_of_the_largest_values() {
    assert_eq!(
        record(u128::MAX, i32::MAX, 1).file_name(),
        "trapmail_340282366920938463463374607431768211455_2147483647_1.json"
    );
    assert_eq!(record(7, -1, i32::MIN).file_name(), "trapmail_7_-1_-2147483648.json");
}

#[test]
fn from_parts_keeps_every_field() {
    let m = record(9, 8, 7);
    assert_eq!(m.timestamp_us, 9);
    assert_eq!(m.ppid, 8);
    assert_eq!(m.pid, 7);
    assert_eq!(m.raw_body, vec![0, 159, 146, 150, 10]);
    assert!(m.cli_options.ignore_dots);
    assert_eq!(m.cli_options.addresses, vec!["someone@example.com".to_string()]);
}

#[test]
fn grammar_accepts_mail_names() {
    assert!(is_mail_file_name("trapmail_1_2_3.json"));
    assert!(is_mail_file_name("trapmail_1560000000123456_4021_4022.json"));
    assert!(is_mail_file_name("trapmail_007_0_0.json"));
}

#[test]
fn grammar_refuses_other_names() {
    for name in [
        "notes.txt",
        "",
        "trapmail_1_2.json",
        "trapmail_1_2_3_4.json",
        "trapmail_1_2_3.jsonx",
        "xtrapmail_1_2_3.json",
        "trapmail_1_2_3xjson",
        "trapmail_a_2_3.json",
        "trapmail__2_3.json",
        "trapmail_1__3.json",
        "trapmail_1_2_.json",
        "Trapmail_1_2_3.json",
        "trapmail_1_2_3.JSON",
        "trapmail_1_-2_3.json",
        "trapmail_١_2_3.json",
    ] {
        assert!(!is_mail_file_name(name), "{}", name);
    }
}

#[test]
fn listing_skips_files_that_are_not_mail() {
    let r = select_mail_names(&strings(&["notes.txt", "trapmail_1_2_3.json"]));
    assert_eq!(r, strings(&["trapmail_1_2_3.json"]));
}

#[test]
fn listing_puts_names_in_order() {
    let r = select_mail_names(&strings(&[
        "trapmail_5_1_1.json",
        "trapmail_1_2_3.json",
        "trapmail_3_1_1.json",
    ]));
    assert_eq!(
        r,
        strings(&["trapmail_1_2_3.json", "trapmail_3_1_1.json", "trapmail_5_1_1.json"])
    );
}

#[test]
fn listing_of_nothing_is_empty() {
    assert!(select_mail_names(&Vec::new()).is_empty());
    assert!(select_mail_names(&strings(&["a", "b.json"])).is_empty());
}

#[test]
fn listing_holds_each_name_once() {
    let r = select_mail_names(&strings(&[
        "trapmail_2_1_1.json",
        "trapmail_1_1_1.json",
        "trapmail_2_1_1.json",
    ]));
    assert_eq!(r, strings(&["trapmail_1_1_1.json", "trapmail_2_1_1.json"]));
}

#[test]
fn listing_is_lexicographic_across_digit_counts() {
    let r = select_mail_names(&strings(&["trapmail_999999999_1_1.json", "trapmail_1000000000_1_1.json"]));
    assert_eq!(
        r,
        strings(&["trapmail_1000000000_1_1.json", "trapmail_999999999_1_1.json"])
    );
}

#[test]
fn corrupted_file_keeps_its_place_in_the_listing() {
    let store = MailStore::with_root("/var/mail".to_string());
    // '6' comes before '_': names are compared character by character.
    let valid = record(1_600_000_000_000_000, 10, 11).file_name();
    let paths = store.mail_paths(&vec![valid.clone(), "trapmail_1_2_3.json".to_string()]);
    assert_eq!(
        paths,
        vec![
            format!("/var/mail/{}", valid),
            "/var/mail/trapmail_1_2_3.json".to_string()
        ]
    );
}

#[test]
fn corrupted_file_sorts_by_its_name() {
    let store = MailStore::with_root("/var/mail".to_string());
    let valid = record(2, 2, 3).file_name();
    let paths = store.mail_paths(&vec![valid, "notes.txt".to_string(), "trapmail_1_2_3.json".to_string()]);
    assert_eq!(
        paths,
        strings(&["/var/mail/trapmail_1_2_3.json", "/var/mail/trapmail_2_2_3.json"])
    );
}

#[test]
fn added_mail_is_listed() {
    let store = MailStore::with_root("/srv/store/".to_string());
    let m = record(1_560_000_000_000_001, 77, 78);
    let added = store.path_for(&m);
    assert_eq!(added, "/srv/store/trapmail_1560000000000001_77_78.json");
    let entries = vec!["notes.txt".to_string(), m.file_name(), "trapmail_1_1_1.json".to_string()];
    let paths = store.mail_paths(&entries);
    assert_eq!(paths.len(), 2);
    assert!(paths.contains(&added));
}

#[test]
fn three_records_list_in_construction_order() {
    let mut clock = UniqueClock::new();
    let a = Mail::new(options(), vec![1], &mut clock, 1_560_000_000_000_000);
    let b = Mail::new(options(), vec![2], &mut clock, 1_560_000_000_000_000);
    let c = Mail::new(options(), vec![3], &mut clock, 1_560_000_000_000_000);
    let store = MailStore::with_root("/tmp".to_string());
    let paths = store.mail_paths(&vec![c.file_name(), a.file_name(), b.file_name()]);
    assert_eq!(paths, vec![store.path_for(&a), store.path_for(&b), store.path_for(&c)]);
}

#[test]
fn successive_records_have_distinct_names() {
    let mut clock = UniqueClock::new();
    let mut names = Vec::new();
    for _ in 0..50 {
        let m = Mail::new(options(), Vec::new(), &mut clock, 42);
        names.push(m.file_name());
    }
    for i in 0..names.len() {
        for j in 0..i {
            assert_ne!(names[i], names[j]);
        }
    }
}

#[test]
fn new_mail_keeps_options_and_body() {
    let mut clock = UniqueClock::new();
    let m = Mail::new(options(), vec![0, 255, 0], &mut clock, 123);
    assert_eq!(m.timestamp_us, 123);
    assert_eq!(m.raw_body, vec![0, 255, 0]);
    assert_eq!(m.cli_options.addresses, vec!["someone@example.com".to_string()]);
    assert!(m.pid > 0);
}

#[test]
fn clock_stamps_increase() {
    let mut clock = UniqueClock::new();
    assert!(!clock.exhausted());
    assert_eq!(clock.next_stamp(5), 5);
    assert_eq!(clock.next_stamp(5), 6);
    assert_eq!(clock.next_stamp(3), 7);
    assert_eq!(clock.next_stamp(100), 100);
    assert_eq!(clock.next_stamp(u128::MAX), u128::MAX);
    assert!(clock.exhausted());
}

#[test]
fn store_root_defaults_when_unconfigured() {
    assert_eq!(MailStore::new(None).root(), "/tmp");
    assert_eq!(MailStore::new(Some("/custom/path".to_string())).root(), "/custom/path");
    assert_eq!(MailStore::with_root("/x".to_string()).root(), "/x");
}

#[test]
fn paths_are_joined_like_path_join() {
    let store = MailStore::with_root("/a".to_string());
    assert_eq!(store.path_of("f.json"), "/a/f.json");
    assert_eq!(store.path_of("/abs/f.json"), "/abs/f.json");
    assert_eq!(MailStore::with_root("/a/".to_string()).path_of("f"), "/a/f");
    assert_eq!(MailStore::with_root(String::new()).path_of("f"), "f");
}
