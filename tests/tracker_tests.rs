use safari_tracker::config::Config;
use safari_tracker::domain::{
    authority_of, base_domain, contains_chars, normalize, remove_first_www, trim_leading_dots,
};
use safari_tracker::provider::{window_seconds, SafariProvider, VisitRecord};
use safari_tracker::tracker::{bar_length, max_count, max_visits, RankedEntry, Tracker};

fn rec(url: &str, count: u32, hour: usize) -> VisitRecord {
    VisitRecord { url: url.to_string(), count, hour }
}

fn ingest(t: &mut Tracker, records: Vec<VisitRecord>) {
    for r in records {
        t.process_record(r);
    }
}

fn pairs(r: &[RankedEntry]) -> Vec<(String, u32)> {
    r.iter().map(|e| (e.domain.clone(), e.visits)).collect()
}

fn scenario() -> Tracker {
    let mut t = Tracker::new();
    ingest(
        &mut t,
        vec![
            rec("https://www.a.com/p", 5, 10),
            rec("http://a.com/q", 3, 10),
            rec("http://b.com", 1, 23),
        ],
    );
    t
}

#[test]
fn test_domain_cleaning() {
    assert_eq!(Tracker::clean_domain("https://www.google.com"), "google.com");
    assert_eq!(Tracker::clean_domain(".github.com"), "github.com");
}

#[test]
fn normalize_ignores_www_dots_and_case() {
    assert_eq!(normalize("https://www.Google.com/x"), "google.com");
    assert_eq!(normalize("https://GOOGLE.com"), "google.com");
    assert_eq!(normalize("..github.com"), "github.com");
    assert_eq!(normalize("https://...www.example.org/a/b"), "example.org");
}

#[test]
fn normalize_removes_only_first_www_anywhere() {
    assert_eq!(normalize("https://mywww.example.com/"), "myexample.com");
    assert_eq!(normalize("https://www.www.x.com/"), "www.x.com");
}

#[test]
fn normalize_falls_back_to_whole_url() {
    assert_eq!(normalize("localhost"), "localhost");
    assert_eq!(normalize("a/b"), "a/b");
    assert_eq!(normalize("file:///etc/hosts"), "");
}

#[test]
fn base_domain_keeps_case() {
    assert_eq!(base_domain("https://www.Google.COM/x"), "Google.COM");
    assert_eq!(normalize("https://www.Google.COM/x"), "google.com");
}

#[test]
fn normalization_steps() {
    assert_eq!(authority_of("https://host.net/path/more"), "host.net");
    assert_eq!(authority_of("no-slashes"), "no-slashes");
    assert_eq!(trim_leading_dots("...a.b"), "a.b");
    assert_eq!(trim_leading_dots("...."), "");
    assert_eq!(remove_first_www("a.www.b.www.c"), "a.b.www.c");
    assert_eq!(remove_first_www("plain"), "plain");
}

#[test]
fn substring_containment() {
    assert!(contains_chars("b.com", "b"));
    assert!(contains_chars("b.com", ""));
    assert!(!contains_chars("b.com", "B"));
    assert!(!contains_chars("b", "b.com"));
}

#[test]
fn end_to_end_scenario() {
    let t = scenario();
    let all = t.rank(10, None);
    assert_eq!(
        pairs(&all),
        vec![("a.com".to_string(), 8), ("b.com".to_string(), 1)]
    );
    assert_eq!(pairs(&t.rank(1, None)), vec![("a.com".to_string(), 8)]);
    let hist = t.hourly_histogram();
    assert_eq!(hist.len(), 24);
    for (h, &c) in hist.iter().enumerate() {
        let expected = match h {
            10 => 8,
            23 => 1,
            _ => 0,
        };
        assert_eq!(c, expected);
    }
    assert_eq!(t.visits_of(&"a.com".to_string()), 8);
    assert_eq!(t.visits_of(&"b.com".to_string()), 1);
    assert_eq!(t.visits_of(&"c.com".to_string()), 0);
}

#[test]
fn scenario_with_filter() {
    let t = scenario();
    assert_eq!(pairs(&t.rank(10, Some("b"))), vec![("b.com".to_string(), 1)]);
    assert!(t.rank(10, Some("B")).is_empty());
}

#[test]
fn scenario_with_no_records() {
    let t = Tracker::new();
    assert!(t.rank(0, None).is_empty());
    assert!(t.rank(5, None).is_empty());
    assert!(t.rank(100, Some("x")).is_empty());
    assert!(t.hourly_histogram().iter().all(|&c| c == 0));
    let ranked = t.rank(15, None);
    let m = max_visits(&ranked);
    assert_eq!(m, 1);
    assert_eq!(bar_length(0, m, 20), 0);
    assert_eq!(max_count(&t.hourly_histogram()), 1);
}

#[test]
fn rank_limit_zero_is_empty() {
    let t = scenario();
    assert!(t.rank(0, None).is_empty());
}

#[test]
fn rank_is_sorted_and_bounded() {
    let mut t = Tracker::new();
    ingest(
        &mut t,
        vec![
            rec("http://c.org/", 2, 1),
            rec("http://d.org/", 7, 2),
            rec("http://e.org/", 4, 3),
            rec("http://f.net/", 9, 4),
            rec("http://c.org/x", 3, 5),
        ],
    );
    let r = t.rank(2, None);
    assert_eq!(
        pairs(&r),
        vec![("f.net".to_string(), 9), ("d.org".to_string(), 7)]
    );
    let org = t.rank(10, Some(".org"));
    assert_eq!(
        pairs(&org),
        vec![
            ("d.org".to_string(), 7),
            ("c.org".to_string(), 5),
            ("e.org".to_string(), 4)
        ]
    );
    assert_eq!(pairs(&t.top_for_render(10)).len(), 4);
}

#[test]
fn rank_ties_in_first_seen_order() {
    let mut t = Tracker::new();
    ingest(
        &mut t,
        vec![rec("http://x.io", 3, 0), rec("http://y.io", 3, 0), rec("http://z.io", 3, 0)],
    );
    assert_eq!(
        pairs(&t.rank(10, None)),
        vec![
            ("x.io".to_string(), 3),
            ("y.io".to_string(), 3),
            ("z.io".to_string(), 3)
        ]
    );
}

#[test]
fn accumulation_order_does_not_matter() {
    let a = || rec("https://www.a.com/p", 5, 10);
    let b = || rec("http://b.com/", 2, 3);
    let c = || rec("http://a.com/z", 4, 30);
    let mut t1 = Tracker::new();
    ingest(&mut t1, vec![a(), b()]);
    ingest(&mut t1, vec![c()]);
    let mut t2 = Tracker::new();
    ingest(&mut t2, vec![c(), a(), b()]);
    assert_eq!(pairs(&t1.rank(10, None)), pairs(&t2.rank(10, None)));
    assert_eq!(t1.hourly_histogram(), t2.hourly_histogram());
    assert_eq!(pairs(&t1.rank(10, None)), vec![("a.com".to_string(), 9), ("b.com".to_string(), 2)]);
}

#[test]
fn out_of_range_hour_only_counts_in_totals() {
    let mut t = Tracker::new();
    ingest(&mut t, vec![rec("http://q.com", 6, 24), rec("http://q.com", 1, 0)]);
    assert_eq!(pairs(&t.rank(5, None)), vec![("q.com".to_string(), 7)]);
    let hist = t.hourly_histogram();
    assert_eq!(hist[0], 1);
    assert_eq!(hist.iter().sum::<u32>(), 1);
}

#[test]
fn histogram_is_a_copy() {
    let t = scenario();
    let mut hist = t.hourly_histogram();
    hist[10] = 0;
    assert_eq!(t.hourly_histogram()[10], 8);
}

#[test]
fn max_and_bar_lengths() {
    let t = scenario();
    let ranked = t.rank(10, None);
    let m = max_visits(&ranked);
    assert_eq!(m, 8);
    assert_eq!(bar_length(8, m, 20), 20);
    assert_eq!(bar_length(1, m, 20), 2);
    assert_eq!(bar_length(3, 7, 20), 8);
    assert_eq!(bar_length(u32::MAX, 1, u32::MAX), (u32::MAX as u64) * (u32::MAX as u64));
    assert_eq!(max_count(&vec![0, 0, 0]), 1);
    assert_eq!(max_count(&vec![3, 9, 2]), 9);
}

#[test]
fn defaults() {
    let c = Config::new();
    assert_eq!(c.limit, 15);
    assert_eq!(c.days, 7);
    assert!(c.filter.is_none());
    assert_eq!(c.output, "report.html");
    let p = SafariProvider::new();
    assert_eq!(p.db_path, "Library/Safari/History.db");
    assert_eq!(p.temp_db, "/tmp/safari_history_copy");
    assert_eq!(window_seconds(7), 604800);
    assert_eq!(window_seconds(0), 0);
}

#[test]
fn separate_domains_may_each_hold_large_totals() {
    let mut t = Tracker::new();
    t.process_record(rec("http://big.com", 3_000_000_000, 1));
    t.process_record(rec("http://huge.com", 3_000_000_000, 2));
    assert_eq!(
        pairs(&t.rank(5, None)),
        vec![("big.com".to_string(), 3_000_000_000), ("huge.com".to_string(), 3_000_000_000)]
    );
}

#[test]
fn try_process_record_refuses_overflow() {
    let mut t = Tracker::new();
    assert!(t.try_process_record(rec("http://a.com", u32::MAX - 1, 30)));
    assert!(!t.try_process_record(rec("http://www.A.com/x", 2, 31)));
    assert_eq!(t.visits_of(&"a.com".to_string()), u32::MAX - 1);
    assert!(t.try_process_record(rec("http://a.com", 1, 40)));
    assert_eq!(t.visits_of(&"a.com".to_string()), u32::MAX);
    assert!(t.try_process_record(rec("http://b.com", 5, 3)));
    assert!(t.try_process_record(rec("http://c.com", u32::MAX - 5, 3)));
    assert!(!t.try_process_record(rec("http://d.com", 1, 3)));
    assert_eq!(t.visits_of(&"d.com".to_string()), 0);
    assert_eq!(t.hourly_histogram()[3], u32::MAX);
}

#[test]
fn add_visits_takes_a_normalized_key() {
    let mut t = Tracker::new();
    t.add_visits("google.com".to_string(), 4, 9);
    t.add_visits("google.com".to_string(), 1, 25);
    assert_eq!(pairs(&t.rank(3, None)), vec![("google.com".to_string(), 5)]);
    assert_eq!(t.hourly_histogram()[9], 4);
    assert_eq!(t.hourly_histogram().iter().sum::<u32>(), 4);
}
