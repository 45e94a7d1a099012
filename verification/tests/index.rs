use link_crawler::storage::Storage;

fn sorted(mut v: Vec<String>) -> Vec<String> {
    v.sort();
    v
}

#[test]
fn a_new_index_knows_no_host() {
    let storage = Storage::new();
    assert!(storage.list_domains().is_empty());
    assert!(storage.get("example.com").is_none());
}

#[test]
fn record_creates_the_host_on_first_use() {
    let mut storage = Storage::new();
    storage.record("example.com", "http://example.com/");
    assert_eq!(storage.list_domains(), vec!["example.com".to_owned()]);
    let snapshot = storage.get("example.com").unwrap();
    assert_eq!(snapshot.count, 1);
    assert_eq!(snapshot.urls, vec!["http://example.com/".to_owned()]);
    assert!(storage.get("other.org").is_none());
}

#[test]
fn record_twice_changes_nothing_the_second_time() {
    let mut storage = Storage::new();
    storage.record("example.com", "http://example.com/a");
    let once = storage.get("example.com").unwrap();
    storage.record("example.com", "http://example.com/a");
    let twice = storage.get("example.com").unwrap();
    assert_eq!(once, twice);
    assert_eq!(twice.count, 1);
    assert_eq!(storage.list_domains().len(), 1);
}

#[test]
fn records_never_shrink() {
    let mut storage = Storage::new();
    let urls = ["http://a.com/1", "http://a.com/2", "http://a.com/1", "http://b.org/", "http://a.com/3"];
    let mut seen: Vec<String> = Vec::new();
    for u in urls {
        storage.record("a.com", u);
        storage.record("b.org", "http://b.org/x");
        let now = storage.get("a.com").unwrap().urls;
        for earlier in &seen {
            assert!(now.contains(earlier));
        }
        assert!(now.contains(&u.to_owned()));
        seen = now;
    }
    assert_eq!(storage.get("a.com").unwrap().count, 4);
    assert_eq!(storage.get("b.org").unwrap().count, 1);
}

#[test]
fn hosts_are_kept_apart() {
    let mut storage = Storage::new();
    storage.record("a.com", "http://shared/");
    storage.record("b.org", "http://shared/");
    storage.record("b.org", "http://only-b/");
    assert_eq!(sorted(storage.list_domains()), vec!["a.com".to_owned(), "b.org".to_owned()]);
    assert_eq!(storage.get("a.com").unwrap().urls, vec!["http://shared/".to_owned()]);
    assert_eq!(
        sorted(storage.get("b.org").unwrap().urls),
        vec!["http://only-b/".to_owned(), "http://shared/".to_owned()]
    );
    assert_eq!(storage.get("b.org").unwrap().count, 2);
}

#[test]
fn host_keys_are_compared_exactly() {
    let mut storage = Storage::new();
    storage.record("example.com", "http://example.com/");
    assert!(storage.get("Example.com").is_none());
    assert!(storage.get("example.com ").is_none());
    assert!(storage.get("").is_none());
}

#[test]
fn two_writers_converge_in_any_order() {
    let l1 = ["http://a.com/1", "http://a.com/2", "http://a.com/3"];
    let l2 = ["http://a.com/x", "http://a.com/y"];
    let mut first = Storage::new();
    for u in l1.iter().chain(l2.iter()) {
        first.record("a.com", u);
    }
    let mut second = Storage::new();
    for u in l2.iter().chain(l1.iter()) {
        second.record("a.com", u);
    }
    let mut mixed = Storage::new();
    for u in ["http://a.com/x", "http://a.com/1", "http://a.com/2", "http://a.com/y", "http://a.com/3"] {
        mixed.record("a.com", u);
    }
    let expected: Vec<String> = sorted(l1.iter().chain(l2.iter()).map(|s| s.to_string()).collect());
    for storage in [&first, &second, &mixed] {
        let snapshot = storage.get("a.com").unwrap();
        assert_eq!(snapshot.count, 5);
        assert_eq!(sorted(snapshot.urls), expected);
    }
}
