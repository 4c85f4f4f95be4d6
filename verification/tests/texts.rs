use tsink::error::TsinkError;
use tsink::series::{Label, SeriesKey};
use tsink::sorting::order_by;
use tsink::text::{with_number, with_numbers};
use tsink::text_map::{is_text_before, TextMap};

#[test]
fn texts_are_ordered_by_their_bytes() {
    assert!(is_text_before("", "a"));
    assert!(is_text_before("a", "ab"));
    assert!(is_text_before("Z", "a"));
    assert!(is_text_before("a", "\u{e9}"));
    assert!(is_text_before("\u{ffff}", "\u{10000}"));
    assert!(!is_text_before("a", "a"));
    assert!(!is_text_before("b", "a"));
}

#[test]
fn a_text_map_keeps_its_keys_sorted() {
    let mut map: TextMap<u32> = TextMap::new();
    assert!(map.is_empty());
    for (key, value) in [("m", 1), ("a", 2), ("z", 3), ("m", 4)] {
        map.insert(key.to_string(), value);
    }
    assert_eq!(map.len(), 3);
    let entries: Vec<(String, u32)> = (0..map.len())
        .map(|at| {
            let (key, value) = map.entry_at(at);
            (key.clone(), *value)
        })
        .collect();
    assert_eq!(
        entries,
        vec![
            ("a".to_string(), 2),
            ("m".to_string(), 4),
            ("z".to_string(), 3)
        ]
    );
    assert_eq!(map.get("m"), Some(&4));
    assert_eq!(map.get("n"), None);
    assert_eq!(map.remove("a"), Some(2));
    assert_eq!(map.remove("a"), None);
    assert!(map.contains_key("z"));
    assert_eq!(map.len(), 2);
}

#[test]
fn numbers_are_written_in_decimal() {
    assert_eq!(with_number("id ", 0, "!"), "id 0!");
    assert_eq!(
        with_numbers("", u64::MAX, " and ", 1_203),
        "18446744073709551615 and 1203"
    );
}

#[test]
fn equal_keys_keep_their_order_when_sorted() {
    let keys = vec![(1, 0, 0), (0, 5, 0), (1, 0, 0), (0, 4, 9), (-3, 9, 9)];
    assert_eq!(order_by(&keys), vec![4, 3, 1, 0, 2]);
}

#[test]
fn series_keys_are_compared_by_metric_and_labels() {
    let key = |value: &str| SeriesKey {
        metric: "cpu".to_string(),
        labels: vec![Label::new("host", value)],
    };
    assert!(key("a").same(&key("a").duplicate()));
    assert!(!key("a").same(&key("b")));
    let mut longer = key("a");
    longer.labels.push(Label::new("x", "y"));
    assert!(!longer.same(&key("a")));
}

#[test]
fn errors_have_messages() {
    let error = TsinkError::SegmentValidation {
        root: "seg-1".to_string(),
        details: "bad".to_string(),
    };
    assert_eq!(error.message(), "seg-1: bad");
    assert_eq!(error.duplicate().message(), "seg-1: bad");
    assert_eq!(
        TsinkError::InvalidConfiguration("window".to_string()).message(),
        "window"
    );
}
