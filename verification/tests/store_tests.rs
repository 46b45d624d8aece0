use raspi::errors::StoreError;
use raspi::record::Record;
use raspi::segments::SegmentRow;
use raspi::series::SeriesDef;
use raspi::store::Store;

fn def(id: &str, name: &str) -> SeriesDef {
    SeriesDef {
        id: id.to_owned(),
        name: name.to_owned(),
        category: "temperature".to_owned(),
        unit: "C".to_owned(),
        color: "#ff0000".to_owned(),
    }
}

#[test]
fn append_then_point_range_returns_exactly_one() {
    let mut store = Store::new();
    let bits = f64::to_bits(19.25);
    let rec = Record { timestamp: 1000, value_bits: bits };
    assert!(store.save(rec, "temp_in").is_ok());
    let got = store.fetch("temp_in", 1000, 1000).unwrap();
    assert_eq!(got.len(), 1);
    assert_eq!(got[0].timestamp, 1000);
    assert_eq!(f64::from_bits(got[0].value_bits), 19.25);
}

#[test]
fn duplicate_timestamp_is_rejected_not_overwritten() {
    let mut store = Store::new();
    let first = Record { timestamp: 7, value_bits: f64::to_bits(1.0) };
    let second = Record { timestamp: 7, value_bits: f64::to_bits(2.0) };
    assert!(store.save(first, "s").is_ok());
    assert_eq!(store.save(second, "s"), Err(StoreError::DuplicateRecord));
    let got = store.fetch("s", 0, 100).unwrap();
    assert_eq!(got.len(), 1);
    assert_eq!(f64::from_bits(got[0].value_bits), 1.0);
}

#[test]
fn inverted_range_is_an_explicit_error() {
    let mut store = Store::new();
    store.save(Record { timestamp: 5, value_bits: 0 }, "s").unwrap();
    assert_eq!(store.fetch("s", 10, 5), Err(StoreError::InvalidRange));
    let msg = StoreError::InvalidRange.message();
    assert!(msg.contains("'from'"));
}

#[test]
fn range_is_inclusive_ascending_and_per_series() {
    let mut store = Store::new();
    store.save(Record { timestamp: 5, value_bits: 50 }, "a").unwrap();
    store.save(Record { timestamp: 3, value_bits: 30 }, "a").unwrap();
    store.save(Record { timestamp: 9, value_bits: 90 }, "a").unwrap();
    store.save(Record { timestamp: 4, value_bits: 40 }, "b").unwrap();
    let got = store.fetch("a", 3, 9).unwrap();
    assert_eq!(got.len(), 3);
    assert_eq!(got[0].timestamp, 3);
    assert_eq!(got[1].timestamp, 5);
    assert_eq!(got[2].timestamp, 9);
    let partial = store.fetch("a", 4, 8).unwrap();
    assert_eq!(partial.len(), 1);
    assert_eq!(partial[0].timestamp, 5);
    assert!(store.fetch("c", 0, 100).unwrap().is_empty());
}

#[test]
fn latest_on_empty_series_is_not_found() {
    let store = Store::new();
    assert!(store.latest("nothing").is_none());
}

#[test]
fn latest_returns_most_recent_sample() {
    let mut store = Store::new();
    store.save(Record { timestamp: 5, value_bits: 50 }, "a").unwrap();
    store.save(Record { timestamp: 9, value_bits: 90 }, "a").unwrap();
    store.save(Record { timestamp: 3, value_bits: 30 }, "a").unwrap();
    let latest = store.latest("a").unwrap();
    assert_eq!(latest.timestamp, 9);
    assert_eq!(latest.value_bits, 90);
}

#[test]
fn catalog_upsert_updates_listing_but_not_samples() {
    let mut store = Store::new();
    store.update_series(&vec![def("a", "Old name"), def("b", "B")]);
    store.save(Record { timestamp: 1, value_bits: 10 }, "a").unwrap();
    store.save(Record { timestamp: 2, value_bits: 20 }, "a").unwrap();
    let before = store.fetch("a", 0, 10).unwrap();

    store.update_series(&vec![def("a", "New name"), def("c", "C")]);
    let listed = store.series();
    assert_eq!(listed.len(), 3);
    assert_eq!(listed[0].id, "a");
    assert_eq!(listed[0].name, "New name");
    assert_eq!(listed[1].id, "b");
    assert_eq!(listed[2].id, "c");

    let after = store.fetch("a", 0, 10).unwrap();
    assert_eq!(before.len(), after.len());
    for (x, y) in before.iter().zip(after.iter()) {
        assert_eq!(x.timestamp, y.timestamp);
        assert_eq!(x.value_bits, y.value_bits);
    }
}

#[test]
fn series_index_follows_catalog_order() {
    let mut store = Store::new();
    store.update_series(&vec![def("a", "A"), def("b", "B")]);
    assert_eq!(store.series_index("a"), Some(0));
    assert_eq!(store.series_index("b"), Some(1));
    assert_eq!(store.series_index("c"), None);
}

#[test]
fn load_row_replays_columns_and_is_idempotent() {
    let mut store = Store::new();
    store.update_series(&vec![def("int", "Interior"), def("ext", "Exterior")]);
    let row = SegmentRow { timestamp: 42, values: vec![Some(100), None] };
    store.load_row(&row);
    store.load_row(&row);
    let int_range = store.fetch("int", 0, 100).unwrap();
    assert_eq!(int_range.len(), 1);
    assert_eq!(int_range[0].timestamp, 42);
    assert_eq!(int_range[0].value_bits, 100);
    assert!(store.latest("ext").is_none());
}
