use s3_ops::listing::{
    list_pages, ListError, Listing, ObjectInfo, RawCommonPrefix, RawObject, RawPage,
};
use s3_ops::manifest::{
    format_record, manifest_for, manifest_path, parse_manifest, parse_record, render_manifest,
};

fn raw(key: &str, size: i64, ts: &str) -> RawObject {
    RawObject {
        key: Some(key.to_string()),
        size: Some(size),
        last_modified: Some(ts.to_string()),
    }
}

fn page(objs: Vec<RawObject>, prefixes: Vec<&str>) -> RawPage {
    RawPage {
        contents: objs,
        common_prefixes: prefixes
            .into_iter()
            .map(|p| RawCommonPrefix { prefix: Some(p.to_string()) })
            .collect(),
    }
}

fn obj(key: &str, size: usize, ts: &str) -> ObjectInfo {
    ObjectInfo { key: key.to_string(), size, timestamp: ts.to_string() }
}

fn triples(objs: &[ObjectInfo]) -> Vec<(String, usize, String)> {
    objs.iter().map(|o| (o.key.clone(), o.size, o.timestamp.clone())).collect()
}

#[test]
fn three_pages_concatenate_in_page_order() {
    let pages = vec![
        page(vec![raw("00ab/a", 1, "t1"), raw("00ab/b", 2, "t2")], vec!["00ab/d1/"]),
        page(vec![raw("00ab/c", 3, "t3")], vec![]),
        page(vec![raw("00ab/e", 40, "t4"), raw("00ab/f", 0, "t5")], vec!["00ab/d2/"]),
    ];
    let listing = list_pages(&pages).unwrap();
    assert_eq!(
        triples(&listing.objects),
        vec![
            ("00ab/a".to_string(), 1, "t1".to_string()),
            ("00ab/b".to_string(), 2, "t2".to_string()),
            ("00ab/c".to_string(), 3, "t3".to_string()),
            ("00ab/e".to_string(), 40, "t4".to_string()),
            ("00ab/f".to_string(), 0, "t5".to_string()),
        ]
    );
    let prefixes: Vec<String> = listing.common_prefixes.iter().map(|c| c.prefix.clone()).collect();
    assert_eq!(prefixes, vec!["00ab/d1/", "00ab/d2/"]);
    let text = render_manifest(&listing.objects);
    assert_eq!(
        text,
        "key,size,timestamp\n00ab/a,1,t1\n00ab/b,2,t2\n00ab/c,3,t3\n00ab/e,40,t4\n00ab/f,0,t5\n"
    );
}

#[test]
fn no_pages_give_an_empty_listing() {
    let listing = list_pages(&vec![]).unwrap();
    assert!(listing.objects.is_empty());
    assert!(listing.common_prefixes.is_empty());
    assert!(manifest_for(&listing.objects).is_none());
}

#[test]
fn missing_fields_fail_the_listing() {
    let missing_key = RawObject { key: None, size: Some(1), last_modified: Some("t".to_string()) };
    let missing_size = RawObject { key: Some("k".to_string()), size: None, last_modified: Some("t".to_string()) };
    let missing_ts = RawObject { key: Some("k".to_string()), size: Some(1), last_modified: None };
    assert_eq!(list_pages(&vec![page(vec![missing_key], vec![])]).err(), Some(ListError::MissingKey));
    assert_eq!(list_pages(&vec![page(vec![missing_size], vec![])]).err(), Some(ListError::MissingSize));
    assert_eq!(list_pages(&vec![page(vec![missing_ts], vec![])]).err(), Some(ListError::MissingTimestamp));
    assert_eq!(list_pages(&vec![page(vec![raw("k", -1, "t")], vec![])]).err(), Some(ListError::InvalidSize));
    let bad_prefix = RawPage { contents: vec![], common_prefixes: vec![RawCommonPrefix { prefix: None }] };
    assert_eq!(list_pages(&vec![bad_prefix]).err(), Some(ListError::MissingPrefix));
}

#[test]
fn error_on_a_later_page_aborts_the_listing() {
    let bad = RawObject { key: Some("k".to_string()), size: None, last_modified: Some("t".to_string()) };
    let pages = vec![page(vec![raw("a", 1, "t")], vec![]), page(vec![bad], vec![]), page(vec![raw("c", 1, "t")], vec![])];
    assert_eq!(list_pages(&pages).err(), Some(ListError::MissingSize));
}

#[test]
fn failed_page_leaves_listing_unchanged() {
    let mut listing = Listing::new();
    assert!(listing.add_page(&page(vec![raw("a", 1, "t")], vec!["p/"])).is_ok());
    let bad = RawObject { key: Some("b".to_string()), size: Some(2), last_modified: None };
    assert_eq!(listing.add_page(&page(vec![raw("c", 3, "t"), bad], vec![])), Err(ListError::MissingTimestamp));
    assert_eq!(triples(&listing.objects), vec![("a".to_string(), 1, "t".to_string())]);
    assert_eq!(listing.common_prefixes.len(), 1);
}

#[test]
fn record_line_formats_sizes_in_decimal() {
    assert_eq!(format_record(&obj("a/b.txt", 0, "2024-01-01T00:00:00Z")), "a/b.txt,0,2024-01-01T00:00:00Z");
    assert_eq!(format_record(&obj("k", 1234567890, "t")), "k,1234567890,t");
    assert_eq!(format_record(&obj("k", usize::MAX, "t")), format!("k,{},t", usize::MAX));
    assert_eq!(format_record(&obj("k", 10, "t")), "k,10,t");
}

#[test]
fn empty_objects_write_nothing() {
    assert!(manifest_for(&vec![]).is_none());
    let text = manifest_for(&vec![obj("x", 5, "t")]).unwrap();
    assert_eq!(text, "key,size,timestamp\nx,5,t\n");
}

#[test]
fn manifest_lines_parse_back_to_records() {
    let objs = vec![
        obj("00aa/photo.jpg", 123456, "2023-05-06T07:08:09Z"),
        obj("00aa/x", 0, "2020-01-01T00:00:00Z"),
        obj("00aa/dir/y z", usize::MAX, "t"),
    ];
    let text = render_manifest(&objs);
    let mut lines = text.lines();
    assert_eq!(lines.next(), Some("key,size,timestamp"));
    let parsed: Vec<ObjectInfo> = lines.map(|l| parse_record(l).unwrap()).collect();
    assert_eq!(triples(&parsed), triples(&objs));
}

#[test]
fn malformed_lines_do_not_parse() {
    assert!(parse_record("no commas").is_none());
    assert!(parse_record("one,comma").is_none());
    assert!(parse_record("k,,t").is_none());
    assert!(parse_record("k,12a,t").is_none());
    assert!(parse_record("k,99999999999999999999999,t").is_none());
    let r = parse_record("k,007,t,u").unwrap();
    assert_eq!((r.key.as_str(), r.size, r.timestamp.as_str()), ("k", 7, "t,u"));
}

#[test]
fn manifest_path_is_partition_keyed() {
    assert_eq!(manifest_path("my-bucket", "00ff"), "my-bucket/00ff.txt");
}

#[test]
fn whole_manifest_parses_back_in_order() {
    let objs = vec![
        obj("00aa/b", 2, "2023-01-01T00:00:00Z"),
        obj("00aa/a", 1, "2023-01-02T00:00:00Z"),
        obj("00aa/c d", 300, "t,with,commas"),
    ];
    let text = render_manifest(&objs);
    let parsed = parse_manifest(&text).unwrap();
    assert_eq!(triples(&parsed), triples(&objs));
    assert!(parse_manifest(&render_manifest(&vec![])).unwrap().is_empty());
}

#[test]
fn malformed_manifests_do_not_parse() {
    assert!(parse_manifest("").is_none());
    assert!(parse_manifest("key,size,timestamp").is_none());
    assert!(parse_manifest("key,size,stamp\na,1,t\n").is_none());
    assert!(parse_manifest("key,size,timestamp\na,1,t").is_none());
    assert!(parse_manifest("key,size,timestamp\na,x,t\n").is_none());
    let one = parse_manifest("key,size,timestamp\na,1,t\n").unwrap();
    assert_eq!(triples(&one), vec![("a".to_string(), 1, "t".to_string())]);
}

#[test]
fn empty_key_or_timestamp_fails_the_listing() {
    assert_eq!(list_pages(&vec![page(vec![raw("", 1, "t")], vec![])]).err(), Some(ListError::EmptyKey));
    assert_eq!(list_pages(&vec![page(vec![raw("k", 1, "")], vec![])]).err(), Some(ListError::EmptyTimestamp));
    assert_eq!(list_pages(&vec![page(vec![raw("", 1, "")], vec![])]).err(), Some(ListError::EmptyKey));
    let mut listing = Listing::new();
    assert_eq!(listing.add_page(&page(vec![raw("a", 1, "t"), raw("b", 2, "")], vec![])), Err(ListError::EmptyTimestamp));
    assert!(listing.objects.is_empty());
}
