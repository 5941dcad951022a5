use mangameeya_reborn::metrics::FixtureInfo;

#[test]
fn fixture_info_holds_its_fields() {
    let info = FixtureInfo { path: "bench-fixture.zip".to_string(), size_bytes: 42, page_count: 250 };
    assert_eq!(info.path, "bench-fixture.zip");
    assert_eq!(info.size_bytes, 42);
    assert_eq!(info.page_count, 250);
    let empty = FixtureInfo::default();
    assert_eq!((empty.path.as_str(), empty.size_bytes, empty.page_count), ("", 0, 0));
}

