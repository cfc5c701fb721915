use apfsrelic::device::sparsebundle::{
    band_name, band_stats, info_plist, plan_reads, plist_int, plist_string, BandEntry, BandRead,
};
use apfsrelic::error::ErrorKind;

const PLIST: &str = r#"<?xml version="1.0"?><plist version="1.0"><dict>
<key>band-size</key><integer>16</integer>
<key>size</key><integer>40</integer>
<key>uuid</key><string>abc-123</string>
<key>bundle-backingstore-version</key><integer>2</integer>
</dict></plist>"#;

#[test]
fn reads_plist_fields() {
    assert_eq!(plist_int(PLIST, "band-size"), Some(16));
    assert_eq!(plist_int(PLIST, "size"), Some(40));
    assert_eq!(plist_int(PLIST, "bundle-backingstore-version"), Some(2));
    assert_eq!(plist_string(PLIST, "uuid").as_deref(), Some("abc-123"));
    assert_eq!(plist_int(PLIST, "missing"), None);
    assert_eq!(plist_int(PLIST, "uuid"), None);
}

#[test]
fn plist_without_size_has_no_size_field() {
    let buf = "<plist><dict><key>band-size</key><integer>16</integer></dict></plist>";
    assert_eq!(plist_int(buf, "band-size"), Some(16));
    assert_eq!(plist_int(buf, "size"), None);
}

#[test]
fn splits_reads_at_band_boundaries() {
    assert_eq!(
        plan_reads(8, 16, 16),
        vec![
            BandRead { band: 0, within: 8, len: 8 },
            BandRead { band: 1, within: 0, len: 8 },
        ]
    );
    assert_eq!(plan_reads(32, 8, 16), vec![BandRead { band: 2, within: 0, len: 8 }]);
    assert!(plan_reads(5, 0, 16).is_empty());
}

#[test]
fn band_names_are_lowercase_hex() {
    assert_eq!(band_name(0), "0");
    assert_eq!(band_name(255), "ff");
    assert_eq!(band_name(0x1a2b), "1a2b");
}

fn file(name: &str, len: u64) -> BandEntry {
    BandEntry { name: name.to_string(), is_file: true, len }
}

#[test]
fn band_stats_reports_holes_and_ignores_short_final_band() {
    let entries = vec![file("0", 16), file("2", 4)];
    let stats = band_stats(16, 40, &entries);
    assert_eq!(stats.expected_bands, 3);
    assert_eq!(stats.present_bands, 2);
    assert_eq!(stats.missing_bands, vec![1]);
    assert!(!stats.missing_truncated);
    assert!(stats.short_bands.is_empty());
}

#[test]
fn band_stats_flags_short_inner_bands_and_skips_junk() {
    let entries = vec![
        file("1", 16),
        file("0", 3),
        file("zz-not-hex", 16),
        BandEntry { name: "2".to_string(), is_file: false, len: 0 },
    ];
    let stats = band_stats(16, 48, &entries);
    assert_eq!(stats.expected_bands, 3);
    assert_eq!(stats.present_bands, 2);
    assert_eq!(stats.missing_bands, vec![2]);
    assert_eq!(stats.short_bands, vec![0]);
}

#[test]
fn info_plist_gives_the_bundle_geometry() {
    let info = info_plist(PLIST).unwrap();
    assert_eq!(info.band_size, 16);
    assert_eq!(info.size, 40);
    assert_eq!(info.uuid.as_deref(), Some("abc-123"));
    assert_eq!(info.backingstore_version, Some(2));
}

#[test]
fn missing_size_is_unsupported_not_panic() {
    let buf = "<plist><dict><key>band-size</key><integer>16</integer></dict></plist>";
    assert_eq!(info_plist(buf).unwrap_err().kind(), ErrorKind::UnsupportedFeature);
}

#[test]
fn missing_or_zero_band_size_is_corrupt() {
    let none = "<plist><dict><key>size</key><integer>16</integer></dict></plist>";
    assert_eq!(info_plist(none).unwrap_err().kind(), ErrorKind::Corrupt);
    let zero = "<plist><dict><key>band-size</key><integer>0</integer><key>size</key><integer>16</integer></dict></plist>";
    assert_eq!(info_plist(zero).unwrap_err().kind(), ErrorKind::Corrupt);
}
