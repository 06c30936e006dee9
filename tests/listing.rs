use nvidia_update::{changed, compare_names, parse_listing, parse_listing_bytes, Inventory};

fn inventory(entries: &[(&str, &str)]) -> Inventory {
    let mut inv = Inventory::new();
    for (name, version) in entries {
        inv.insert(name.to_string(), version.to_string());
    }
    inv
}

#[test]
fn installed_line_is_read() {
    let inv = parse_listing("ii  nvidia-driver  535.129.03  amd64  desc");
    assert_eq!(inv.names(), vec!["nvidia-driver".to_string()]);
    assert_eq!(inv.version_of("nvidia-driver"), Some("535.129.03".to_string()));
}

#[test]
fn removed_line_is_skipped() {
    let inv = parse_listing("rc  nvidia-driver  535.129.03  amd64  desc");
    assert!(inv.names().is_empty());
}

#[test]
fn short_line_is_skipped() {
    let inv = parse_listing("ii  nvidia-driver\nii\n\n");
    assert!(inv.names().is_empty());
    assert_eq!(inv.version_of("nvidia-driver"), None);
}

#[test]
fn held_status_counts_as_installed() {
    let inv = parse_listing("hi nvidia-utils 535.1 amd64\niU nvidia-half 1.0 amd64");
    assert_eq!(inv.names(), vec!["nvidia-utils".to_string()]);
    assert_eq!(inv.version_of("nvidia-utils"), Some("535.1".to_string()));
}

#[test]
fn full_listing_is_sorted_by_name() {
    let text = "Desired=Unknown/Install/Remove/Purge/Hold\n\
| Status=Not/Inst/Conf-files/Unpacked/halF-conf/Half-inst/trig-aWait/Trig-pend\n\
||/ Name           Version      Architecture Description\n\
+++-==============-============-============-=================\n\
ii  nvidia-utils   535.129.03   amd64        NVIDIA driver support binaries\n\
rc  nvidia-old     470.1        amd64        removed\n\
ii  libnvidia-gl   535.129.03   amd64        NVIDIA OpenGL\n\
ii  nvidia-driver  535.129.03   amd64        NVIDIA driver metapackage\n";
    let inv = parse_listing(text);
    assert_eq!(
        inv.names(),
        vec!["libnvidia-gl".to_string(), "nvidia-driver".to_string(), "nvidia-utils".to_string()]
    );
    assert_eq!(inv.version_of("nvidia-old"), None);
}

#[test]
fn tabs_and_unicode_spaces_separate_fields() {
    let inv = parse_listing("ii\tnvidia-a\u{00a0}1.0\u{3000}amd64\r\n");
    assert_eq!(inv.version_of("nvidia-a"), Some("1.0".to_string()));
}

#[test]
fn later_line_wins() {
    let inv = parse_listing("ii a 1 x\nii a 2 x");
    assert_eq!(inv.version_of("a"), Some("2".to_string()));
    assert_eq!(inv.names().len(), 1);
}

#[test]
fn empty_listing_is_empty() {
    assert!(parse_listing("").names().is_empty());
}

#[test]
fn invalid_utf8_is_rejected() {
    assert!(parse_listing_bytes(vec![b'i', b'i', b' ', 0xff, 0xfe]).is_none());
    let inv = parse_listing_bytes(b"ii nvidia-x 2.0 amd64\n".to_vec()).unwrap();
    assert_eq!(inv.version_of("nvidia-x"), Some("2.0".to_string()));
    let inv = parse_listing_bytes("ii nvidia-\u{e9}t\u{e9} 3.0\u{2009}amd64".as_bytes().to_vec()).unwrap();
    assert_eq!(inv.names(), vec!["nvidia-\u{e9}t\u{e9}".to_string()]);
    assert_eq!(inv.version_of("nvidia-\u{e9}t\u{e9}"), Some("3.0".to_string()));
}

#[test]
fn same_entries_in_any_order_are_unchanged() {
    let a = inventory(&[("b", "2"), ("a", "1")]);
    let b = inventory(&[("a", "1"), ("b", "2")]);
    assert!(!changed(&a, &b));
    assert_eq!(a.names(), b.names());
}

#[test]
fn version_change_is_a_change() {
    let a = inventory(&[("a", "1"), ("b", "2")]);
    let b = inventory(&[("a", "1"), ("b", "3")]);
    assert!(changed(&a, &b));
}

#[test]
fn addition_and_removal_are_changes() {
    let a = inventory(&[("a", "1")]);
    let b = inventory(&[("a", "1"), ("c", "1")]);
    assert!(changed(&a, &b));
    assert!(changed(&b, &a));
    assert!(!changed(&Inventory::new(), &Inventory::new()));
    assert!(changed(&Inventory::new(), &a));
}

#[test]
fn insert_replaces_version() {
    let mut a = inventory(&[("a", "1")]);
    a.insert("a".to_string(), "9".to_string());
    assert_eq!(a.version_of("a"), Some("9".to_string()));
    assert_eq!(a.names().len(), 1);
}

#[test]
fn names_compare_by_code_point() {
    assert!(compare_names("a", "b") < 0);
    assert!(compare_names("b", "a") > 0);
    assert_eq!(compare_names("abc", "abc"), 0);
    assert!(compare_names("ab", "abc") < 0);
    assert!(compare_names("Z", "a") < 0);
    assert!(compare_names("", "a") < 0);
}
