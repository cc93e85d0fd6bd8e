use pixelcreep::file_types::label_for_path;
use pixelcreep::status::vm_rss_kb;

#[test]
fn reads_vm_rss_from_proc_status() {
    let status = "Name:\tpixelcreep\nVmPeak:\t  200 kB\nVmRSS:\t   51234 kB\nVmData:\t 1 kB\n";
    assert_eq!(vm_rss_kb(status), Some(51234));
}

#[test]
fn vm_rss_edge_cases() {
    assert_eq!(vm_rss_kb(""), None);
    assert_eq!(vm_rss_kb("VmRSS:"), None);
    assert_eq!(vm_rss_kb("VmRSS:   \n"), None);
    assert_eq!(vm_rss_kb("VmRSS: 12kB"), None);
    assert_eq!(vm_rss_kb("VmRSS: +12 kB"), Some(12));
    assert_eq!(vm_rss_kb("VmRSS:7"), Some(7));
    assert_eq!(vm_rss_kb("VmRSS: 18446744073709551615 kB"), Some(u64::MAX));
    assert_eq!(vm_rss_kb("VmRSS: 18446744073709551616 kB"), None);
    assert_eq!(vm_rss_kb("  VmRSS: 5 kB\nVmRSS: 6 kB"), Some(6));
    assert_eq!(vm_rss_kb("VmRSS: 9 kB\r\n"), Some(9));
    assert_eq!(vm_rss_kb("VmRSS:\u{3000}42\u{a0}kB"), Some(42));
    assert_eq!(vm_rss_kb("xVmRSS: 3 kB"), None);
}

#[test]
fn vm_rss_matches_std_parsing() {
    for status in [
        "VmRSS: 10 kB\n",
        "Foo: 1\nVmRSS:\t\t99 kB\nBar: 2",
        "VmRSS: -4 kB",
        "VmRSS: 1a",
        "Foo\n\nVmRSS: 0 kB",
    ] {
        let expected = status
            .lines()
            .find_map(|line| line.strip_prefix("VmRSS:"))
            .and_then(|rest| rest.split_whitespace().next())
            .and_then(|tok| tok.parse::<u64>().ok());
        assert_eq!(vm_rss_kb(status), expected, "{status:?}");
    }
}

#[test]
fn labels_for_paths() {
    assert_eq!(label_for_path("/home/me/pic.png"), "pic.png");
    assert_eq!(label_for_path("/"), "Image");
}
