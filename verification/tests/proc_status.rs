use alloyfang::proc_status::vm_rss_kb;

#[test]
fn reads_vm_rss_line() {
    let status = "Name:\tcat\nVmPeak:\t  8000 kB\nVmRSS:\t    1234 kB\nThreads:\t1\n";
    assert_eq!(vm_rss_kb(status), 1234);
}

#[test]
fn missing_line_gives_zero() {
    assert_eq!(vm_rss_kb("Name:\tcat\nThreads:\t1\n"), 0);
    assert_eq!(vm_rss_kb(""), 0);
}

#[test]
fn line_without_value_is_skipped() {
    assert_eq!(vm_rss_kb("VmRSS:\nVmRSS: 77 kB"), 77);
}

#[test]
fn unparsable_value_gives_zero() {
    assert_eq!(vm_rss_kb("VmRSS: 12x kB\nVmRSS: 5 kB\n"), 0);
    assert_eq!(vm_rss_kb("VmRSS: 99999999999999999999999 kB"), 0);
    assert_eq!(vm_rss_kb("VmRSS: - kB"), 0);
    assert_eq!(vm_rss_kb("VmRSS: + kB"), 0);
}

#[test]
fn value_forms_that_parse() {
    assert_eq!(vm_rss_kb("VmRSS: +42 kB"), 42);
    assert_eq!(vm_rss_kb("VmRSS:\t\u{3000}7\r\n"), 7);
    assert_eq!(vm_rss_kb("  VmRSS: 3"), 0);
    assert_eq!(vm_rss_kb("VmRSS:9 10"), 10);
}
