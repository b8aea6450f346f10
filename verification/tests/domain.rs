use net_tools::domain::{
    check_domain, dmarc_domain, domain_on_line, find_record, join_strings, text_of_record, MxOutcome,
    TxtOutcome,
};

fn strings(parts: &[&str]) -> Vec<String> {
    parts.iter().map(|p| p.to_string()).collect()
}

fn record(parts: &[&str]) -> Option<Vec<Vec<u8>>> {
    Some(parts.iter().map(|p| p.as_bytes().to_vec()).collect())
}

#[test]
fn blank_lines_hold_no_domain() {
    assert_eq!(domain_on_line("  example.com \r"), Some("example.com".to_string()));
    assert_eq!(domain_on_line(""), None);
    assert_eq!(domain_on_line(" \t\u{3000}"), None);
}

#[test]
fn dmarc_is_looked_up_under_its_own_name() {
    assert_eq!(dmarc_domain("example.com"), "_dmarc.example.com");
    assert_eq!(dmarc_domain(""), "_dmarc.");
}

#[test]
fn first_record_with_the_prefix_is_found() {
    let records = strings(&["google-site-verification=x", "", "v=spf1 a ~all", "v=spf1 -all"]);
    assert_eq!(find_record(&records, "v=spf1"), Some("v=spf1 a ~all".to_string()));
    assert_eq!(find_record(&records, "v=DMARC1"), None);
    assert_eq!(find_record(&Vec::new(), "v=spf1"), None);
    assert_eq!(find_record(&strings(&["xv=spf1"]), "v=spf1"), None);
}

#[test]
fn records_are_read_as_a_whole() {
    assert_eq!(join_strings(&vec![vec![1, 2], Vec::new(), vec![3]]), vec![1, 2, 3]);
    assert_eq!(join_strings(&Vec::new()), Vec::<u8>::new());
    assert_eq!(text_of_record(&record(&["v=sp", "f1 include:a", " ~all"])), "v=spf1 include:a ~all");
    assert_eq!(text_of_record(&None), "");
    // A character may be split between two strings.
    assert_eq!(text_of_record(&Some(vec![b"caf\xc3".to_vec(), b"\xa9".to_vec()])), "caf\u{e9}");
    assert_eq!(text_of_record(&Some(vec![b"a\xffb".to_vec()])), "a\u{fffd}b");
}

#[test]
fn split_records_are_found() {
    let info = check_domain(
        "example.com",
        MxOutcome::TimedOut,
        TxtOutcome::Found(vec![
            record(&["google-site-verification=x"]),
            None,
            record(&["v=sp", "f1 include:a", " ~all"]),
            record(&["v=spf1 -all"]),
        ]),
        TxtOutcome::Found(vec![Some(vec![b"v=DMARC1; caf\xc3".to_vec(), b"\xa9".to_vec()])]),
    );
    assert!(info.has_spf && info.has_dmarc);
    assert_eq!(info.spf_record, "v=spf1 include:a ~all");
    assert_eq!(info.dmarc_record, "v=DMARC1; caf\u{e9}");
}

#[test]
fn findings_of_three_lookups() {
    let info = check_domain(
        "google.com",
        MxOutcome::Found(strings(&["aspmx.l.google.com", "alt1.aspmx.l.google.com"])),
        TxtOutcome::Found(vec![record(&["v=spf1 include:_spf.google.com ~all"])]),
        TxtOutcome::Found(vec![record(&["v=DMARC1; p=reject"])]),
    );
    assert_eq!(info.domain, "google.com");
    assert!(info.has_mx && info.has_spf && info.has_dmarc);
    assert_eq!(info.mx_records, strings(&["aspmx.l.google.com", "alt1.aspmx.l.google.com"]));
    assert_eq!(info.spf_record, "v=spf1 include:_spf.google.com ~all");
    assert_eq!(info.dmarc_record, "v=DMARC1; p=reject");
    assert!(info.errors.is_empty());
}

#[test]
fn empty_answers_find_nothing() {
    let info = check_domain(
        "example.com",
        MxOutcome::Found(Vec::new()),
        TxtOutcome::Found(vec![record(&["v=DMARC1"]), None]),
        TxtOutcome::Found(vec![record(&["v=spf1"])]),
    );
    assert!(!info.has_mx && !info.has_spf && !info.has_dmarc);
    assert!(info.mx_records.is_empty() && info.errors.is_empty());
    assert_eq!(info.spf_record, "");
    assert_eq!(info.dmarc_record, "");
}

#[test]
fn failures_are_reported_in_order() {
    let info = check_domain(
        "nonexistent.xyz",
        MxOutcome::Failed("no such host".to_string()),
        TxtOutcome::Failed("no such host".to_string()),
        TxtOutcome::Failed("no such host".to_string()),
    );
    assert_eq!(
        info.errors,
        strings(&[
            "MX lookup error: no such host",
            "SPF lookup error: no such host",
            "DMARC lookup error: no such host",
        ])
    );
    assert!(!info.has_mx && !info.has_spf && !info.has_dmarc);
}

#[test]
fn timeouts_are_reported() {
    let info = check_domain("slow.example", MxOutcome::TimedOut, TxtOutcome::TimedOut, TxtOutcome::TimedOut);
    assert_eq!(
        info.errors,
        strings(&["MX lookup timeout", "SPF lookup timeout", "DMARC lookup timeout"])
    );
    let one = check_domain(
        "x",
        MxOutcome::Found(strings(&["mx"])),
        TxtOutcome::TimedOut,
        TxtOutcome::Found(Vec::new()),
    );
    assert_eq!(one.errors, strings(&["SPF lookup timeout"]));
    assert!(one.has_mx);
}
