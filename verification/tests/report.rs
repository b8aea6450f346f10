use net_tools::domain::{check_domain, DomainInfo, MxOutcome, TxtOutcome};
use net_tools::report::{header_line, result_fields, write_result};

fn strings(parts: &[&str]) -> Vec<String> {
    parts.iter().map(|p| p.to_string()).collect()
}

fn read_back(line: &str) -> Vec<String> {
    let mut reader = csv::ReaderBuilder::new().has_headers(false).from_reader(line.as_bytes());
    let record = reader.records().next().unwrap().unwrap();
    record.iter().map(|f| f.to_string()).collect()
}

#[test]
fn header_names_the_columns() {
    assert_eq!(
        header_line(),
        "Domain,Has MX,Has SPF,SPF Record,Has DMARC,DMARC Record,MX Records,Errors\n"
    );
}

#[test]
fn line_on_a_domain_with_all_records() {
    let info = check_domain(
        "google.com",
        MxOutcome::Found(strings(&[
            "aspmx.l.google.com",
            "alt1.aspmx.l.google.com",
            "alt2.aspmx.l.google.com",
            "alt3.aspmx.l.google.com",
            "alt4.aspmx.l.google.com",
        ])),
        TxtOutcome::Found(vec![Some(vec![b"v=spf1 include:_spf.google.com ~all".to_vec()])]),
        TxtOutcome::Found(vec![Some(vec![
            b"v=DMARC1; p=reject; sp=reject; rua=mailto:mailauth-reports@google.com".to_vec(),
        ])]),
    );
    assert_eq!(
        write_result(&info),
        "google.com,true,true,v=spf1 include:_spf.google.com ~all,true,v=DMARC1; p=reject; sp=reject; rua=mailto:mailauth-reports@google.com,aspmx.l.google.com;alt1.aspmx.l.google.com;alt2.aspmx.l.google.com;alt3.aspmx.l.google.com;alt4.aspmx.l.google.com,\n"
    );
}

#[test]
fn line_on_a_domain_that_does_not_exist() {
    let info = check_domain(
        "nonexistent.xyz",
        MxOutcome::Failed("no such host".to_string()),
        TxtOutcome::Failed("no such host".to_string()),
        TxtOutcome::Failed("no such host".to_string()),
    );
    assert_eq!(
        write_result(&info),
        "nonexistent.xyz,false,false,,false,,,MX lookup error: no such host;SPF lookup error: no such host;DMARC lookup error: no such host\n"
    );
}

fn awkward() -> DomainInfo {
    DomainInfo {
        domain: "a,b".to_string(),
        has_mx: true,
        has_spf: false,
        spf_record: "say \"hi\"".to_string(),
        has_dmarc: true,
        dmarc_record: "line\nbreak".to_string(),
        mx_records: strings(&["x", "\r"]),
        errors: strings(&["\u{e9}\"", ""]),
    }
}

#[test]
fn awkward_fields_are_quoted() {
    assert_eq!(
        write_result(&awkward()),
        "\"a,b\",true,false,\"say \"\"hi\"\"\",true,\"line\nbreak\",\"x;\r\",\"\u{e9}\"\";\"\n"
    );
}

#[test]
fn lines_read_back() {
    assert_eq!(read_back(&write_result(&awkward())), result_fields(&awkward()));
}

#[test]
fn long_fields_are_written_whole() {
    let mut info = awkward();
    info.spf_record = "\",".repeat(20_000);
    info.dmarc_record = "x".repeat(8191);
    let line = write_result(&info);
    assert_eq!(read_back(&line), result_fields(&info));
    assert!(line.contains(&format!("\"{}\"", "\"\",".repeat(20_000))));
}

#[test]
fn lines_fill_the_columns() {
    assert_eq!(result_fields(&awkward()).len(), 8);
    assert_eq!(read_back(&header_line()).len(), 8);
}
