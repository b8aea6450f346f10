//! The report on domains, in CSV.
use crate::domain::{
    check_domain, law_dmarc_record_is_reported_in_full, law_mail_exchangers_are_reported,
    law_spf_record_is_reported_in_full, reports_first, text_of_record, DomainInfo, MxOutcome,
    TxtOutcome,
};
use crate::text::{join, joined, texts};
use vstd::prelude::*;

verus! {

/// Whether a field has to stand in quotes: it holds a comma, a quote or a line break.
pub open spec fn needs_quotes(field: Seq<char>) -> bool {
    exists|i: int|
        0 <= i < field.len() && (#[trigger] field[i] == ',' || field[i] == '"' || field[i] == '\r'
            || field[i] == '\n')
}

/// `field` with every quote doubled.
pub open spec fn quotes_doubled(field: Seq<char>) -> Seq<char>
    decreases field.len(),
{
    if field.len() == 0 {
        Seq::empty()
    } else if field[0] == '"' {
        seq!['"', '"'] + quotes_doubled(field.drop_first())
    } else {
        seq![field[0]] + quotes_doubled(field.drop_first())
    }
}

/// A field as it stands in a line.
pub open spec fn csv_field(field: Seq<char>) -> Seq<char> {
    if needs_quotes(field) {
        seq!['"'] + quotes_doubled(field) + seq!['"']
    } else {
        field
    }
}

/// The line for a record of two or more fields.
pub open spec fn csv_line(fields: Seq<Seq<char>>) -> Seq<char> {
    joined(fields.map_values(|f: Seq<char>| csv_field(f)), seq![',']) + seq!['\n']
}

/// `csv::Writer::write_record`, with the default settings and into memory, separates the
/// fields by commas, puts those in quotes that hold a comma, a quote or a line break, doubles
/// the quotes in these, and ends the line with a line feed. Writing into memory does not fail.
#[verifier::external_body]
fn encode_record(fields: &Vec<String>) -> (line: String)
    requires
        fields.len() >= 2,
    ensures
        line@ == csv_line(texts(fields@)),
{
    let mut writer = csv::Writer::from_writer(Vec::new());
    writer.write_record(fields).unwrap();
    String::from_utf8(writer.into_inner().unwrap()).unwrap()
}

/// The names of the columns.
pub open spec fn column_names() -> Seq<Seq<char>> {
    seq![
        "Domain"@,
        "Has MX"@,
        "Has SPF"@,
        "SPF Record"@,
        "Has DMARC"@,
        "DMARC Record"@,
        "MX Records"@,
        "Errors"@,
    ]
}

/// A yes or no as it stands in the report.
pub open spec fn flag_text(flag: bool) -> Seq<char> {
    if flag {
        "true"@
    } else {
        "false"@
    }
}

/// The fields of the line on a domain.
pub open spec fn report_fields(info: DomainInfo) -> Seq<Seq<char>> {
    seq![
        info.domain@,
        flag_text(info.has_mx),
        flag_text(info.has_spf),
        info.spf_record@,
        flag_text(info.has_dmarc),
        info.dmarc_record@,
        joined(texts(info.mx_records@), ";"@),
        joined(texts(info.errors@), ";"@),
    ]
}

/// A yes or no as it stands in the report.
fn flag(b: bool) -> (s: String)
    ensures
        s@ == flag_text(b),
{
    if b {
        "true".to_owned()
    } else {
        "false".to_owned()
    }
}

/// The first line of the report.
pub fn header_line() -> (line: String)
    ensures
        line@ == csv_line(column_names()),
{
    let mut fields: Vec<String> = Vec::new();
    fields.push("Domain".to_owned());
    fields.push("Has MX".to_owned());
    fields.push("Has SPF".to_owned());
    fields.push("SPF Record".to_owned());
    fields.push("Has DMARC".to_owned());
    fields.push("DMARC Record".to_owned());
    fields.push("MX Records".to_owned());
    fields.push("Errors".to_owned());
    assert(texts(fields@) == column_names());
    encode_record(&fields)
}

/// The fields of the line on a domain.
pub fn result_fields(info: &DomainInfo) -> (fields: Vec<String>)
    ensures
        texts(fields@) == report_fields(*info),
{
    let mut fields: Vec<String> = Vec::new();
    fields.push(info.domain.clone());
    fields.push(flag(info.has_mx));
    fields.push(flag(info.has_spf));
    fields.push(info.spf_record.clone());
    fields.push(flag(info.has_dmarc));
    fields.push(info.dmarc_record.clone());
    fields.push(join(&info.mx_records, ";"));
    fields.push(join(&info.errors, ";"));
    assert(texts(fields@) == report_fields(*info));
    fields
}

/// The line on a domain.
pub fn write_result(info: &DomainInfo) -> (line: String)
    ensures
        line@ == csv_line(report_fields(*info)),
{
    let fields = result_fields(info);
    assert(texts(fields@).len() == fields.len());
    encode_record(&fields)
}

/// Reads a field in quotes, behind its opening quote: its text, and what follows the closing
/// quote.
pub open spec fn read_quoted(s: Seq<char>) -> (Seq<char>, Seq<char>)
    decreases s.len(),
{
    if s.len() == 0 {
        (Seq::empty(), Seq::empty())
    } else if s[0] != '"' {
        let (text, rest) = read_quoted(s.skip(1));
        (seq![s[0]] + text, rest)
    } else if s.len() > 1 && s[1] == '"' {
        let (text, rest) = read_quoted(s.skip(2));
        (seq!['"'] + text, rest)
    } else {
        (Seq::empty(), s.skip(1))
    }
}

/// Reads a field without quotes: its text, and what follows from the next comma or line feed
/// on.
pub open spec fn read_bare(s: Seq<char>) -> (Seq<char>, Seq<char>)
    decreases s.len(),
{
    if s.len() == 0 || s[0] == ',' || s[0] == '\n' {
        (Seq::empty(), s)
    } else {
        let (text, rest) = read_bare(s.skip(1));
        (seq![s[0]] + text, rest)
    }
}

/// Reads a field: its text, and what follows it.
pub open spec fn read_field(s: Seq<char>) -> (Seq<char>, Seq<char>) {
    if s.len() > 0 && s[0] == '"' {
        read_quoted(s.skip(1))
    } else {
        read_bare(s)
    }
}

/// Reads a line by the rules of CSV, up to `most` fields.
pub open spec fn read_line(s: Seq<char>, most: nat) -> Seq<Seq<char>>
    decreases most,
{
    if most == 0 {
        Seq::empty()
    } else {
        let (field, rest) = read_field(s);
        if rest.len() > 0 && rest[0] == ',' {
            seq![field] + read_line(rest.skip(1), (most - 1) as nat)
        } else {
            seq![field]
        }
    }
}

/// Doubled quotes read back as single ones.
proof fn lemma_quoted_reads_back(field: Seq<char>, rest: Seq<char>)
    requires
        rest.len() > 0,
        rest[0] != '"',
    ensures
        read_quoted(quotes_doubled(field) + seq!['"'] + rest) == (field, rest),
    decreases field.len(),
{
    let s = quotes_doubled(field) + seq!['"'] + rest;
    if field.len() == 0 {
        assert(s == seq!['"'] + rest);
        assert(s[1] == rest[0]);
        assert(s.skip(1) == rest);
        assert(field == Seq::<char>::empty());
    } else {
        let tail = field.drop_first();
        let inner = quotes_doubled(tail) + seq!['"'] + rest;
        lemma_quoted_reads_back(tail, rest);
        assert(seq![field[0]] + tail == field);
        if field[0] == '"' {
            assert(s == seq!['"', '"'] + inner);
            assert(s.skip(2) == inner);
        } else {
            assert(s == seq![field[0]] + inner);
            assert(s.skip(1) == inner);
        }
    }
}

/// A field that needs no quotes reads back as it is.
proof fn lemma_bare_reads_back(field: Seq<char>, rest: Seq<char>)
    requires
        !needs_quotes(field),
        rest.len() > 0,
        rest[0] == ',' || rest[0] == '\n',
    ensures
        read_bare(field + rest) == (field, rest),
    decreases field.len(),
{
    let s = field + rest;
    if field.len() == 0 {
        assert(s == rest);
        assert(field == Seq::<char>::empty());
    } else {
        let tail = field.drop_first();
        assert(s[0] == field[0]);
        assert(!(field[0] == ',' || field[0] == '\n'));
        assert forall|i: int| 0 <= i < tail.len() implies !(#[trigger] tail[i] == ',' || tail[i]
            == '"' || tail[i] == '\r' || tail[i] == '\n') by {
            assert(tail[i] == field[i + 1]);
        }
        lemma_bare_reads_back(tail, rest);
        assert(s.skip(1) == tail + rest);
        assert(seq![field[0]] + tail == field);
    }
}

/// A field reads back from the form in which it stands in a line.
proof fn lemma_field_reads_back(field: Seq<char>, rest: Seq<char>)
    requires
        rest.len() > 0,
        rest[0] == ',' || rest[0] == '\n',
    ensures
        read_field(csv_field(field) + rest) == (field, rest),
{
    let s = csv_field(field) + rest;
    if needs_quotes(field) {
        assert(s.skip(1) == quotes_doubled(field) + seq!['"'] + rest);
        lemma_quoted_reads_back(field, rest);
    } else {
        lemma_bare_reads_back(field, rest);
        if field.len() > 0 {
            assert(field[0] != '"');
            assert(s[0] == field[0]);
        } else {
            assert(s == rest);
        }
    }
}

/// The first of several parts comes first when they are joined.
proof fn lemma_joined_front(parts: Seq<Seq<char>>, separator: Seq<char>)
    requires
        parts.len() >= 2,
    ensures
        joined(parts, separator) == parts[0] + separator + joined(parts.drop_first(), separator),
    decreases parts.len(),
{
    if parts.len() == 2 {
        assert(parts.drop_last()[0] == parts[0]);
        assert(joined(parts.drop_last(), separator) == parts[0]);
        assert(joined(parts.drop_first(), separator) == parts[1]);
        assert(joined(parts, separator) == parts[0] + separator + parts[1]);
    } else {
        lemma_joined_front(parts.drop_last(), separator);
        assert(parts.drop_last().drop_first() == parts.drop_first().drop_last());
        assert(parts.drop_last()[0] == parts[0]);
        assert(parts.drop_first().last() == parts.last());
        let middle = joined(parts.drop_first().drop_last(), separator);
        assert(joined(parts.drop_first(), separator) == middle + separator + parts.last());
        assert(joined(parts, separator) == parts[0] + separator + (middle + separator
            + parts.last()));
    }
}

/// The fields of a line read back from it by the rules of CSV.
pub proof fn law_line_reads_back(fields: Seq<Seq<char>>, most: nat)
    requires
        0 < fields.len() <= most,
    ensures
        read_line(csv_line(fields), most) == fields,
    decreases fields.len(),
{
    let forms = fields.map_values(|f: Seq<char>| csv_field(f));
    let line = csv_line(fields);
    if fields.len() == 1 {
        assert(line == csv_field(fields[0]) + seq!['\n']);
        lemma_field_reads_back(fields[0], seq!['\n']);
        assert(read_line(line, most) == seq![fields[0]]);
        assert(seq![fields[0]] == fields);
    } else {
        let tail = fields.drop_first();
        law_line_reads_back(tail, (most - 1) as nat);
        lemma_joined_front(forms, seq![',']);
        assert(forms.drop_first() == tail.map_values(|f: Seq<char>| csv_field(f)));
        let rest = seq![','] + csv_line(tail);
        assert(line == csv_field(fields[0]) + rest);
        lemma_field_reads_back(fields[0], rest);
        assert(rest.skip(1) == csv_line(tail));
        assert(seq![fields[0]] + tail == fields);
    }
}

/// Every line of the report has as many fields as the report has columns.
pub proof fn law_lines_fill_the_columns(info: DomainInfo)
    ensures
        report_fields(info).len() == column_names().len(),
{
}

/// The columns of the report, in order.
pub open spec fn documented_columns() -> Seq<Seq<char>> {
    seq![
        "Domain"@,
        "Has MX"@,
        "Has SPF"@,
        "SPF Record"@,
        "Has DMARC"@,
        "DMARC Record"@,
        "MX Records"@,
        "Errors"@,
    ]
}

/// The names of the columns are different from each other.
proof fn lemma_columns_differ()
    ensures
        documented_columns().no_duplicates(),
{
    reveal_strlit("Domain");
    reveal_strlit("Has MX");
    reveal_strlit("Has SPF");
    reveal_strlit("SPF Record");
    reveal_strlit("Has DMARC");
    reveal_strlit("DMARC Record");
    reveal_strlit("MX Records");
    reveal_strlit("Errors");
    let names = documented_columns();
    assert(names[0][0] == 'D' && names[1][0] == 'H' && names[7][0] == 'E');
    assert(names[3][0] == 'S' && names[6][0] == 'M');
    assert(names[0].len() == 6 && names[1].len() == 6 && names[2].len() == 7 && names[3].len() == 10
        && names[4].len() == 9 && names[5].len() == 12 && names[6].len() == 10 && names[7].len()
        == 6);
}

/// `true` and `false` are different texts.
proof fn lemma_flags_differ()
    ensures
        "true"@ != "false"@,
{
    reveal_strlit("true");
    reveal_strlit("false");
    assert("true"@.len() != "false"@.len());
}

/// The first line of the report reads, by the rules of CSV, as the names of the columns.
pub proof fn law_header_names_the_columns(header: String)
    requires
        call_ensures(header_line, (), header),
    ensures
        read_line(header@, 8) == documented_columns(),
{
    law_line_reads_back(column_names(), 8);
}

/// Whether a field reads as a yes or a no, as the case may be.
pub open spec fn reads_as_flag(field: Seq<char>, flag: bool) -> bool {
    &&& field == "true"@ <==> flag
    &&& field == "false"@ <==> !flag
}

/// Column by column, the line on a domain says what the column is named after.
pub proof fn law_line_says_what_its_columns_name(
    info: DomainInfo,
    header: String,
    line: String,
    hosts: String,
    errors: String,
    separator: &str,
    i: int,
)
    requires
        call_ensures(header_line, (), header),
        call_ensures(write_result, (&info,), line),
        separator@ == seq![';'],
        call_ensures(join, (&info.mx_records, separator), hosts),
        call_ensures(join, (&info.errors, separator), errors),
        0 <= i < 8,
    ensures
        read_line(header@, 8).len() == 8,
        read_line(line@, 8).len() == 8,
        ({
            let name = read_line(header@, 8)[i];
            let field = read_line(line@, 8)[i];
            &&& name == "Domain"@ ==> field == info.domain@
            &&& name == "Has MX"@ ==> reads_as_flag(field, info.has_mx)
            &&& name == "Has SPF"@ ==> reads_as_flag(field, info.has_spf)
            &&& name == "SPF Record"@ ==> field == info.spf_record@
            &&& name == "Has DMARC"@ ==> reads_as_flag(field, info.has_dmarc)
            &&& name == "DMARC Record"@ ==> field == info.dmarc_record@
            &&& name == "MX Records"@ ==> field == hosts@
            &&& name == "Errors"@ ==> field == errors@
        }),
{
    law_header_names_the_columns(header);
    law_line_reads_back(report_fields(info), 8);
    lemma_columns_differ();
    lemma_flags_differ();
    reveal_strlit(";");
    assert(";"@ =~= seq![';']);
    let names = documented_columns();
    assert(names[0] == "Domain"@ && names[1] == "Has MX"@ && names[2] == "Has SPF"@ && names[3]
        == "SPF Record"@ && names[4] == "Has DMARC"@ && names[5] == "DMARC Record"@ && names[6]
        == "MX Records"@ && names[7] == "Errors"@);
}

/// The line on a domain is made of the fields that `result_fields` gives.
pub proof fn law_line_holds_the_fields(info: DomainInfo, fields: Vec<String>, line: String, i: int)
    requires
        call_ensures(result_fields, (&info,), fields),
        call_ensures(write_result, (&info,), line),
        0 <= i < 8,
    ensures
        fields.len() == 8,
        read_line(line@, 8)[i] == fields[i]@,
{
    law_line_reads_back(report_fields(info), 8);
    assert(texts(fields@).len() == fields.len());
    assert(texts(fields@)[i] == fields[i]@);
}

/// The report on what the lookups for a domain gave: under `Has MX` it says yes exactly when a
/// mail exchanger was found, under `Has SPF` and `Has DMARC` exactly when the lookup found a text
/// that begins with the prefix, and under `SPF Record` and `DMARC Record` it gives that text in
/// full.
pub proof fn law_report_says_what_was_found(
    domain: &str,
    mx: MxOutcome,
    spf: Vec<Option<Vec<Vec<u8>>>>,
    dmarc: Vec<Option<Vec<Vec<u8>>>>,
    info: DomainInfo,
    spf_texts: Seq<String>,
    dmarc_texts: Seq<String>,
    line: String,
)
    requires
        call_ensures(
            check_domain,
            (domain, mx, TxtOutcome::Found(spf), TxtOutcome::Found(dmarc)),
            info,
        ),
        call_ensures(write_result, (&info,), line),
        spf_texts.len() == spf.len(),
        dmarc_texts.len() == dmarc.len(),
        forall|i: int|
            0 <= i < spf.len() ==> call_ensures(
                text_of_record,
                (&spf[i],),
                #[trigger] spf_texts[i],
            ),
        forall|i: int|
            0 <= i < dmarc.len() ==> call_ensures(
                text_of_record,
                (&dmarc[i],),
                #[trigger] dmarc_texts[i],
            ),
    ensures
        ({
            let fields = read_line(line@, 8);
            &&& fields.len() == 8
            &&& fields[0] == domain@
            &&& reads_as_flag(fields[1], mx matches MxOutcome::Found(hosts) && hosts.len() > 0)
            &&& fields[2] == "true"@ || fields[2] == "false"@
            &&& reports_first(
                spf_texts,
                seq!['v', '=', 's', 'p', 'f', '1'],
                fields[2] == "true"@,
                fields[3],
            )
            &&& fields[4] == "true"@ || fields[4] == "false"@
            &&& reports_first(
                dmarc_texts,
                seq!['v', '=', 'D', 'M', 'A', 'R', 'C', '1'],
                fields[4] == "true"@,
                fields[5],
            )
        }),
{
    law_line_reads_back(report_fields(info), 8);
    lemma_flags_differ();
    law_mail_exchangers_are_reported(
        domain,
        mx,
        TxtOutcome::Found(spf),
        TxtOutcome::Found(dmarc),
        info,
    );
    law_spf_record_is_reported_in_full(
        domain,
        mx,
        TxtOutcome::Found(spf),
        TxtOutcome::Found(dmarc),
        info,
        spf_texts,
    );
    law_dmarc_record_is_reported_in_full(
        domain,
        mx,
        TxtOutcome::Found(spf),
        TxtOutcome::Found(dmarc),
        info,
        dmarc_texts,
    );
}

/// A line ends with a line feed. A field stands in it as it is, unless it holds a comma, a quote
/// or a line break.
pub proof fn law_plain_fields_stand_as_they_are(fields: Seq<Seq<char>>)
    ensures
        csv_line(fields).len() > 0,
        csv_line(fields).last() == '\n',
        (forall|k: int, i: int|
            0 <= k < fields.len() && 0 <= i < fields[k].len() ==> !seq![
                ',',
                '"',
                '\r',
                '\n',
            ].contains(#[trigger] fields[k][i])) ==> csv_line(fields) == joined(fields, seq![','])
            + seq!['\n'],
{
    let special = seq![',', '"', '\r', '\n'];
    if forall|k: int, i: int|
        0 <= k < fields.len() && 0 <= i < fields[k].len() ==> !special.contains(
            #[trigger] fields[k][i],
        ) {
        assert(special[0] == ',' && special[1] == '"' && special[2] == '\r' && special[3] == '\n');
        assert forall|k: int| 0 <= k < fields.len() implies csv_field(fields[k]) == fields[k] by {
            if needs_quotes(fields[k]) {
                let i = choose|i: int|
                    0 <= i < fields[k].len() && (#[trigger] fields[k][i] == ',' || fields[k][i]
                        == '"' || fields[k][i] == '\r' || fields[k][i] == '\n');
                assert(!special.contains(fields[k][i]));
                assert(false);
            }
        }
        assert(fields.map_values(|f: Seq<char>| csv_field(f)) =~= fields);
    }
}

} // verus!
