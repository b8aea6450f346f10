//! What the mail records of a domain say: its mail exchangers, its SPF record and its DMARC
//! record.
use crate::text::{
    is_core, is_white_space, law_trimmed_is_the_core, starts_with, texts, trim, trimmed,
};
use vstd::prelude::*;
use vstd::utf8::encode_utf8;

verus! {

/// The outcome of a lookup of mail exchangers.
#[derive(Debug)]
pub enum MxOutcome {
    /// The hosts that were found.
    Found(Vec<String>),
    /// The lookup failed, for the given reason.
    Failed(String),
    /// No answer came in time.
    TimedOut,
}

/// The outcome of a lookup of text records.
#[derive(Debug)]
pub enum TxtOutcome {
    /// The records that were found, each as the bytes of its character strings. A record that
    /// holds no text has none.
    Found(Vec<Option<Vec<Vec<u8>>>>),
    /// The lookup failed, for the given reason.
    Failed(String),
    /// No answer came in time.
    TimedOut,
}

/// What was found out about a domain.
#[derive(Debug)]
pub struct DomainInfo {
    pub domain: String,
    pub has_mx: bool,
    pub has_spf: bool,
    pub spf_record: String,
    pub has_dmarc: bool,
    pub dmarc_record: String,
    pub mx_records: Vec<String>,
    pub errors: Vec<String>,
}

/// The bytes of a record: its character strings one after the other.
pub open spec fn record_bytes(strings: Seq<Vec<u8>>) -> Seq<u8> {
    strings.map_values(|string: Vec<u8>| string@).flatten()
}

/// What `String::from_utf8_lossy` makes of bytes.
pub uninterp spec fn lossy_text(bytes: Seq<u8>) -> Seq<char>;

/// The text of a record. A record that holds no text is empty.
pub open spec fn record_text(record: Option<Vec<Vec<u8>>>) -> Seq<char> {
    match record {
        Some(strings) => lossy_text(record_bytes(strings@)),
        None => Seq::empty(),
    }
}

/// The texts of a list of records.
pub open spec fn record_texts(records: Seq<Option<Vec<Vec<u8>>>>) -> Seq<Seq<char>> {
    records.map_values(|record: Option<Vec<Vec<u8>>>| record_text(record))
}

/// Whether a record whose bytes are the UTF-8 of some text has that text.
pub open spec fn reads_as_utf8(record: Option<Vec<Vec<u8>>>) -> bool {
    forall|text: Seq<char>|
        record matches Some(strings) && record_bytes(strings@) == #[trigger] encode_utf8(text)
            ==> record_text(record) == text
}

/// The first text that begins with `prefix`.
pub open spec fn first_with_prefix(records: Seq<Seq<char>>, prefix: Seq<char>) -> Option<Seq<char>>
    decreases records.len(),
{
    if records.len() == 0 {
        None
    } else if prefix.is_prefix_of(records[0]) {
        Some(records[0])
    } else {
        first_with_prefix(records.drop_first(), prefix)
    }
}

/// The record with the given prefix that a lookup found.
pub open spec fn found_record(outcome: TxtOutcome, prefix: Seq<char>) -> Option<Seq<char>> {
    match outcome {
        TxtOutcome::Found(records) => first_with_prefix(record_texts(records@), prefix),
        _ => None,
    }
}

/// The hosts that a lookup found.
pub open spec fn found_hosts(outcome: MxOutcome) -> Seq<Seq<char>> {
    match outcome {
        MxOutcome::Found(hosts) => texts(hosts@),
        _ => Seq::empty(),
    }
}

/// The text of a record that may be missing.
pub open spec fn text_or_empty(record: Option<Seq<char>>) -> Seq<char> {
    match record {
        Some(text) => text,
        None => Seq::empty(),
    }
}

/// What is reported of the failure of a lookup of mail exchangers.
pub open spec fn mx_errors(outcome: MxOutcome) -> Seq<Seq<char>> {
    match outcome {
        MxOutcome::Found(_) => Seq::empty(),
        MxOutcome::Failed(reason) => seq!["MX lookup error: "@ + reason@],
        MxOutcome::TimedOut => seq!["MX lookup timeout"@],
    }
}

/// What is reported of the failure of a lookup of text records of the given kind.
pub open spec fn txt_errors(kind: Seq<char>, outcome: TxtOutcome) -> Seq<Seq<char>> {
    match outcome {
        TxtOutcome::Found(_) => Seq::empty(),
        TxtOutcome::Failed(reason) => seq![kind + " lookup error: "@ + reason@],
        TxtOutcome::TimedOut => seq![kind + " lookup timeout"@],
    }
}

/// `String::from_utf8_lossy`: the text of which the bytes are the UTF-8, where there is one. What
/// it makes of other bytes has a name.
#[verifier::external_body]
fn decode_lossy(bytes: &Vec<u8>) -> (text: String)
    ensures
        text@ == lossy_text(bytes@),
        forall|valid: Seq<char>| bytes@ == #[trigger] encode_utf8(valid) ==> text@ == valid,
{
    String::from_utf8_lossy(bytes).into_owned()
}

/// The bytes of a record.
pub fn join_strings(strings: &Vec<Vec<u8>>) -> (bytes: Vec<u8>)
    ensures
        bytes@ == record_bytes(strings@),
{
    let ghost all = strings@.map_values(|string: Vec<u8>| string@);
    let mut bytes: Vec<u8> = Vec::new();
    let mut i: usize = 0;
    assert(all.take(0) == Seq::<Seq<u8>>::empty());
    while i < strings.len()
        invariant
            i <= strings.len(),
            all == strings@.map_values(|string: Vec<u8>| string@),
            bytes@ == all.take(i as int).flatten(),
        decreases strings.len() - i,
    {
        bytes.extend_from_slice(strings[i].as_slice());
        proof {
            let grown = all.take(i + 1);
            grown.lemma_flatten_and_flatten_alt_are_equivalent();
            all.take(i as int).lemma_flatten_and_flatten_alt_are_equivalent();
            assert(grown.drop_last() == all.take(i as int));
            assert(grown.last() == strings[i as int]@);
        }
        i = i + 1;
    }
    assert(all.take(i as int) == all);
    bytes
}

/// The text of a record.
pub fn text_of_record(record: &Option<Vec<Vec<u8>>>) -> (text: String)
    ensures
        text@ == record_text(*record),
        reads_as_utf8(*record),
{
    match record {
        Some(strings) => decode_lossy(&join_strings(strings)),
        None => String::new(),
    }
}

/// The first text that begins with `prefix`.
pub fn find_record(records: &Vec<String>, prefix: &str) -> (record: Option<String>)
    ensures
        record is Some == first_with_prefix(texts(records@), prefix@) is Some,
        record matches Some(r) ==> first_with_prefix(texts(records@), prefix@) == Some(r@),
{
    let ghost all = texts(records@);
    let mut i: usize = 0;
    assert(all.skip(0) == all);
    while i < records.len()
        invariant
            i <= records.len(),
            all == texts(records@),
            first_with_prefix(all, prefix@) == first_with_prefix(all.skip(i as int), prefix@),
        decreases records.len() - i,
    {
        assert(all.skip(i as int).drop_first() == all.skip(i + 1));
        if starts_with(records[i].as_str(), prefix) {
            return Some(records[i].as_str().to_owned());
        }
        i = i + 1;
    }
    None
}

/// The name under which a domain's DMARC record is looked up.
pub fn dmarc_domain(domain: &str) -> (name: String)
    ensures
        name@ == "_dmarc."@ + domain@,
{
    let mut name = "_dmarc.".to_owned();
    name.append(domain);
    name
}

/// The domain on an input line, without white space around it. A blank line has none.
pub fn domain_on_line(line: &str) -> (domain: Option<String>)
    ensures
        domain is Some == (trimmed(line@).len() > 0),
        domain matches Some(d) ==> d@ == trimmed(line@),
{
    let domain = trim(line);
    if domain.is_empty() {
        None
    } else {
        Some(domain.to_owned())
    }
}

/// Adds what is reported of a failed lookup of text records.
fn report_txt(errors: &mut Vec<String>, kind: &str, outcome: &TxtOutcome)
    ensures
        texts(final(errors)@) == texts(old(errors)@) + txt_errors(kind@, *outcome),
{
    match outcome {
        TxtOutcome::Found(_) => {},
        TxtOutcome::Failed(reason) => {
            let mut message = kind.to_owned();
            message.append(" lookup error: ");
            message.append(reason.as_str());
            errors.push(message);
        },
        TxtOutcome::TimedOut => {
            let mut message = kind.to_owned();
            message.append(" lookup timeout");
            errors.push(message);
        },
    }
    assert(texts(errors@) == texts(old(errors)@) + txt_errors(kind@, *outcome));
}

/// Whether every record that a lookup found reads as the UTF-8 that it is.
pub open spec fn all_read_as_utf8(outcome: TxtOutcome) -> bool {
    outcome matches TxtOutcome::Found(records) ==> forall|i: int|
        0 <= i < records.len() ==> reads_as_utf8(#[trigger] records[i])
}

/// The record with the given prefix that a lookup found.
fn record_in(outcome: &TxtOutcome, prefix: &str) -> (record: Option<String>)
    ensures
        record is Some == found_record(*outcome, prefix@) is Some,
        record matches Some(r) ==> found_record(*outcome, prefix@) == Some(r@),
        all_read_as_utf8(*outcome),
{
    match outcome {
        TxtOutcome::Found(records) => {
            let mut decoded: Vec<String> = Vec::new();
            let mut i: usize = 0;
            while i < records.len()
                invariant
                    i <= records.len(),
                    texts(decoded@) == record_texts(records@).take(i as int),
                    forall|k: int| 0 <= k < i ==> reads_as_utf8(#[trigger] records[k]),
                decreases records.len() - i,
            {
                let ghost before = texts(decoded@);
                decoded.push(text_of_record(&records[i]));
                i = i + 1;
                assert(texts(decoded@) =~= before.push(record_text(records[i - 1])));
                assert(texts(decoded@) =~= record_texts(records@).take(i as int));
            }
            assert(texts(decoded@) == record_texts(records@));
            find_record(&decoded, prefix)
        },
        _ => None,
    }
}

/// Puts together what the three lookups for a domain gave: that of its mail exchangers, that
/// of its own text records, and that of the text records under its DMARC name.
pub fn check_domain(
    domain: &str,
    mx: MxOutcome,
    spf: TxtOutcome,
    dmarc: TxtOutcome,
) -> (info: DomainInfo)
    ensures
        info.domain@ == domain@,
        info.has_mx == (found_hosts(mx).len() > 0),
        texts(info.mx_records@) == found_hosts(mx),
        info.has_spf == found_record(spf, "v=spf1"@) is Some,
        info.spf_record@ == text_or_empty(found_record(spf, "v=spf1"@)),
        info.has_dmarc == found_record(dmarc, "v=DMARC1"@) is Some,
        info.dmarc_record@ == text_or_empty(found_record(dmarc, "v=DMARC1"@)),
        texts(info.errors@) == mx_errors(mx) + txt_errors("SPF"@, spf) + txt_errors(
            "DMARC"@,
            dmarc,
        ),
        all_read_as_utf8(spf),
        all_read_as_utf8(dmarc),
{
    let mut errors: Vec<String> = Vec::new();
    let mx_records: Vec<String> = match mx {
        MxOutcome::Found(hosts) => hosts,
        MxOutcome::Failed(reason) => {
            let mut message = "MX lookup error: ".to_owned();
            message.append(reason.as_str());
            errors.push(message);
            Vec::new()
        },
        MxOutcome::TimedOut => {
            errors.push("MX lookup timeout".to_owned());
            Vec::new()
        },
    };
    assert(texts(errors@) == mx_errors(mx));
    assert(texts(mx_records@) == found_hosts(mx));
    report_txt(&mut errors, "SPF", &spf);
    report_txt(&mut errors, "DMARC", &dmarc);
    let (has_spf, spf_record) = match record_in(&spf, "v=spf1") {
        Some(record) => (true, record),
        None => (false, String::new()),
    };
    let (has_dmarc, dmarc_record) = match record_in(&dmarc, "v=DMARC1") {
        Some(record) => (true, record),
        None => (false, String::new()),
    };
    DomainInfo {
        domain: domain.to_owned(),
        has_mx: mx_records.len() > 0,
        has_spf,
        spf_record,
        has_dmarc,
        dmarc_record,
        mx_records,
        errors,
    }
}

/// A record that is reported as found begins with the prefix that was looked for, and is the
/// whole of the first text that does; none is reported only where no text does.
pub proof fn law_found_record_is_genuine(records: Seq<Seq<char>>, prefix: Seq<char>)
    ensures
        first_with_prefix(records, prefix) matches Some(text) ==> prefix.is_prefix_of(text)
            && exists|i: int|
            0 <= i < records.len() && text == #[trigger] records[i] && (forall|j: int|
                0 <= j < i ==> !prefix.is_prefix_of(#[trigger] records[j])),
        first_with_prefix(records, prefix) is None ==> forall|i: int|
            0 <= i < records.len() ==> !prefix.is_prefix_of(#[trigger] records[i]),
    decreases records.len(),
{
    if records.len() > 0 && !prefix.is_prefix_of(records[0]) {
        let rest = records.drop_first();
        law_found_record_is_genuine(rest, prefix);
        if let Some(text) = first_with_prefix(rest, prefix) {
            let k = choose|k: int|
                0 <= k < rest.len() && text == #[trigger] rest[k] && (forall|j: int|
                    0 <= j < k ==> !prefix.is_prefix_of(#[trigger] rest[j]));
            assert(records[k + 1] == rest[k]);
            assert forall|j: int| 0 <= j < k + 1 implies !prefix.is_prefix_of(
                #[trigger] records[j],
            ) by {
                if j > 0 {
                    assert(records[j] == rest[j - 1]);
                }
            }
        } else {
            assert forall|i: int| 0 <= i < records.len() implies !prefix.is_prefix_of(
                #[trigger] records[i],
            ) by {
                if i > 0 {
                    assert(records[i] == rest[i - 1]);
                }
            }
        }
    } else if records.len() > 0 {
        assert(records[0] == first_with_prefix(records, prefix)->0);
    }
}

/// Each lookup either was answered or is reported as one error, and an error stands for no
/// finding.
pub proof fn law_one_error_per_failed_lookup(
    mx: MxOutcome,
    spf: TxtOutcome,
    dmarc: TxtOutcome,
    prefix: Seq<char>,
)
    ensures
        mx_errors(mx).len() == (if mx is Found { 0int } else { 1int }),
        txt_errors("SPF"@, spf).len() == (if spf is Found { 0int } else { 1int }),
        txt_errors("DMARC"@, dmarc).len() == (if dmarc is Found { 0int } else { 1int }),
        !(mx is Found) ==> found_hosts(mx).len() == 0,
        !(spf is Found) ==> found_record(spf, prefix) is None,
        !(dmarc is Found) ==> found_record(dmarc, prefix) is None,
{
}

/// The bytes of two lists of strings, one after the other, are those of the whole list.
proof fn lemma_bytes_split(first: Seq<Vec<u8>>, second: Seq<Vec<u8>>)
    ensures
        record_bytes(first + second) == record_bytes(first) + record_bytes(second),
    decreases second.len(),
{
    let views = |strings: Seq<Vec<u8>>| strings.map_values(|string: Vec<u8>| string@);
    let whole = views(first + second);
    whole.lemma_flatten_and_flatten_alt_are_equivalent();
    views(first).lemma_flatten_and_flatten_alt_are_equivalent();
    views(second).lemma_flatten_and_flatten_alt_are_equivalent();
    if second.len() == 0 {
        assert(first + second == first);
        assert(record_bytes(second) == Seq::<u8>::empty());
    } else {
        let earlier = second.drop_last();
        lemma_bytes_split(first, earlier);
        assert((first + second).drop_last() == first + earlier);
        assert(whole.drop_last() == views(first + earlier));
        assert(whole.last() == second.last()@);
        assert(views(second).drop_last() == views(earlier));
        assert(views(second).last() == second.last()@);
        views(first + earlier).lemma_flatten_and_flatten_alt_are_equivalent();
        views(earlier).lemma_flatten_and_flatten_alt_are_equivalent();
        assert(record_bytes(first + second) == record_bytes(first + earlier) + second.last()@);
        assert(record_bytes(second) == record_bytes(earlier) + second.last()@);
    }
}

/// No strings give no bytes, one string gives its own, and a longer list gives the bytes of its
/// first part and then those of its second.
pub proof fn law_strings_are_joined_in_order(
    first: &Vec<Vec<u8>>,
    second: &Vec<Vec<u8>>,
    whole: &Vec<Vec<u8>>,
    first_bytes: Vec<u8>,
    second_bytes: Vec<u8>,
    whole_bytes: Vec<u8>,
)
    requires
        call_ensures(join_strings, (first,), first_bytes),
        call_ensures(join_strings, (second,), second_bytes),
        call_ensures(join_strings, (whole,), whole_bytes),
        whole@ == first@ + second@,
    ensures
        whole.len() == 0 ==> whole_bytes@.len() == 0,
        whole.len() == 1 ==> whole_bytes@ == whole[0]@,
        whole_bytes@ == first_bytes@ + second_bytes@,
{
    lemma_bytes_split(first@, second@);
    let views = whole@.map_values(|string: Vec<u8>| string@);
    if whole.len() == 0 {
        assert(views == Seq::<Seq<u8>>::empty());
    } else if whole.len() == 1 {
        assert(views == seq![whole[0]@]);
        views.lemma_flatten_one_element();
    }
}

/// The text of a record is that of all its bytes together: the text of which they are the UTF-8,
/// where there is one. A record that holds no text has an empty one.
pub proof fn law_record_is_read_as_a_whole(
    strings: Vec<Vec<u8>>,
    bytes: Vec<u8>,
    text: String,
    missing: String,
    valid: Seq<char>,
)
    requires
        call_ensures(join_strings, (&strings,), bytes),
        call_ensures(text_of_record, (&Some(strings),), text),
        call_ensures(text_of_record, (&None,), missing),
    ensures
        text@ == lossy_text(bytes@),
        bytes@ == encode_utf8(valid) ==> text@ == valid,
        missing@.len() == 0,
{
    assert(reads_as_utf8(Some(strings)));
}

/// Whether what is reported of a list of texts is the first of them that begins with `prefix`, in
/// full, or nothing where none does.
pub open spec fn reports_first(
    records: Seq<String>,
    prefix: Seq<char>,
    found: bool,
    reported: Seq<char>,
) -> bool {
    ||| found && exists|i: int|
        0 <= i < records.len() && reported == (#[trigger] records[i])@ && prefix.is_prefix_of(
            records[i]@,
        ) && forall|j: int| 0 <= j < i ==> !prefix.is_prefix_of((#[trigger] records[j])@)
    ||| !found && reported.len() == 0 && forall|i: int|
        0 <= i < records.len() ==> !prefix.is_prefix_of((#[trigger] records[i])@)
}

/// The first text with a prefix, among the texts of some strings.
proof fn lemma_reports_first(records: Seq<String>, prefix: Seq<char>)
    ensures
        reports_first(
            records,
            prefix,
            first_with_prefix(texts(records), prefix) is Some,
            match first_with_prefix(texts(records), prefix) {
                Some(found) => found,
                None => Seq::empty(),
            },
        ),
{
    let all = texts(records);
    law_found_record_is_genuine(all, prefix);
    if let Some(text) = first_with_prefix(all, prefix) {
        let i = choose|i: int|
            0 <= i < all.len() && text == #[trigger] all[i] && (forall|j: int|
                0 <= j < i ==> !prefix.is_prefix_of(#[trigger] all[j]));
        assert(all[i] == records[i]@);
        assert forall|j: int| 0 <= j < i implies !prefix.is_prefix_of((#[trigger] records[j])@) by {
            assert(all[j] == records[j]@);
        }
    } else {
        assert forall|i: int| 0 <= i < records.len() implies !prefix.is_prefix_of(
            (#[trigger] records[i])@,
        ) by {
            assert(all[i] == records[i]@);
        }
    }
}

/// `find_record` gives the first text that begins with the prefix, in full.
pub proof fn law_find_record(records: &Vec<String>, prefix: &str, found: Option<String>)
    requires
        call_ensures(find_record, (records, prefix), found),
    ensures
        reports_first(
            records@,
            prefix@,
            found is Some,
            match found {
                Some(text) => text@,
                None => Seq::empty(),
            },
        ),
{
    lemma_reports_first(records@, prefix@);
}

/// The texts of records, one by one, are those of the list.
proof fn lemma_decoded(records: Vec<Option<Vec<Vec<u8>>>>, decoded: Seq<String>)
    requires
        decoded.len() == records.len(),
        forall|i: int|
            0 <= i < records.len() ==> call_ensures(
                text_of_record,
                (&records[i],),
                #[trigger] decoded[i],
            ),
    ensures
        texts(decoded) == record_texts(records@),
{
    assert forall|i: int| 0 <= i < decoded.len() implies texts(decoded)[i] == record_texts(
        records@,
    )[i] by {
        let text = decoded[i];
        assert(text@ == record_text(records[i]));
    }
    assert(texts(decoded) =~= record_texts(records@));
}

/// The SPF record that is reported is the first of the domain's text records that begins with
/// `v=spf1`, in full; where none does, or the lookup failed, none is reported.
pub proof fn law_spf_record_is_reported_in_full(
    domain: &str,
    mx: MxOutcome,
    spf: TxtOutcome,
    dmarc: TxtOutcome,
    info: DomainInfo,
    decoded: Seq<String>,
)
    requires
        call_ensures(check_domain, (domain, mx, spf, dmarc), info),
        spf matches TxtOutcome::Found(records) ==> decoded.len() == records.len() && forall|i: int|
            0 <= i < records.len() ==> call_ensures(
                text_of_record,
                (&records[i],),
                #[trigger] decoded[i],
            ),
    ensures
        spf is Found ==> reports_first(
            decoded,
            seq!['v', '=', 's', 'p', 'f', '1'],
            info.has_spf,
            info.spf_record@,
        ),
        !(spf is Found) ==> !info.has_spf && info.spf_record@.len() == 0,
{
    reveal_strlit("v=spf1");
    assert("v=spf1"@ =~= seq!['v', '=', 's', 'p', 'f', '1']);
    if let TxtOutcome::Found(records) = spf {
        lemma_decoded(records, decoded);
        lemma_reports_first(decoded, "v=spf1"@);
    }
}

/// The DMARC record that is reported is the first of the text records under the domain's DMARC
/// name that begins with `v=DMARC1`, in full; where none does, or the lookup failed, none is
/// reported.
pub proof fn law_dmarc_record_is_reported_in_full(
    domain: &str,
    mx: MxOutcome,
    spf: TxtOutcome,
    dmarc: TxtOutcome,
    info: DomainInfo,
    decoded: Seq<String>,
)
    requires
        call_ensures(check_domain, (domain, mx, spf, dmarc), info),
        dmarc matches TxtOutcome::Found(records) ==> decoded.len() == records.len() && forall|
            i: int,
        |
            0 <= i < records.len() ==> call_ensures(
                text_of_record,
                (&records[i],),
                #[trigger] decoded[i],
            ),
    ensures
        dmarc is Found ==> reports_first(
            decoded,
            seq!['v', '=', 'D', 'M', 'A', 'R', 'C', '1'],
            info.has_dmarc,
            info.dmarc_record@,
        ),
        !(dmarc is Found) ==> !info.has_dmarc && info.dmarc_record@.len() == 0,
{
    reveal_strlit("v=DMARC1");
    assert("v=DMARC1"@ =~= seq!['v', '=', 'D', 'M', 'A', 'R', 'C', '1']);
    if let TxtOutcome::Found(records) = dmarc {
        lemma_decoded(records, decoded);
        lemma_reports_first(decoded, "v=DMARC1"@);
    }
}

/// All mail exchangers that were found are reported, in order and in full, under the domain that
/// was asked for; the domain has one exactly when the lookup found one.
pub proof fn law_mail_exchangers_are_reported(
    domain: &str,
    mx: MxOutcome,
    spf: TxtOutcome,
    dmarc: TxtOutcome,
    info: DomainInfo,
)
    requires
        call_ensures(check_domain, (domain, mx, spf, dmarc), info),
    ensures
        info.domain@ == domain@,
        info.has_mx <==> (mx matches MxOutcome::Found(hosts) && hosts.len() > 0),
        mx matches MxOutcome::Found(hosts) ==> info.mx_records.len() == hosts.len() && forall|
            i: int,
        |
            0 <= i < hosts.len() ==> (#[trigger] info.mx_records[i])@ == hosts[i]@,
        !(mx is Found) ==> info.mx_records.len() == 0,
{
    let reported = texts(info.mx_records@);
    assert(reported.len() == info.mx_records.len());
    if let MxOutcome::Found(hosts) = mx {
        assert(texts(hosts@).len() == hosts.len());
        assert forall|i: int| 0 <= i < hosts.len() implies (#[trigger] info.mx_records[i])@
            == hosts[i]@ by {
            assert(reported[i] == info.mx_records[i]@);
            assert(texts(hosts@)[i] == hosts[i]@);
        }
    }
}

/// Every lookup that failed is reported by one error, and no other is: first that of the mail
/// exchangers, then that of SPF, then that of DMARC, each with its reason or as a timeout.
pub proof fn law_failed_lookups_are_reported(
    domain: &str,
    mx: MxOutcome,
    spf: TxtOutcome,
    dmarc: TxtOutcome,
    info: DomainInfo,
)
    requires
        call_ensures(check_domain, (domain, mx, spf, dmarc), info),
    ensures
        ({
            let before_spf: int = if mx is Found {
                0
            } else {
                1
            };
            let before_dmarc: int = if spf is Found {
                before_spf
            } else {
                before_spf + 1
            };
            &&& info.errors.len() == if dmarc is Found {
                before_dmarc
            } else {
                before_dmarc + 1
            }
            &&& mx matches MxOutcome::Failed(reason) ==> info.errors[0]@ == "MX lookup error: "@
                + reason@
            &&& mx is TimedOut ==> info.errors[0]@ == "MX lookup timeout"@
            &&& spf matches TxtOutcome::Failed(reason) ==> info.errors[before_spf]@
                == "SPF lookup error: "@ + reason@
            &&& spf is TimedOut ==> info.errors[before_spf]@ == "SPF lookup timeout"@
            &&& dmarc matches TxtOutcome::Failed(reason) ==> info.errors[before_dmarc]@
                == "DMARC lookup error: "@ + reason@
            &&& dmarc is TimedOut ==> info.errors[before_dmarc]@ == "DMARC lookup timeout"@
        }),
{
    reveal_strlit("SPF");
    reveal_strlit("DMARC");
    reveal_strlit(" lookup error: ");
    reveal_strlit(" lookup timeout");
    reveal_strlit("SPF lookup error: ");
    reveal_strlit("SPF lookup timeout");
    reveal_strlit("DMARC lookup error: ");
    reveal_strlit("DMARC lookup timeout");
    assert("SPF"@ + " lookup error: "@ =~= "SPF lookup error: "@);
    assert("SPF"@ + " lookup timeout"@ =~= "SPF lookup timeout"@);
    assert("DMARC"@ + " lookup error: "@ =~= "DMARC lookup error: "@);
    assert("DMARC"@ + " lookup timeout"@ =~= "DMARC lookup timeout"@);
    let all = texts(info.errors@);
    assert(all.len() == info.errors.len());
    assert forall|i: int| 0 <= i < all.len() implies #[trigger] all[i] == info.errors[i]@ by {}
    let m = mx_errors(mx).len() as int;
    let s = txt_errors("SPF"@, spf).len() as int;
    if m == 1 {
        assert(all[0] == mx_errors(mx)[0]);
    }
    if s == 1 {
        assert(all[m] == txt_errors("SPF"@, spf)[0]);
    }
    if txt_errors("DMARC"@, dmarc).len() == 1 {
        assert(all[m + s] == txt_errors("DMARC"@, dmarc)[0]);
    }
}

/// The DMARC record of a domain is looked up under the whole domain behind `_dmarc.`.
pub proof fn law_dmarc_name(domain: &str, name: String)
    requires
        call_ensures(dmarc_domain, (domain,), name),
    ensures
        name@.len() == domain@.len() + 7,
        name@.take(7) == seq!['_', 'd', 'm', 'a', 'r', 'c', '.'],
        name@.skip(7) == domain@,
{
    reveal_strlit("_dmarc.");
    assert("_dmarc."@ =~= seq!['_', 'd', 'm', 'a', 'r', 'c', '.']);
    assert(name@.take(7) =~= "_dmarc."@);
    assert(name@.skip(7) =~= domain@);
}

/// The domain on a line is all that stands on it but the white space around; only a line of
/// nothing but white space has none.
pub proof fn law_domain_on_line(line: &str, domain: Option<String>)
    requires
        call_ensures(domain_on_line, (line,), domain),
    ensures
        domain matches Some(d) ==> d@.len() > 0 && is_core(d@, line@),
        domain is None <==> forall|i: int| 0 <= i < line@.len() ==> is_white_space(
            #[trigger] line@[i],
        ),
{
    let inner = trimmed(line@);
    law_trimmed_is_the_core(line@);
    let from = choose|from: int|
        0 <= from <= from + inner.len() <= line@.len() && inner == #[trigger] line@.subrange(
            from,
            from + inner.len(),
        ) && (forall|i: int| 0 <= i < from ==> is_white_space(#[trigger] line@[i])) && (forall|
            i: int,
        |
            from + inner.len() <= i < line@.len() ==> is_white_space(#[trigger] line@[i])) && (
        inner.len() > 0 ==> !is_white_space(inner[0]) && !is_white_space(inner[inner.len() - 1]));
    if inner.len() > 0 {
        assert(inner[0] == line@[from]);
    }
}

} // verus!
