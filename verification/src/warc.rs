//! From a decoded record and its member to one line of the index: the
//! searchable key, the fields read from the embedded HTTP header, and the
//! two line formats.

use crate::gz::GzipMember;
use crate::text::{
    append_chars, chars_of, decimal, decimal_string, find_char, join_text, join_with,
    lemma_sorted_order_free, lemma_split_joined, lemma_split_nonempty, lemma_split_whole,
    lowercase, lowercased, parse_u32, parsed_u32, push_char, reversed, sort_texts, sorted, split_on,
    split_text, split_whitespace, string_texts, text_of, trim, trimmed, whitespace_words,
};
use crate::IndexFormat;
use vstd::prelude::*;
use vstd::string::*;

verus! {

/// Why a record, or the whole index, could not be produced.
#[derive(Debug, Clone, Copy, PartialEq, Eq, Structural)]
pub enum IndexError {
    /// The record's address does not parse, or names no host.
    InvalidAddress,
    /// A field could not be encoded for the output.
    EncodingFailure,
    /// There are more records than members to pair them with.
    PairingFailure,
}

/// What the key is made from: the parts of a parsed address.
pub struct UrlParts {
    pub host: Option<String>,
    pub path: String,
    pub query: Option<String>,
}

/// The view of an optional string.
pub open spec fn opt_text(s: Option<String>) -> Option<Seq<char>> {
    match s {
        Some(t) => Some(t@),
        None => None,
    }
}

impl UrlParts {
    /// Host, path and query.
    pub open spec fn parts(&self) -> (Option<Seq<char>>, Seq<char>, Option<Seq<char>>) {
        (opt_text(self.host), self.path@, opt_text(self.query))
    }
}

/// What `url::Url::parse` makes of an address: nothing, or the host, the
/// path and the query of the parsed address.
pub uninterp spec fn parsed_url(address: Seq<char>) -> Option<
    (Option<Seq<char>>, Seq<char>, Option<Seq<char>>),
>;

/// `url::Url::parse`, with `host_str`, `path` and `query` read from the
/// parsed value. The outcome is named, not described; it depends
/// on the address alone. A parse error becomes `None`.
#[verifier::external_body]
fn parse_url(address: &str) -> (r: Option<UrlParts>)
    ensures
        r.is_some() == parsed_url(address@).is_some(),
        r matches Some(u) ==> u.parts() == parsed_url(address@).unwrap(),
{
    match url::Url::parse(address) {
        Ok(u) => Some(
            UrlParts {
                host: u.host_str().map(str::to_owned),
                path: u.path().to_owned(),
                query: u.query().map(str::to_owned),
            },
        ),
        Err(_) => None,
    }
}

/// Without a trailing `,www`.
pub open spec fn strip_www(k: Seq<char>) -> Seq<char> {
    let n = k.len() as int;
    if n >= 4 && k[n - 4] == ',' && k[n - 3] == 'w' && k[n - 2] == 'w' && k[n - 1] == 'w' {
        k.take(n - 4)
    } else {
        k
    }
}

/// The host's labels in opposite order, joined by commas, a last `www` label left out.
pub open spec fn host_key(host: Seq<char>) -> Seq<char> {
    strip_www(join_text(split_text(host, '.').reverse(), ','))
}

/// The path in lower case, without one trailing slash if it is longer than one character.
pub open spec fn path_key(path: Seq<char>) -> Seq<char> {
    strip_slash(lowercased(path))
}

/// Without one trailing slash, if the text is longer than one character.
pub open spec fn strip_slash(p: Seq<char>) -> Seq<char> {
    if p.len() > 1 && p.last() == '/' {
        p.drop_last()
    } else {
        p
    }
}

/// The parameters of a query, split at `&`, in lexicographic order, joined by `&` again.
pub open spec fn sorted_query(q: Seq<char>) -> Seq<char> {
    join_text(sorted(split_text(q, '&')), '&')
}

/// The query in lower case, its parameters sorted where there are several.
pub open spec fn query_key(query: Seq<char>) -> Seq<char> {
    if query.contains('&') {
        sorted_query(lowercased(query))
    } else {
        lowercased(query)
    }
}

/// The searchable key of an address with the given host, path and query.
pub open spec fn key_of(host: Seq<char>, path: Seq<char>, query: Option<Seq<char>>) -> Seq<char> {
    let base = host_key(host).push(')') + path_key(path);
    match query {
        Some(q) => base.push('?') + query_key(q),
        None => base,
    }
}

/// The key does not depend on the order of the query's parameters: two
/// queries of several parameters whose parameters in lower case are the
/// same, each as often as in the other, give the same key.
pub proof fn lemma_key_order_free(
    host: Seq<char>,
    path: Seq<char>,
    first: Seq<char>,
    second: Seq<char>,
)
    requires
        first.contains('&'),
        second.contains('&'),
        split_text(lowercased(first), '&').to_multiset() == split_text(
            lowercased(second),
            '&',
        ).to_multiset(),
    ensures
        query_key(first) == query_key(second),
        key_of(host, path, Some(first)) == key_of(host, path, Some(second)),
{
    lemma_sorted_order_free(
        split_text(lowercased(first), '&'),
        split_text(lowercased(second), '&'),
    );
}

/// A leading `www` label is dropped: a host with `www.` before it has the
/// reversed labels of the host itself as its key, which is the key of the
/// host itself unless that key loses a `www` of its own.
pub proof fn lemma_www_is_dropped(host: Seq<char>)
    ensures
        host_key(seq!['w', 'w', 'w'].push('.') + host) == join_text(
            split_text(host, '.').reverse(),
            ',',
        ),
        strip_www(join_text(split_text(host, '.').reverse(), ',')) == join_text(
            split_text(host, '.').reverse(),
            ',',
        ) ==> host_key(seq!['w', 'w', 'w'].push('.') + host) == host_key(host),
{
    let www = seq!['w', 'w', 'w'];
    let labels = split_text(host, '.');
    assert(!www.contains('.'));
    lemma_split_whole(www, '.');
    lemma_split_joined(www, host, '.');
    lemma_split_nonempty(host, '.');
    let all = seq![www] + labels;
    assert(all.reverse() =~= labels.reverse().push(www));
    assert(labels.reverse().push(www).drop_last() =~= labels.reverse());
    let base = join_text(labels.reverse(), ',');
    let joined = join_text(all.reverse(), ',');
    assert(joined == base.push(',') + www);
    assert(joined.take(joined.len() - 4) =~= base);
}

/// The host's part of the key.
fn host_key_chars(host: &str) -> (k: Vec<char>)
    ensures
        k@ == host_key(host@),
{
    let chars = chars_of(host);
    let labels = split_on(&chars, '.');
    let turned = reversed(labels);
    let mut k = join_with(&turned, ',');
    let n: usize = k.len();
    if n >= 4 && k[n - 4] == ',' && k[n - 3] == 'w' && k[n - 2] == 'w' && k[n - 1] == 'w' {
        k.truncate(n - 4);
    }
    k
}

/// The path's part of the key, from the path in lower case.
pub fn path_of_lowered(lower: &str) -> (k: Vec<char>)
    ensures
        k@ == strip_slash(lower@),
{
    let mut k = chars_of(lower);
    let n: usize = k.len();
    if n > 1 && k[n - 1] == '/' {
        k.pop();
    }
    k
}

/// The query's part of the key, from the query as it is and in lower case:
/// the parameters are sorted where the query as it is has several.
pub fn query_of_lowered(query: &str, lower: &str) -> (k: Vec<char>)
    ensures
        k@ == if query@.contains('&') {
            sorted_query(lower@)
        } else {
            lower@
        },
{
    let raw = chars_of(query);
    let chars = chars_of(lower);
    proof {
        raw@.index_of_first_ensures('&');
    }
    match find_char(&raw, '&') {
        Some(i) => {
            let pieces = sort_texts(split_on(&chars, '&'));
            join_with(&pieces, '&')
        },
        None => chars,
    }
}

/// The searchable key of a parsed address. An address without a host has none.
pub fn searchable_key(parts: &UrlParts) -> (r: Result<String, IndexError>)
    ensures
        parts.host.is_none() ==> r == Err::<String, IndexError>(IndexError::InvalidAddress),
        parts.host matches Some(h) ==> r matches Ok(k) && k@ == key_of(
            h@,
            parts.path@,
            opt_text(parts.query),
        ),
{
    match &parts.host {
        None => Err(IndexError::InvalidAddress),
        Some(h) => {
            let hk = host_key_chars(h.as_str());
            let pk = path_of_lowered(lowercase(parts.path.as_str()).as_str());
            let mut key = text_of(&hk, 0, hk.len());
            assert(key@ =~= hk@);
            push_char(&mut key, ')');
            append_chars(&mut key, &pk, 0, pk.len());
            assert(pk@.subrange(0, pk.len() as int) =~= pk@);
            match &parts.query {
                Some(q) => {
                    let qk = query_of_lowered(q.as_str(), lowercase(q.as_str()).as_str());
                    push_char(&mut key, '?');
                    append_chars(&mut key, &qk, 0, qk.len());
                    assert(qk@.subrange(0, qk.len() as int) =~= qk@);
                },
                None => {},
            }
            Ok(key)
        },
    }
}

/// The key of an address, as a function of what parsing gives.
pub open spec fn canonical(address: Seq<char>) -> Option<Seq<char>> {
    match parsed_url(address) {
        Some((Some(host), path, query)) => Some(key_of(host, path, query)),
        _ => None,
    }
}

/// Parses an address and computes its searchable key. Fails exactly when the
/// address does not parse or has no host.
pub fn canonicalize(address: &str) -> (r: Result<String, IndexError>)
    ensures
        canonical(address@).is_none() ==> r == Err::<String, IndexError>(
            IndexError::InvalidAddress,
        ),
        canonical(address@) matches Some(c) ==> r matches Ok(k) && k@ == c,
{
    match parse_url(address) {
        None => Err(IndexError::InvalidAddress),
        Some(parts) => searchable_key(&parts),
    }
}

/// What `serde_json::to_string` gives for a string: its JSON literal, or nothing.
pub uninterp spec fn json_encoded(s: Seq<char>) -> Option<Seq<char>>;

/// `serde_json::to_string` on a string. The outcome is named, not described;
/// it depends on the string alone. An error would become `None`, but there
/// is none on a string: serialization fails only where a `Serialize` impl
/// decides to fail or a map has a key that is no string, and the bytes are
/// written into a `Vec`.
#[verifier::external_body]
fn json_string(s: &str) -> (r: Option<String>)
    ensures
        r.is_some(),
        opt_text(r) == json_encoded(s@),
{
    serde_json::to_string(s).ok()
}

/// The fields of a line in the eleven-field format, behind the key and the timestamp.
pub open spec fn cdx11_fields(
    url: Seq<char>,
    mime: Seq<char>,
    status: u32,
    digest: Seq<char>,
    redirect: Seq<char>,
    length: u64,
    offset: u64,
    file_name: Seq<char>,
) -> Seq<char> {
    url + " "@ + mime + " "@ + decimal(status as nat) + " "@ + digest + " "@ + redirect + " - "@
        + decimal(length as nat) + " "@ + decimal(offset as nat) + " "@ + file_name
}

/// The JSON object of a line, from the JSON forms of its text fields.
pub open spec fn cdxj_fields(
    url: Seq<char>,
    digest: Seq<char>,
    redirect: Seq<char>,
    mime: Seq<char>,
    offset: u64,
    length: u64,
    status: u32,
    file_name: Seq<char>,
) -> Seq<char> {
    "{\"url\":"@ + url + ",\"digest\":"@ + digest + ",\"redirect\":"@ + redirect + ",\"mime\":"@
        + mime + ",\"offset\":"@ + decimal(offset as nat) + ",\"length\":"@ + decimal(
        length as nat,
    ) + ",\"status\":"@ + decimal(status as nat) + ",\"file_name\":"@ + file_name + "}"@
}

/// The JSON object of a line, if every text field has a JSON literal.
pub open spec fn cdxj_object(
    url: Seq<char>,
    digest: Seq<char>,
    redirect: Seq<char>,
    mime: Seq<char>,
    offset: u64,
    length: u64,
    status: u32,
    file_name: Seq<char>,
) -> Option<Seq<char>> {
    match (
        json_encoded(url),
        json_encoded(digest),
        json_encoded(redirect),
        json_encoded(mime),
        json_encoded(file_name),
    ) {
        (Some(u), Some(d), Some(r), Some(m), Some(f)) => Some(
            cdxj_fields(u, d, r, m, offset, length, status, f),
        ),
        _ => None,
    }
}

/// A whole line: key, timestamp, the fields in the chosen format, a line
/// feed. There is none where the format asks for a JSON literal that a
/// field does not have.
pub open spec fn line_of(
    format: IndexFormat,
    key: Seq<char>,
    timestamp: Seq<char>,
    url: Seq<char>,
    digest: Seq<char>,
    redirect: Seq<char>,
    mime: Seq<char>,
    offset: u64,
    length: u64,
    status: u32,
    file_name: Seq<char>,
) -> Option<Seq<char>> {
    let fields = match format {
        IndexFormat::CDX => Some(
            cdx11_fields(url, mime, status, digest, redirect, length, offset, file_name),
        ),
        IndexFormat::CDXJ => cdxj_object(
            url,
            digest,
            redirect,
            mime,
            offset,
            length,
            status,
            file_name,
        ),
    };
    match fields {
        Some(f) => Some(key + " "@ + timestamp + " "@ + f + "\n"@),
        None => None,
    }
}

/// The JSON object of a line, given the JSON form of each text field; none
/// if one of them could not be encoded.
pub fn assemble_cdxj(
    url: Option<String>,
    digest: Option<String>,
    redirect: Option<String>,
    mime: Option<String>,
    offset: u64,
    length: u64,
    status: u32,
    file_name: Option<String>,
) -> (r: Option<String>)
    ensures
        r.is_some() <==> url.is_some() && digest.is_some() && redirect.is_some() && mime.is_some()
            && file_name.is_some(),
        r matches Some(t) ==> t@ == cdxj_fields(
            url.unwrap()@,
            digest.unwrap()@,
            redirect.unwrap()@,
            mime.unwrap()@,
            offset,
            length,
            status,
            file_name.unwrap()@,
        ),
{
    match (url, digest, redirect, mime, file_name) {
        (Some(u), Some(d), Some(r), Some(m), Some(f)) => {
            let mut s = String::from_str("{\"url\":");
            s.append(u.as_str());
            s.append(",\"digest\":");
            s.append(d.as_str());
            s.append(",\"redirect\":");
            s.append(r.as_str());
            s.append(",\"mime\":");
            s.append(m.as_str());
            s.append(",\"offset\":");
            s.append(decimal_string(offset).as_str());
            s.append(",\"length\":");
            s.append(decimal_string(length).as_str());
            s.append(",\"status\":");
            s.append(decimal_string(status as u64).as_str());
            s.append(",\"file_name\":");
            s.append(f.as_str());
            s.append("}");
            Some(s)
        },
        _ => None,
    }
}

/// The fields of one line that come behind the key and the timestamp.
pub struct CdxData {
    pub url: String,
    pub digest: String,
    pub redirect: String,
    pub mime: String,
    pub offset: u64,
    pub length: u64,
    pub status: u32,
    pub file_name: String,
}

impl CdxData {
    /// Fields for a record of `file_name` of which nothing is known yet:
    /// texts are `-`, numbers are zero.
    pub fn new(file_name: String) -> (d: Self)
        ensures
            d.file_name == file_name,
            d.status == 0,
            d.length == 0,
            d.offset == 0,
            d.url@ == "-"@,
            d.mime@ == "-"@,
            d.digest@ == "-"@,
            d.redirect@ == "-"@,
    {
        Self {
            file_name,
            status: 0,
            length: 0,
            url: String::from_str("-"),
            offset: 0,
            mime: String::from_str("-"),
            digest: String::from_str("-"),
            redirect: String::from_str("-"),
        }
    }

    /// The fields as a JSON object: there is one exactly when every text
    /// field has a JSON literal, and it is made of these literals.
    pub fn to_cdxj(&self) -> (r: Option<String>)
        ensures
            r.is_some(),
            opt_text(r) == self.cdxj_text(),
    {
        assemble_cdxj(
            json_string(self.url.as_str()),
            json_string(self.digest.as_str()),
            json_string(self.redirect.as_str()),
            json_string(self.mime.as_str()),
            self.offset,
            self.length,
            self.status,
            json_string(self.file_name.as_str()),
        )
    }

    /// The JSON object of the fields, if every text field has a JSON literal.
    pub open spec fn cdxj_text(&self) -> Option<Seq<char>> {
        cdxj_object(
            self.url@,
            self.digest@,
            self.redirect@,
            self.mime@,
            self.offset,
            self.length,
            self.status,
            self.file_name@,
        )
    }

    /// The fields in the eleven-field format.
    pub fn to_cdx11(&self) -> (r: Option<String>)
        ensures
            r matches Some(t) && t@ == cdx11_fields(
                self.url@,
                self.mime@,
                self.status,
                self.digest@,
                self.redirect@,
                self.length,
                self.offset,
                self.file_name@,
            ),
    {
        let mut s = String::from_str(self.url.as_str());
        s.append(" ");
        s.append(self.mime.as_str());
        s.append(" ");
        s.append(decimal_string(self.status as u64).as_str());
        s.append(" ");
        s.append(self.digest.as_str());
        s.append(" ");
        s.append(self.redirect.as_str());
        s.append(" - ");
        s.append(decimal_string(self.length).as_str());
        s.append(" ");
        s.append(decimal_string(self.offset).as_str());
        s.append(" ");
        s.append(self.file_name.as_str());
        Some(s)
    }
}

/// One entry of the index: the key, the capture time and the fields.
pub struct CdxRecord {
    pub searchable_url: String,
    pub timestamp: String,
    pub data: CdxData,
}

impl CdxRecord {
    /// An entry for a record of `file_name` with an empty key and timestamp.
    pub fn new(file_name: String) -> (r: Self)
        ensures
            r.searchable_url@ == Seq::<char>::empty(),
            r.timestamp@ == Seq::<char>::empty(),
            r.data.file_name == file_name,
            r.data.status == 0,
            r.data.length == 0,
            r.data.offset == 0,
            r.data.url@ == "-"@,
            r.data.mime@ == "-"@,
            r.data.digest@ == "-"@,
            r.data.redirect@ == "-"@,
    {
        Self { searchable_url: String::new(), timestamp: String::new(), data: CdxData::new(file_name) }
    }

    /// The entry's line in the given format, if the format can write the entry.
    pub open spec fn line(&self, format: IndexFormat) -> Option<Seq<char>> {
        line_of(
            format,
            self.searchable_url@,
            self.timestamp@,
            self.data.url@,
            self.data.digest@,
            self.data.redirect@,
            self.data.mime@,
            self.data.offset,
            self.data.length,
            self.data.status,
            self.data.file_name@,
        )
    }

    /// Appends the entry's line with the given fields, if they were encoded.
    fn write_with(&self, sink: &mut String, fields: Option<String>) -> (r: Result<(), IndexError>)
        ensures
            fields.is_none() ==> r == Err::<(), IndexError>(IndexError::EncodingFailure)
                && final(sink)@ == old(sink)@,
            fields matches Some(f) ==> r.is_ok() && final(sink)@ == old(sink)@ + (
            self.searchable_url@ + " "@ + self.timestamp@ + " "@ + f@ + "\n"@),
    {
        match fields {
            None => Err(IndexError::EncodingFailure),
            Some(f) => {
                let mut line = String::from_str(self.searchable_url.as_str());
                line.append(" ");
                line.append(self.timestamp.as_str());
                line.append(" ");
                line.append(f.as_str());
                line.append("\n");
                sink.append(line.as_str());
                Ok(())
            },
        }
    }
}

/// A way to write an entry as one line at the end of a text.
pub trait CdxRecordFormatter {
    /// The format that this formatter writes.
    spec fn format() -> IndexFormat;

    /// Appends the entry's line to `sink`. Every entry that is written
    /// has a line in this format.
    fn write(sink: &mut String, record: &CdxRecord) -> (r: Result<(), IndexError>)
        ensures
            r.is_ok(),
            record.line(Self::format()) matches Some(line) && final(sink)@ == old(sink)@ + line,
    ;
}

/// Writes the eleven-field format.
pub struct Cdx11Writer {}

/// Writes the format with a JSON object.
pub struct CdxjWriter {}

impl CdxRecordFormatter for CdxjWriter {
    open spec fn format() -> IndexFormat {
        IndexFormat::CDXJ
    }

    fn write(sink: &mut String, record: &CdxRecord) -> (r: Result<(), IndexError>) {
        record.write_with(sink, record.data.to_cdxj())
    }
}

impl CdxRecordFormatter for Cdx11Writer {
    open spec fn format() -> IndexFormat {
        IndexFormat::CDX
    }

    fn write(sink: &mut String, record: &CdxRecord) -> (r: Result<(), IndexError>) {
        record.write_with(sink, record.data.to_cdx11())
    }
}

/// What the index reads of one decoded record.
pub struct DecodedRecord {
    /// The record's archival type is "response".
    pub is_response: bool,
    /// The record's declared content type, if it declares one.
    pub content_type: Option<String>,
    /// The capture time, fourteen digits from year to second.
    pub timestamp: String,
    /// The address that was captured.
    pub target_uri: Option<String>,
    /// The digest of the payload.
    pub payload_digest: Option<String>,
    /// The lines of the record's body, without their line ends.
    pub body_lines: Vec<String>,
}

/// The status code on an HTTP status line: its second word, read as a number; else zero.
pub open spec fn status_of(line: Seq<char>) -> u32 {
    let words = whitespace_words(line);
    if words.len() >= 2 {
        match parsed_u32(words[1]) {
            Some(n) => n,
            None => 0,
        }
    } else {
        0
    }
}

/// A header line's name in lower case and its value: what stands before and
/// behind the first colon.
pub open spec fn header_field(line: Seq<char>) -> Option<(Seq<char>, Seq<char>)> {
    match line.index_of_first(':') {
        Some(i) => Some((lowercased(line.take(i)), line.skip(i + 1))),
        None => None,
    }
}

/// The media type in a content-type value: what stands before the first
/// semicolon, trimmed.
pub open spec fn mime_of(value: Seq<char>) -> Seq<char> {
    match value.index_of_first(';') {
        Some(i) => trimmed(value.take(i)),
        None => trimmed(value),
    }
}

/// The index of the first empty line at or behind `i`; the number of lines if there is none.
pub open spec fn block_end(lines: Seq<String>, i: int) -> int
    decreases lines.len() - i,
{
    if i >= lines.len() || lines[i]@.len() == 0 {
        i
    } else {
        block_end(lines, i + 1)
    }
}

/// Media type and redirect target after the header lines `1..n`: each is
/// `-` until a line sets it, and a later line overrules an earlier one.
pub open spec fn fields_in(lines: Seq<String>, n: int) -> (Seq<char>, Seq<char>)
    decreases n,
{
    if n <= 1 {
        ("-"@, "-"@)
    } else {
        let prev = fields_in(lines, n - 1);
        match header_field(lines[n - 1]@) {
            Some((name, value)) => if name == "content-type"@ {
                (mime_of(value), prev.1)
            } else if name == "location"@ {
                (prev.0, trimmed(value))
            } else {
                prev
            },
            None => prev,
        }
    }
}

/// The record is a response whose declared content type, if any, is that of an HTTP response.
pub open spec fn eligible(rec: DecodedRecord) -> bool {
    rec.is_response && match rec.content_type {
        Some(ct) => ct@ == "application/http; msgtype=response"@,
        None => true,
    }
}

/// The key of a record that gets an entry: the record is eligible and its
/// address has a key.
pub open spec fn indexed_key(rec: DecodedRecord) -> Option<Seq<char>> {
    if !eligible(rec) {
        None
    } else {
        match rec.target_uri {
            Some(t) => canonical(t@),
            None => None,
        }
    }
}

/// The record's digest as it is given; `-` where the record has none.
pub open spec fn digest_of(rec: DecodedRecord) -> Seq<char> {
    match rec.payload_digest {
        Some(d) => d@,
        None => "-"@,
    }
}

/// The status code of a body: that of its first line; zero for an empty body.
pub open spec fn status_in(lines: Seq<String>) -> u32 {
    if lines.len() > 0 {
        status_of(lines[0]@)
    } else {
        0
    }
}

/// Each of the five text fields of a line has a JSON literal.
pub open spec fn fields_encodable(
    url: Seq<char>,
    digest: Seq<char>,
    redirect: Seq<char>,
    mime: Seq<char>,
    file_name: Seq<char>,
) -> bool {
    json_encoded(url).is_some() && json_encoded(digest).is_some() && json_encoded(
        redirect,
    ).is_some() && json_encoded(mime).is_some() && json_encoded(file_name).is_some()
}

/// The record can be written in the format: it gets no entry, or the
/// format is the eleven-field one, or each text field of its entry has a
/// JSON literal.
pub open spec fn encodable(
    file_name: Seq<char>,
    format: IndexFormat,
    rec: Option<DecodedRecord>,
) -> bool {
    match rec {
        None => true,
        Some(rec) => match (indexed_key(rec), rec.target_uri) {
            (Some(_), Some(url)) => format == IndexFormat::CDX || fields_encodable(
                url@,
                digest_of(rec),
                fields_in(rec.body_lines@, block_end(rec.body_lines@, 1)).1,
                fields_in(rec.body_lines@, block_end(rec.body_lines@, 1)).0,
                file_name,
            ),
            _ => true,
        },
    }
}

/// The line that a record gets when paired with `member`: its key, its
/// capture time, its address and its digest as they are given, what its
/// HTTP header says, and the member's place. None if the record gets no
/// entry or cannot be written in the format.
pub open spec fn entry_line(
    file_name: Seq<char>,
    format: IndexFormat,
    member: GzipMember,
    rec: Option<DecodedRecord>,
) -> Option<Seq<char>> {
    match rec {
        None => None,
        Some(rec) => match (indexed_key(rec), rec.target_uri) {
            (Some(key), Some(url)) => {
                let lines = rec.body_lines@;
                let fields = fields_in(lines, block_end(lines, 1));
                line_of(
                    format,
                    key,
                    rec.timestamp@,
                    url@,
                    digest_of(rec),
                    fields.1,
                    fields.0,
                    member.offset,
                    member.length,
                    status_in(lines),
                    file_name,
                )
            },
            _ => None,
        },
    }
}

/// The line of the record at position `j`, paired with the member at position `j`.
pub open spec fn entry_at(
    file_name: Seq<char>,
    format: IndexFormat,
    members: Seq<GzipMember>,
    records: Seq<Option<DecodedRecord>>,
    j: int,
) -> Option<Seq<char>> {
    entry_line(file_name, format, members[j], records[j])
}

/// The heading of an index in the given format.
pub open spec fn heading(format: IndexFormat) -> Seq<char> {
    match format {
        IndexFormat::CDX => " CDX N b a m s k r M S V g\n"@,
        IndexFormat::CDXJ => Seq::empty(),
    }
}

/// The index of the first `n` records: the heading, then the line of each
/// record that has one, in the order of the records.
pub open spec fn index_text(
    file_name: Seq<char>,
    format: IndexFormat,
    members: Seq<GzipMember>,
    records: Seq<Option<DecodedRecord>>,
    n: int,
) -> Seq<char>
    decreases n,
{
    if n <= 0 {
        heading(format)
    } else {
        let prev = index_text(file_name, format, members, records, n - 1);
        match entry_at(file_name, format, members, records, n - 1) {
            Some(line) => prev + line,
            None => prev,
        }
    }
}

/// A record that could not be decoded takes its place in the pairing all the
/// same: with it or with any other record at position `k`, every other
/// position is paired with the same member and gets the same line.
pub proof fn lemma_pairing_keeps_place(
    file_name: Seq<char>,
    format: IndexFormat,
    members: Seq<GzipMember>,
    records: Seq<Option<DecodedRecord>>,
    k: int,
    j: int,
)
    requires
        0 <= k < records.len(),
        0 <= j < records.len(),
        j != k,
    ensures
        entry_at(file_name, format, members, records.update(k, None), j) == entry_line(
            file_name,
            format,
            members[j],
            records[j],
        ),
        entry_at(file_name, format, members, records.update(k, None), k).is_none(),
{
}

/// The status code on an HTTP status line.
pub fn http_status(line: &str) -> (r: u32)
    ensures
        r == status_of(line@),
{
    let words = split_whitespace(line);
    assert(string_texts(words@).len() == words@.len());
    if words.len() >= 2 {
        assert(string_texts(words@)[1] == words@[1]@);
        match parse_u32(words[1].as_str()) {
            Some(n) => n,
            None => 0,
        }
    } else {
        0
    }
}

/// The media type in a content-type value.
pub fn mime_type(value: &str) -> (r: String)
    ensures
        r@ == mime_of(value@),
{
    let chars = chars_of(value);
    match find_char(&chars, ';') {
        Some(i) => {
            let head = text_of(&chars, 0, i);
            assert(chars@.subrange(0, i as int) =~= chars@.take(i as int));
            trim(head.as_str())
        },
        None => trim(value),
    }
}

/// Media type and redirect target from the header block of a body: the
/// lines behind the first, up to the first empty one.
pub fn header_fields(lines: &Vec<String>) -> (r: (String, String))
    ensures
        r.0@ == fields_in(lines@, block_end(lines@, 1)).0,
        r.1@ == fields_in(lines@, block_end(lines@, 1)).1,
{
    let mut mime = String::from_str("-");
    let mut redirect = String::from_str("-");
    let content_type = String::from_str("content-type");
    let location = String::from_str("location");
    let mut i: usize = 1;
    while i < lines.len()
        invariant
            1 <= i,
            block_end(lines@, 1) == block_end(lines@, i as int),
            mime@ == fields_in(lines@, i as int).0,
            redirect@ == fields_in(lines@, i as int).1,
            content_type@ == "content-type"@,
            location@ == "location"@,
        decreases lines.len() - i,
    {
        let chars = chars_of(lines[i].as_str());
        if chars.len() == 0 {
            return (mime, redirect);
        }
        match find_char(&chars, ':') {
            Some(at) => {
                let name = lowercase(text_of(&chars, 0, at).as_str());
                let value = text_of(&chars, at + 1, chars.len());
                assert(chars@.subrange(0, at as int) =~= chars@.take(at as int));
                assert(chars@.subrange(at + 1, chars.len() as int) =~= chars@.skip(at + 1));
                if name.eq(&content_type) {
                    mime = mime_type(value.as_str());
                } else if name.eq(&location) {
                    redirect = trim(value.as_str());
                }
            },
            None => {},
        }
        i += 1;
    }
    (mime, redirect)
}

/// Whether the record is one that the index has lines for.
pub fn is_eligible(rec: &DecodedRecord) -> (r: bool)
    ensures
        r == eligible(*rec),
{
    if !rec.is_response {
        return false;
    }
    match &rec.content_type {
        Some(ct) => {
            let wanted = String::from_str("application/http; msgtype=response");
            ct.eq(&wanted)
        },
        None => true,
    }
}

/// The entry of a record paired with `member`, if the record gets one:
/// the address and the digest as they are given, the member's place, and
/// what the record's HTTP header says.
pub fn build_record(file_name: &str, member: &GzipMember, rec: &DecodedRecord) -> (r: Option<
    CdxRecord,
>)
    ensures
        r.is_some() == indexed_key(*rec).is_some(),
        r matches Some(e) ==> {
            &&& Some(e.searchable_url@) == indexed_key(*rec)
            &&& e.timestamp@ == rec.timestamp@
            &&& Some(e.data.url@) == opt_text(rec.target_uri)
            &&& e.data.digest@ == digest_of(*rec)
            &&& e.data.mime@ == fields_in(rec.body_lines@, block_end(rec.body_lines@, 1)).0
            &&& e.data.redirect@ == fields_in(rec.body_lines@, block_end(rec.body_lines@, 1)).1
            &&& e.data.status == status_in(rec.body_lines@)
            &&& e.data.offset == member.offset
            &&& e.data.length == member.length
            &&& e.data.file_name@ == file_name@
        },
        r matches Some(e) ==> forall|format: IndexFormat|
            e.line(format) == #[trigger] entry_line(file_name@, format, *member, Some(*rec)),
{
    if !is_eligible(rec) {
        return None;
    }
    let target = match &rec.target_uri {
        Some(t) => t,
        None => {
            return None;
        },
    };
    let key = match canonicalize(target.as_str()) {
        Ok(key) => key,
        Err(_) => {
            return None;
        },
    };
    let mut entry = CdxRecord::new(String::from_str(file_name));
    entry.timestamp = String::from_str(rec.timestamp.as_str());
    entry.searchable_url = key;
    entry.data.url = String::from_str(target.as_str());
    entry.data.length = member.length;
    entry.data.offset = member.offset;
    match &rec.payload_digest {
        Some(d) => {
            entry.data.digest = String::from_str(d.as_str());
        },
        None => {},
    }
    if rec.body_lines.len() > 0 {
        entry.data.status = http_status(rec.body_lines[0].as_str());
    }
    let (mime, redirect) = header_fields(&rec.body_lines);
    entry.data.mime = mime;
    entry.data.redirect = redirect;
    Some(entry)
}

/// The indexing pipeline.
pub struct Warc {}

impl Warc {
    /// The text of the index of `records`, the record at each position paired
    /// with the member at the same position; a record that could not be
    /// decoded is `None`. Succeeds exactly when there are no more records
    /// than members; every record then can be written in the format.
    pub fn index(
        input: &str,
        format: IndexFormat,
        gzip_members: &Vec<GzipMember>,
        records: &Vec<Option<DecodedRecord>>,
    ) -> (r: Result<String, IndexError>)
        ensures
            r.is_ok() <==> records.len() <= gzip_members.len(),
            r.is_ok() ==> forall|j: int|
                0 <= j < records.len() ==> encodable(input@, format, #[trigger] records@[j]),
            r matches Ok(text) ==> text@ == index_text(
                input@,
                format,
                gzip_members@,
                records@,
                records.len() as int,
            ),
            r matches Err(e) ==> e == IndexError::PairingFailure,
    {
        if records.len() > gzip_members.len() {
            return Err(IndexError::PairingFailure);
        }
        let mut out = String::new();
        match format {
            IndexFormat::CDX => {
                out.append(" CDX N b a m s k r M S V g\n");
            },
            IndexFormat::CDXJ => {},
        }
        assert(out@ =~= heading(format));
        let mut count: usize = 0;
        while count < records.len()
            invariant
                count <= records.len() <= gzip_members.len(),
                out@ == index_text(input@, format, gzip_members@, records@, count as int),
                forall|j: int| 0 <= j < count ==> encodable(input@, format, #[trigger] records@[j]),
            decreases records.len() - count,
        {
            let member = &gzip_members[count];
            match &records[count] {
                None => {},
                Some(rec) => match build_record(input, member, rec) {
                    None => {},
                    Some(entry) => {
                        assert(entry.line(format) == entry_line(
                            input@,
                            format,
                            *member,
                            Some(*rec),
                        ));
                        let written = match format {
                            IndexFormat::CDX => Cdx11Writer::write(&mut out, &entry),
                            IndexFormat::CDXJ => CdxjWriter::write(&mut out, &entry),
                        };
                        match written {
                            Ok(_) => {},
                            Err(e) => {
                                return Err(e);
                            },
                        }
                    },
                },
            }
            count += 1;
        }
        Ok(out)
    }
}

} // verus!
