//! Reading the company symbol list from gzip-compressed CSV.
use vstd::prelude::*;

use crate::company_token_mapper::{list_view, EntryView};
use crate::error::Error;
use crate::text::{
    char_is_whitespace, chars_to_string, is_whitespace_char, str_to_chars, str_to_uppercase,
    uppercase_chars,
};
use crate::types::{AlternateCompanyName, CompanySymbolList};
use crate::utils::seq_facts::string_views;

verus! {

/// The header row that `csv::Reader::headers` reads from `text` (a reader with headers
/// enabled and the crate's other defaults), as its fields; or the message of its error.
pub uninterp spec fn csv_header_row(text: Seq<char>) -> Result<Seq<Seq<char>>, Seq<char>>;

/// The data records that `csv::Reader::records` yields for `text`, as their fields, up to the
/// first one that fails; and the message of that failure, if one fails.
pub uninterp spec fn csv_data_records(text: Seq<char>) -> (Seq<Seq<Seq<char>>>, Option<Seq<char>>);

/// What `flate2::read::GzDecoder` followed by `Read::read_to_string` gives for `bytes`: the
/// decompressed text, or the message of the error.
pub uninterp spec fn gunzip_text(bytes: Seq<u8>) -> Result<Seq<char>, Seq<char>>;

/// The views of CSV records.
pub open spec fn record_views(records: Seq<Vec<String>>) -> Seq<Seq<Seq<char>>> {
    records.map_values(|r: Vec<String>| string_views(r@))
}

/// `csv::Reader::headers` on a reader over `text`; the contract claims that the result is the
/// named header row, or the named error message.
#[verifier::external_body]
fn read_csv_headers(text: &str) -> (headers: Result<Vec<String>, String>)
    ensures
        match headers {
            Ok(h) => csv_header_row(text@) == Ok::<Seq<Seq<char>>, Seq<char>>(string_views(h@)),
            Err(m) => csv_header_row(text@) == Err::<Seq<Seq<char>>, Seq<char>>(m@),
        },
{
    let mut reader = csv::ReaderBuilder::new().has_headers(true).from_reader(std::io::Cursor::new(text));
    match reader.headers() {
        Ok(record) => {
            let mut fields: Vec<String> = Vec::new();
            for field in record.iter() {
                fields.push(field.to_string());
            }
            Ok(fields)
        },
        Err(e) => Err(e.to_string()),
    }
}

/// `csv::Reader::records` on a reader over `text`, read up to the first record that fails; the
/// contract claims that the records read and the failure's message are the named ones.
#[verifier::external_body]
fn read_csv_records(text: &str) -> (records: (Vec<Vec<String>>, Option<String>))
    ensures
        csv_data_records(text@) == (record_views(records.0@), match records.1 {
            Some(m) => Some(m@),
            None => None,
        }),
{
    let mut reader = csv::ReaderBuilder::new().has_headers(true).from_reader(std::io::Cursor::new(text));
    let mut records: Vec<Vec<String>> = Vec::new();
    for result in reader.records() {
        match result {
            Ok(record) => {
                let mut fields: Vec<String> = Vec::new();
                for field in record.iter() {
                    fields.push(field.to_string());
                }
                records.push(fields);
            },
            Err(e) => return (records, Some(e.to_string())),
        }
    }
    (records, None)
}

/// `flate2::read::GzDecoder` read to the end into a string; the contract claims that the result
/// is the named decompressed text, or the named error message.
#[verifier::external_body]
fn gunzip_to_string(bytes: &[u8]) -> (text: Result<String, String>)
    ensures
        match text {
            Ok(t) => gunzip_text(bytes@) == Ok::<Seq<char>, Seq<char>>(t@),
            Err(m) => gunzip_text(bytes@) == Err::<Seq<char>, Seq<char>>(m@),
        },
{
    let mut decoder = flate2::read::GzDecoder::new(bytes);
    let mut text = String::new();
    match std::io::Read::read_to_string(&mut decoder, &mut text) {
        Ok(_) => Ok(text),
        Err(e) => Err(e.to_string()),
    }
}

/// The first position of `name` among `headers`, or -1 where it is absent.
pub open spec fn header_index(headers: Seq<Seq<char>>, name: Seq<char>) -> int
    decreases headers.len(),
{
    if headers.len() == 0 {
        -1
    } else if header_index(headers.drop_last(), name) >= 0 {
        header_index(headers.drop_last(), name)
    } else if headers.last() == name {
        headers.len() - 1
    } else {
        -1
    }
}

/// The field at position `i` of a record, where there is one.
pub open spec fn field_at(record: Seq<Seq<char>>, i: int) -> Option<Seq<char>> {
    if 0 <= i < record.len() {
        Some(record[i])
    } else {
        None
    }
}

/// Whether the header row names the symbol, company name and alternate names columns.
pub open spec fn has_required_headers(headers: Seq<Seq<char>>) -> bool {
    &&& header_index(headers, "Symbol"@) >= 0
    &&& header_index(headers, "Company Name"@) >= 0
    &&& header_index(headers, "Alternate Names"@) >= 0
}

/// The parts of `s` found by splitting at commas so far, and the part being read.
pub open spec fn comma_split_state(s: Seq<char>) -> (Seq<Seq<char>>, Seq<char>)
    decreases s.len(),
{
    if s.len() == 0 {
        (Seq::empty(), Seq::empty())
    } else {
        let (parts, current) = comma_split_state(s.drop_last());
        if s.last() == ',' {
            (parts.push(current), Seq::empty())
        } else {
            (parts, current.push(s.last()))
        }
    }
}

/// The parts of `s` between commas, as `str::split(',')` gives them.
pub open spec fn split_commas(s: Seq<char>) -> Seq<Seq<char>> {
    let (parts, current) = comma_split_state(s);
    parts.push(current)
}

/// `s` without its leading whitespace.
pub open spec fn trim_start(s: Seq<char>) -> Seq<char>
    decreases s.len(),
{
    if s.len() > 0 && is_whitespace_char(s[0]) {
        trim_start(s.drop_first())
    } else {
        s
    }
}

/// `s` without its trailing whitespace.
pub open spec fn trim_end(s: Seq<char>) -> Seq<char>
    decreases s.len(),
{
    if s.len() > 0 && is_whitespace_char(s.last()) {
        trim_end(s.drop_last())
    } else {
        s
    }
}

/// `s` without leading and trailing whitespace, as `str::trim` gives it.
pub open spec fn trim_whitespace(s: Seq<char>) -> Seq<char> {
    trim_end(trim_start(s))
}

/// The list entry of one record: its upper-cased symbol, its company name and its alternate
/// names split at commas and trimmed; `None` where the record has no symbol field.
pub open spec fn record_entry(headers: Seq<Seq<char>>, record: Seq<Seq<char>>) -> Option<EntryView> {
    match field_at(record, header_index(headers, "Symbol"@)) {
        None => None,
        Some(symbol) => Some(
            (
                uppercase_chars(symbol),
                field_at(record, header_index(headers, "Company Name"@)),
                match field_at(record, header_index(headers, "Alternate Names"@)) {
                    Some(names) => split_commas(names).map_values(|n: Seq<char>| trim_whitespace(n)),
                    None => Seq::empty(),
                },
            ),
        ),
    }
}

/// The list entries of the first `n` records, or `None` where one of them has no symbol field.
pub open spec fn records_entries(headers: Seq<Seq<char>>, records: Seq<Seq<Seq<char>>>, n: nat) -> Option<
    Seq<EntryView>,
>
    decreases n,
{
    if n == 0 {
        Some(Seq::empty())
    } else {
        match records_entries(headers, records, (n - 1) as nat) {
            Some(acc) => match record_entry(headers, records[n - 1]) {
                Some(e) => Some(acc.push(e)),
                None => None,
            },
            None => None,
        }
    }
}

/// The company symbol list held by CSV `text`, or the message of the parser error.
pub open spec fn company_list_from_csv(text: Seq<char>) -> Result<Seq<EntryView>, Seq<char>> {
    match csv_header_row(text) {
        Err(m) => Err("Failed to read headers: "@ + m),
        Ok(headers) => {
            let (records, failure) = csv_data_records(text);
            if records.len() > 0 && !has_required_headers(headers) {
                Err("Missing a required column header"@)
            } else {
                match records_entries(headers, records, records.len()) {
                    None => Err("Missing 'Symbol' field"@),
                    Some(entries) => match failure {
                        Some(m) => Err("Failed to read record: "@ + m),
                        None => Ok(entries),
                    },
                }
            }
        },
    }
}

/// The company symbol list held by gzip-compressed CSV `bytes`, or the message of the parser
/// error.
pub open spec fn company_list_from_gzip(bytes: Seq<u8>) -> Result<Seq<EntryView>, Seq<char>> {
    match gunzip_text(bytes) {
        Err(m) => Err(m),
        Ok(text) => company_list_from_csv(text),
    }
}

/// The position of `name` among `headers`: see `header_index`.
fn find_header(headers: &[String], name: &String) -> (position: Option<usize>)
    ensures
        match position {
            Some(i) => i == header_index(string_views(headers@), name@) && i < headers@.len(),
            None => header_index(string_views(headers@), name@) < 0,
        },
{
    let ghost views = string_views(headers@);
    let mut i: usize = 0;
    while i < headers.len()
        invariant
            i <= headers@.len(),
            views == string_views(headers@),
            header_index(views.take(i as int), name@) < 0,
        decreases headers@.len() - i,
    {
        assert(views.take(i + 1).drop_last() =~= views.take(i as int));
        if headers[i] == *name {
            assert(views.take(i + 1).last() == name@);
            proof {
                lemma_header_index_prefix(views, i + 1, name@);
            }
            return Some(i);
        }
        i = i + 1;
    }
    assert(views.take(headers@.len() as int) =~= views);
    None
}

/// The first position found in a prefix is the first position in the whole.
proof fn lemma_header_index_prefix(headers: Seq<Seq<char>>, i: int, name: Seq<char>)
    requires
        0 <= i <= headers.len(),
        header_index(headers.take(i), name) >= 0,
    ensures
        header_index(headers, name) == header_index(headers.take(i), name),
    decreases headers.len() - i,
{
    if i < headers.len() {
        assert(headers.take(i + 1).drop_last() =~= headers.take(i));
        lemma_header_index_prefix(headers, i + 1, name);
    } else {
        assert(headers.take(i) =~= headers);
    }
}

/// The characters of `chars` split at commas: see `split_commas`.
fn split_at_commas(chars: &Vec<char>) -> (parts: Vec<Vec<char>>)
    ensures
        parts@.map_values(|p: Vec<char>| p@) == split_commas(chars@),
{
    let mut parts: Vec<Vec<char>> = Vec::new();
    let mut current: Vec<char> = Vec::new();
    let mut i: usize = 0;
    while i < chars.len()
        invariant
            i <= chars@.len(),
            parts@.map_values(|p: Vec<char>| p@) == comma_split_state(chars@.take(i as int)).0,
            current@ == comma_split_state(chars@.take(i as int)).1,
        decreases chars@.len() - i,
    {
        assert(chars@.take(i + 1).drop_last() =~= chars@.take(i as int));
        if chars[i] == ',' {
            let ghost before = parts@.map_values(|p: Vec<char>| p@);
            parts.push(current);
            current = Vec::new();
            assert(parts@.map_values(|p: Vec<char>| p@) =~= before.push(comma_split_state(chars@.take(i as int)).1));
            assert(current@ =~= Seq::<char>::empty());
        } else {
            current.push(chars[i]);
        }
        i = i + 1;
    }
    assert(chars@.take(chars@.len() as int) =~= chars@);
    let ghost before = parts@.map_values(|p: Vec<char>| p@);
    parts.push(current);
    assert(parts@.map_values(|p: Vec<char>| p@) =~= before.push(comma_split_state(chars@).1));
    parts
}

/// `chars` without leading and trailing whitespace: see `trim_whitespace`.
fn trim_chars(chars: &Vec<char>) -> (trimmed: Vec<char>)
    ensures
        trimmed@ == trim_whitespace(chars@),
{
    let mut start: usize = 0;
    assert(chars@.skip(0) =~= chars@);
    while start < chars.len() && char_is_whitespace(chars[start])
        invariant
            start <= chars@.len(),
            trim_start(chars@.skip(start as int)) == trim_start(chars@),
        decreases chars@.len() - start,
    {
        assert(chars@.skip(start as int).drop_first() =~= chars@.skip(start + 1));
        start = start + 1;
    }
    let ghost rest = chars@.skip(start as int);
    assert(trim_start(rest) == rest) by {
        if rest.len() > 0 {
            assert(rest[0] == chars@[start as int]);
        }
    }
    let mut end: usize = chars.len();
    while end > start && char_is_whitespace(chars[end - 1])
        invariant
            start <= end <= chars@.len(),
            rest == chars@.skip(start as int),
            trim_end(chars@.subrange(start as int, end as int)) == trim_end(rest),
        decreases end - start,
    {
        assert(chars@.subrange(start as int, end as int).drop_last() =~= chars@.subrange(
            start as int,
            end - 1,
        ));
        end = end - 1;
    }
    assert(chars@.subrange(start as int, chars@.len() as int) =~= rest);
    let ghost kept = chars@.subrange(start as int, end as int);
    assert(trim_end(kept) == kept) by {
        if kept.len() > 0 {
            assert(kept.last() == chars@[end - 1]);
        }
    }
    let mut trimmed: Vec<char> = Vec::new();
    let mut k: usize = start;
    while k < end
        invariant
            start <= k <= end,
            end <= chars@.len(),
            trimmed@ == chars@.subrange(start as int, k as int),
        decreases end - k,
    {
        trimmed.push(chars[k]);
        assert(trimmed@ =~= chars@.subrange(start as int, k + 1));
        k = k + 1;
    }
    trimmed
}

/// The alternate names of a field: its parts between commas, trimmed.
fn split_alternate_names(names: &str) -> (alternate_names: Vec<AlternateCompanyName>)
    ensures
        string_views(alternate_names@) == split_commas(names@).map_values(
            |n: Seq<char>| trim_whitespace(n),
        ),
{
    let chars = str_to_chars(names);
    let parts = split_at_commas(&chars);
    let ghost part_views = parts@.map_values(|p: Vec<char>| p@);
    let mut alternate_names: Vec<AlternateCompanyName> = Vec::new();
    let mut i: usize = 0;
    while i < parts.len()
        invariant
            i <= parts@.len(),
            part_views == parts@.map_values(|p: Vec<char>| p@),
            string_views(alternate_names@) == part_views.take(i as int).map_values(
                |n: Seq<char>| trim_whitespace(n),
            ),
        decreases parts@.len() - i,
    {
        let trimmed = trim_chars(&parts[i]);
        let ghost before = string_views(alternate_names@);
        alternate_names.push(chars_to_string(&trimmed));
        assert(string_views(alternate_names@) =~= part_views.take(i + 1).map_values(
            |n: Seq<char>| trim_whitespace(n),
        )) by {
            assert(part_views.take(i + 1) =~= part_views.take(i as int).push(part_views[i as int]));
            assert(string_views(alternate_names@) =~= before.push(trimmed@));
        }
        i = i + 1;
    }
    assert(part_views.take(part_views.len() as int) =~= part_views);
    alternate_names
}

/// Reads the company symbol list from gzip-compressed CSV, and from CSV text.
pub struct CompanySymbolListPreprocessor {}

impl CompanySymbolListPreprocessor {
    /// The company symbol list of CSV records under a header row: for each record in order, its
    /// upper-cased symbol, its company name and its alternate names split at commas and trimmed.
    ///
    /// Where there are records, the header row must name the `Symbol`, `Company Name` and
    /// `Alternate Names` columns. Fails with a parser error where a record has no symbol field.
    pub fn company_symbol_list_from_records(headers: &[String], records: &[Vec<String>]) -> (list:
        Result<CompanySymbolList, Error>)
        requires
            records@.len() > 0 ==> has_required_headers(string_views(headers@)),
        ensures
            match records_entries(string_views(headers@), record_views(records@), records@.len()) {
                Some(entries) => list matches Ok(l) && list_view(l@) == entries,
                None => list matches Err(Error::ParserError(msg)) && msg@ == "Missing 'Symbol' field"@,
            },
    {
        let ghost hv = string_views(headers@);
        let ghost rv = record_views(records@);
        let mut company_symbols_list: CompanySymbolList = Vec::new();
        if records.len() == 0 {
            assert(list_view(company_symbols_list@) =~= Seq::<EntryView>::empty());
            return Ok(company_symbols_list);
        }
        let symbol_position = find_header(headers, &"Symbol".to_owned()).unwrap();
        let name_position = find_header(headers, &"Company Name".to_owned()).unwrap();
        let alternate_position = find_header(headers, &"Alternate Names".to_owned()).unwrap();
        let mut i: usize = 0;
        while i < records.len()
            invariant
                i <= records@.len(),
                hv == string_views(headers@),
                rv == record_views(records@),
                symbol_position == header_index(hv, "Symbol"@),
                name_position == header_index(hv, "Company Name"@),
                alternate_position == header_index(hv, "Alternate Names"@),
                records_entries(hv, rv, i as nat) == Some(list_view(company_symbols_list@)),
                company_symbols_list@.len() == i,
            decreases records@.len() - i,
        {
            let record = &records[i];
            let ghost fields = rv[i as int];
            assert(fields == string_views(record@));
            if symbol_position >= record.len() {
                assert(field_at(fields, header_index(hv, "Symbol"@)) is None);
                proof {
                    lemma_records_entries_none_extends(hv, rv, (i + 1) as nat, records@.len() as nat);
                }
                return Err(Error::ParserError("Missing 'Symbol' field".to_owned()));
            }
            let symbol = str_to_uppercase(record[symbol_position].as_str());
            let company_name = if name_position < record.len() {
                Some(record[name_position].clone())
            } else {
                None
            };
            let alternate_names = if alternate_position < record.len() {
                split_alternate_names(record[alternate_position].as_str())
            } else {
                Vec::new()
            };
            let ghost before = list_view(company_symbols_list@);
            let ghost entry = (symbol, company_name, alternate_names);
            company_symbols_list.push((symbol, company_name, alternate_names));
            proof {
                assert(list_view(company_symbols_list@) =~= before.push(
                    crate::company_token_mapper::entry_view(company_symbols_list@[i as int]),
                ));
                assert(record_entry(hv, fields) == Some(
                    crate::company_token_mapper::entry_view(company_symbols_list@[i as int]),
                )) by {
                    if alternate_position >= record.len() {
                        assert(string_views(company_symbols_list@[i as int].2@) =~= Seq::<Seq<char>>::empty());
                    }
                }
            }
            i = i + 1;
        }
        Ok(company_symbols_list)
    }

    /// Parses a company symbol list from CSV text whose header row names the `Symbol`,
    /// `Company Name` and `Alternate Names` columns: see `company_list_from_csv`.
    ///
    /// Fails with a parser error where the header row or a record cannot be read, where there
    /// are records and a required column header is missing, or where a record has no symbol
    /// field.
    pub fn read_company_symbol_list_from_string(csv_str: &str) -> (list: Result<CompanySymbolList, Error>)
        ensures
            match company_list_from_csv(csv_str@) {
                Ok(entries) => list matches Ok(l) && list_view(l@) == entries,
                Err(m) => list matches Err(Error::ParserError(msg)) && msg@ == m,
            },
    {
        let headers = match read_csv_headers(csv_str) {
            Ok(h) => h,
            Err(m) => {
                let mut msg = "Failed to read headers: ".to_owned();
                msg.append(m.as_str());
                return Err(Error::ParserError(msg));
            },
        };
        let (records, failure) = read_csv_records(csv_str);
        if records.len() > 0 {
            let has_symbol = find_header(&headers, &"Symbol".to_owned()).is_some();
            let has_name = find_header(&headers, &"Company Name".to_owned()).is_some();
            let has_alternates = find_header(&headers, &"Alternate Names".to_owned()).is_some();
            if !(has_symbol && has_name && has_alternates) {
                return Err(Error::ParserError("Missing a required column header".to_owned()));
            }
        }
        let company_symbols_list = Self::company_symbol_list_from_records(&headers, &records)?;
        match failure {
            Some(m) => {
                let mut msg = "Failed to read record: ".to_owned();
                msg.append(m.as_str());
                Err(Error::ParserError(msg))
            },
            None => Ok(company_symbols_list),
        }
    }

    /// Decompresses gzip `read_bytes` and parses the company symbol list from the CSV text it
    /// holds: see `company_list_from_gzip`.
    ///
    /// Fails with a parser error where decompression fails (its message is the error's) or
    /// where parsing fails.
    pub fn extract_company_symbol_list_from_bytes(read_bytes: &[u8]) -> (list: Result<
        CompanySymbolList,
        Error,
    >)
        ensures
            match company_list_from_gzip(read_bytes@) {
                Ok(entries) => list matches Ok(l) && list_view(l@) == entries,
                Err(m) => list matches Err(Error::ParserError(msg)) && msg@ == m,
            },
    {
        let decompressed_data = match gunzip_to_string(read_bytes) {
            Ok(t) => t,
            Err(m) => {
                return Err(Error::ParserError(m));
            },
        };
        Self::read_company_symbol_list_from_string(decompressed_data.as_str())
    }
}

/// Once a record lacks its symbol field, the list stays unreadable.
proof fn lemma_records_entries_none_extends(
    headers: Seq<Seq<char>>,
    records: Seq<Seq<Seq<char>>>,
    k: nat,
    n: nat,
)
    requires
        k <= n,
        records_entries(headers, records, k) is None,
    ensures
        records_entries(headers, records, n) is None,
    decreases n - k,
{
    if k < n {
        lemma_records_entries_none_extends(headers, records, k + 1, n);
    }
}

} // verus!
