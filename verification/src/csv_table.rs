//! Roblox Cloud localization tables in CSV form.
//!
//! A table has the header `Source,Context,Key,<locale>...` and one row per
//! translation key. The CSV syntax itself (quoting, line breaks) is the job
//! of the `csv` crate; this module decides which rows a set of translations
//! becomes, and which translations a set of rows stands for.

use vstd::prelude::*;
use vstd::utf8::{decode_utf8, valid_utf8};

use crate::text::{
    chars_of, is_blank, is_blank_chars, lemma_take_map_push, lemma_views_push, sorted_set,
    sorted_unique, trim_seq, trim_str, views,
};
use crate::translation::{copy_opt, opt_view, tviews, Translation, TranslationView};

verus! {

#[verifier::external_type_specification]
#[verifier::external_body]
pub struct ExCsvError(csv::Error);

/// The rows of a table as texts.
pub open spec fn rows_view(rows: Seq<Vec<String>>) -> Seq<Seq<Seq<char>>> {
    rows.map_values(|r: Vec<String>| views(r@))
}

/// A field that is written in quotes: one holding a comma, a quote, `\r`
/// or `\n`.
pub open spec fn needs_quotes(f: Seq<char>) -> bool {
    exists|i: int| 0 <= i < f.len() && (#[trigger] f[i] == ',' || f[i] == '"' || f[i] == '\r' || f[i] == '\n')
}

/// The field with each quote doubled.
pub open spec fn double_quotes(f: Seq<char>) -> Seq<char>
    decreases f.len(),
{
    if f.len() == 0 {
        Seq::empty()
    } else {
        double_quotes(f.drop_last()) + if f.last() == '"' {
            seq!['"', '"']
        } else {
            seq![f.last()]
        }
    }
}

/// How a field is written: in quotes, with its quotes doubled, where it
/// needs them, else as it is.
pub open spec fn field_text(f: Seq<char>) -> Seq<char> {
    if needs_quotes(f) {
        seq!['"'] + double_quotes(f) + seq!['"']
    } else {
        f
    }
}

/// The fields of a record written one after the other, a comma between two.
pub open spec fn fields_text(r: Seq<Seq<char>>) -> Seq<char>
    decreases r.len(),
{
    if r.len() == 0 {
        Seq::empty()
    } else if r.len() == 1 {
        field_text(r[0])
    } else {
        fields_text(r.drop_last()) + seq![','] + field_text(r.last())
    }
}

/// A record's line: its fields, or `""` where they come to no text at all
/// (no field, or one empty field), then `\n`.
pub open spec fn record_text(r: Seq<Seq<char>>) -> Seq<char> {
    (if fields_text(r).len() == 0 {
        seq!['"', '"']
    } else {
        fields_text(r)
    }) + seq!['\n']
}

/// The CSV text of `rows`: their lines one after the other.
pub open spec fn csv_text(rows: Seq<Seq<Seq<char>>>) -> Seq<char>
    decreases rows.len(),
{
    if rows.len() == 0 {
        Seq::empty()
    } else {
        csv_text(rows.drop_last()) + record_text(rows.last())
    }
}

/// The records that the `csv` crate reads from `content` with headers off
/// and flexible row lengths, or `None` where it reports an error.
pub uninterp spec fn csv_decoding(content: Seq<char>) -> Option<Seq<Seq<Seq<char>>>>;

/// Every row has the same number of fields.
pub open spec fn rows_aligned(rows: Seq<Seq<Seq<char>>>) -> bool {
    forall|i: int, j: int| 0 <= i < rows.len() && 0 <= j < rows.len() ==> #[trigger] rows[i].len() == #[trigger] rows[j].len()
}

/// Rows that a reader gets back as written: each row has a field, and the
/// text does not start with a byte order mark (a reader drops one there).
pub open spec fn rows_read_back_safe(rows: Seq<Seq<Seq<char>>>) -> bool {
    &&& forall|i: int| 0 <= i < rows.len() ==> #[trigger] rows[i].len() > 0
    &&& !(rows.len() > 0 && rows[0][0].len() > 0 && rows[0][0][0] == '\u{feff}')
}

/// Writes `rows` with `csv::WriterBuilder::new().from_writer(..)`, one
/// `write_record` per row, and takes the bytes back with `into_inner`.
///
/// Trusted: the writer is not flexible, so `write_record` fails only on a
/// row whose length differs from the first row's, and writing into a `Vec`
/// or flushing it cannot fail: rows of one length are always written. The
/// default writer quotes a field that holds a comma, a quote, `\r` or `\n`
/// (doubling its quotes), writes `""` for a record with no text, and ends
/// each record with `\n`; the bytes are the UTF-8 encoding of
/// [`csv_text`]. A reader with headers off gets the rows back, except for a
/// byte order mark at the very start, which the reader strips.
#[verifier::external_body]
fn write_csv_rows(rows: &Vec<Vec<String>>) -> (r: Result<Vec<u8>, csv::Error>)
    ensures
        rows_aligned(rows_view(rows@)) ==> r is Ok,
        r matches Ok(b) ==> valid_utf8(b@) && decode_utf8(b@) == csv_text(rows_view(rows@)),
        rows_read_back_safe(rows_view(rows@)) ==> (r matches Ok(b) ==> csv_decoding(decode_utf8(b@))
            == Some(rows_view(rows@))),
{
    let mut writer = csv::WriterBuilder::new().from_writer(Vec::new());
    for row in rows.iter() {
        writer.write_record(row)?;
    }
    writer.into_inner().map_err(|e| csv::Error::from(e.into_error()))
}

/// Reads every record of `content` with
/// `csv::ReaderBuilder::new().has_headers(false).flexible(true)`.
///
/// Trusted: the outcome depends on `content` alone and is named
/// [`csv_decoding`]; how the crate splits fields is not stated.
#[verifier::external_body]
fn read_csv_rows(content: &str) -> (r: Result<Vec<Vec<String>>, csv::Error>)
    ensures
        r is Ok <==> csv_decoding(content@) is Some,
        r matches Ok(rows) ==> csv_decoding(content@) == Some(rows_view(rows@)),
{
    let mut reader = csv::ReaderBuilder::new().has_headers(false).flexible(true).from_reader(
        content.as_bytes(),
    );
    reader.records().map(|rec| rec.map(|r| r.iter().map(String::from).collect())).collect()
}

/// `String::from_utf8`, as std documents it: the text of valid UTF-8 bytes.
#[verifier::external_body]
fn string_from_utf8(bytes: Vec<u8>) -> (r: Option<String>)
    ensures
        r is Some <==> valid_utf8(bytes@),
        r matches Some(s) ==> s@ == decode_utf8(bytes@),
{
    String::from_utf8(bytes).ok()
}

/// The text of a `csv::Error` (its `Display`). Nothing is stated of it.
#[verifier::external_body]
fn csv_error_text(e: &csv::Error) -> String {
    format!("{}", e)
}

/// Why a table could not be written or read.
#[derive(Debug)]
pub enum CsvError {
    /// The `csv` crate reported an error.
    Format(csv::Error),
    /// The written table was not UTF-8.
    NotUtf8,
    /// The table has no rows at all.
    Empty,
    /// The header has fewer than three columns.
    InvalidHeader,
}

impl CsvError {
    /// A message for the user; for an error of the `csv` crate, the text
    /// that the crate gives it.
    pub fn message(&self) -> (r: String)
        ensures
            match *self {
                CsvError::Format(_) => true,
                CsvError::NotUtf8 => r@ == "CSV output was not UTF-8"@,
                CsvError::Empty => r@ == "CSV file is empty"@,
                CsvError::InvalidHeader => r@
                    == "Invalid CSV header: expected at least Source,Context,Key columns"@,
            },
    {
        match self {
            CsvError::Format(e) => csv_error_text(e),
            CsvError::NotUtf8 => String::from_str("CSV output was not UTF-8"),
            CsvError::Empty => String::from_str("CSV file is empty"),
            CsvError::InvalidHeader => String::from_str(
                "Invalid CSV header: expected at least Source,Context,Key columns",
            ),
        }
    }
}

// ---------------------------------------------------------------------------
// From translations to rows

/// The keys of some translations, as a set.
pub open spec fn key_set(ts: Seq<TranslationView>) -> Set<Seq<char>> {
    ts.map_values(|t: TranslationView| t.key).to_set()
}

/// The context of the first translation of `k`: a key's context is fixed by
/// its first occurrence.
pub open spec fn first_context(ts: Seq<TranslationView>, k: Seq<char>) -> Option<Seq<char>>
    decreases ts.len(),
{
    if ts.len() == 0 {
        None
    } else if ts[0].key == k {
        ts[0].context
    } else {
        first_context(ts.drop_first(), k)
    }
}

/// The value of the last translation of `k` into `l`: later ones win.
pub open spec fn last_value(ts: Seq<TranslationView>, k: Seq<char>, l: Seq<char>) -> Option<
    Seq<char>,
>
    decreases ts.len(),
{
    if ts.len() == 0 {
        None
    } else if ts.last().key == k && ts.last().locale == l {
        Some(ts.last().value)
    } else {
        last_value(ts.drop_last(), k, l)
    }
}

/// A cell's text: the value, or empty.
pub open spec fn cell(o: Option<Seq<char>>) -> Seq<char> {
    match o {
        Some(s) => s,
        None => Seq::empty(),
    }
}

/// The header row.
pub open spec fn header_row(locales: Seq<Seq<char>>) -> Seq<Seq<char>> {
    seq!["Source"@, "Context"@, "Key"@] + locales
}

/// The row of key `k`: source text (the base locale's value), context, key,
/// then the value in each locale.
pub open spec fn key_row(
    ts: Seq<TranslationView>,
    base: Seq<char>,
    locales: Seq<Seq<char>>,
    k: Seq<char>,
) -> Seq<Seq<char>> {
    seq![cell(last_value(ts, k, base)), cell(first_context(ts, k)), k] + locales.map_values(
        |l: Seq<char>| cell(last_value(ts, k, l)),
    )
}

/// The rows of the table: the header, then one row per key in sorted order.
pub open spec fn table_rows(
    ts: Seq<TranslationView>,
    base: Seq<char>,
    locales: Seq<Seq<char>>,
) -> Seq<Seq<Seq<char>>> {
    seq![header_row(locales)] + sorted_set(key_set(ts)).map_values(
        |k: Seq<char>| key_row(ts, base, locales, k),
    )
}

proof fn lemma_first_context_skip(ts: Seq<TranslationView>, k: Seq<char>, i: int)
    requires
        0 <= i < ts.len(),
    ensures
        first_context(ts.subrange(i, ts.len() as int), k) == if ts[i].key == k {
            ts[i].context
        } else {
            first_context(ts.subrange(i + 1, ts.len() as int), k)
        },
{
    let s = ts.subrange(i, ts.len() as int);
    assert(s[0] == ts[i]);
    assert(s.drop_first() =~= ts.subrange(i + 1, ts.len() as int));
}

/// The context that the table gives key `k`.
fn find_first_context(ts: &[Translation], k: &String) -> (r: Option<String>)
    ensures
        opt_view(r) == first_context(tviews(ts@), k@),
{
    let ghost tv = tviews(ts@);
    let mut i: usize = 0;
    assert(tv.subrange(0, tv.len() as int) =~= tv);
    while i < ts.len()
        invariant
            i <= ts.len(),
            tv == tviews(ts@),
            first_context(tv, k@) == first_context(tv.subrange(i as int, tv.len() as int), k@),
        decreases ts.len() - i,
    {
        proof {
            lemma_first_context_skip(tv, k@, i as int);
        }
        if ts[i].key == *k {
            return copy_opt(&ts[i].context);
        }
        i = i + 1;
    }
    assert(tv.subrange(i as int, tv.len() as int).len() == 0);
    None
}

/// The value that the table gives key `k` in locale `l`.
fn find_last_value(ts: &[Translation], k: &String, l: &String) -> (r: Option<String>)
    ensures
        opt_view(r) == last_value(tviews(ts@), k@, l@),
{
    let ghost tv = tviews(ts@);
    let mut i: usize = ts.len();
    assert(tv.take(tv.len() as int) =~= tv);
    while i > 0
        invariant
            i <= ts.len(),
            tv == tviews(ts@),
            last_value(tv, k@, l@) == last_value(tv.take(i as int), k@, l@),
        decreases i,
    {
        let ghost s = tv.take(i as int);
        assert(s.last() == tv[i - 1]);
        assert(s.drop_last() =~= tv.take(i - 1));
        if ts[i - 1].key == *k && ts[i - 1].locale == *l {
            return Some(ts[i - 1].value.clone());
        }
        i = i - 1;
    }
    None
}

fn cell_text(o: Option<String>) -> (r: String)
    ensures
        r@ == cell(opt_view(o)),
{
    match o {
        Some(s) => s,
        None => String::new(),
    }
}

/// The rows of the table for `translations`: the header, then one row per
/// key in sorted order.
pub fn table_rows_of(translations: &[Translation], base_locale: &str, locales: &[String]) -> (r: Vec<
    Vec<String>,
>)
    ensures
        rows_view(r@) == table_rows(tviews(translations@), base_locale@, views(locales@)),
{
    let ghost tv = tviews(translations@);
    let ghost lv = views(locales@);
    let mut header: Vec<String> = Vec::new();
    header.push(String::from_str("Source"));
    header.push(String::from_str("Context"));
    header.push(String::from_str("Key"));
    let mut j: usize = 0;
    while j < locales.len()
        invariant
            j <= locales.len(),
            lv == views(locales@),
            views(header@) == seq!["Source"@, "Context"@, "Key"@] + lv.take(j as int),
        decreases locales.len() - j,
    {
        let ghost old_h = header@;
        header.push(locales[j].clone());
        proof {
            lemma_views_push(old_h, locales@[j as int]);
            assert(lv.take(j + 1) =~= lv.take(j as int).push(lv[j as int]));
        }
        j = j + 1;
        assert(views(header@) =~= seq!["Source"@, "Context"@, "Key"@] + lv.take(j as int));
    }
    assert(lv.take(locales.len() as int) =~= lv);
    let mut all_keys: Vec<String> = Vec::new();
    let mut i: usize = 0;
    while i < translations.len()
        invariant
            i <= translations.len(),
            tv == tviews(translations@),
            views(all_keys@) == tv.take(i as int).map_values(|t: TranslationView| t.key),
        decreases translations.len() - i,
    {
        let ghost old_k = all_keys@;
        all_keys.push(translations[i].key.clone());
        proof {
            lemma_views_push(old_k, translations@[i as int].key);
            lemma_take_map_push(tv, |t: TranslationView| t.key, i as int);
        }
        i = i + 1;
        assert(views(all_keys@) =~= tv.take(i as int).map_values(|t: TranslationView| t.key));
    }
    assert(tv.take(translations.len() as int) =~= tv);
    let keys = sorted_unique(&all_keys);
    let ghost kv = views(keys@);
    let base = String::from_str(base_locale);
    let mut rows: Vec<Vec<String>> = Vec::new();
    rows.push(header);
    let mut n: usize = 0;
    while n < keys.len()
        invariant
            n <= keys.len(),
            tv == tviews(translations@),
            lv == views(locales@),
            kv == views(keys@),
            base@ == base_locale@,
            rows_view(rows@) == seq![header_row(lv)] + kv.take(n as int).map_values(
                |k: Seq<char>| key_row(tv, base_locale@, lv, k),
            ),
        decreases keys.len() - n,
    {
        let key = &keys[n];
        let mut row: Vec<String> = Vec::new();
        row.push(cell_text(find_last_value(translations, key, &base)));
        row.push(cell_text(find_first_context(translations, key)));
        row.push(key.clone());
        let mut m: usize = 0;
        while m < locales.len()
            invariant
                m <= locales.len(),
                tv == tviews(translations@),
                lv == views(locales@),
                views(row@) == seq![
                    cell(last_value(tv, key@, base_locale@)),
                    cell(first_context(tv, key@)),
                    key@,
                ] + lv.take(m as int).map_values(|l: Seq<char>| cell(last_value(tv, key@, l))),
            decreases locales.len() - m,
        {
            let ghost old_r = row@;
            let c = cell_text(find_last_value(translations, key, &locales[m]));
            row.push(c);
            proof {
                lemma_views_push(old_r, c);
                lemma_take_map_push(lv, |l: Seq<char>| cell(last_value(tv, key@, l)), m as int);
            }
            m = m + 1;
            assert(views(row@) =~= seq![
                cell(last_value(tv, key@, base_locale@)),
                cell(first_context(tv, key@)),
                key@,
            ] + lv.take(m as int).map_values(|l: Seq<char>| cell(last_value(tv, key@, l))));
        }
        assert(lv.take(locales.len() as int) =~= lv);
        assert(views(row@) == key_row(tv, base_locale@, lv, key@));
        let ghost old_rows = rows@;
        rows.push(row);
        proof {
            assert(rows_view(rows@) =~= rows_view(old_rows).push(views(row@)));
            lemma_take_map_push(kv, |k: Seq<char>| key_row(tv, base_locale@, lv, k), n as int);
        }
        n = n + 1;
        assert(rows_view(rows@) =~= seq![header_row(lv)] + kv.take(n as int).map_values(
            |k: Seq<char>| key_row(tv, base_locale@, lv, k),
        ));
    }
    assert(kv.take(keys.len() as int) =~= kv);
    rows
}

/// Writes `translations` as a Roblox Cloud localization table: the header
/// `Source,Context,Key` followed by `locales`, then one row per key in sorted
/// order, whose source cell holds the `base_locale` value. It always
/// succeeds, and reading the text back as CSV gives exactly those rows.
pub fn generate_csv(translations: &[Translation], base_locale: &str, locales: &[String]) -> (r:
    Result<String, CsvError>)
    ensures
        r is Ok,
        r matches Ok(s) ==> s@ == csv_text(table_rows(tviews(translations@), base_locale@, views(locales@))),
        r matches Ok(s) ==> csv_decoding(s@) == Some(
            table_rows(tviews(translations@), base_locale@, views(locales@)),
        ),
{
    let rows = table_rows_of(translations, base_locale, locales);
    proof {
        lemma_table_rows_shape(tviews(translations@), base_locale@, views(locales@));
    }
    match write_csv_rows(&rows) {
        Ok(bytes) => match string_from_utf8(bytes) {
            Some(s) => Ok(s),
            None => Err(CsvError::NotUtf8),
        },
        Err(e) => Err(CsvError::Format(e)),
    }
}

/// Every row of a table has the header's length, `3 + locales.len()`, and
/// the first cell of the table is `Source`.
proof fn lemma_table_rows_shape(ts: Seq<TranslationView>, base: Seq<char>, locales: Seq<Seq<char>>)
    ensures
        forall|i: int| 0 <= i < table_rows(ts, base, locales).len() ==> #[trigger] table_rows(ts, base, locales)[i].len()
            == 3 + locales.len(),
        rows_aligned(table_rows(ts, base, locales)),
        rows_read_back_safe(table_rows(ts, base, locales)),
{
    let rows = table_rows(ts, base, locales);
    assert forall|i: int| 0 <= i < rows.len() implies #[trigger] rows[i].len() == 3 + locales.len() by {
        if i > 0 {
            let ks = sorted_set(key_set(ts));
            assert(rows[i] == key_row(ts, base, locales, ks[i - 1]));
        }
    }
    assert(rows[0][0] == "Source"@);
    reveal_strlit("Source");
    assert("Source"@[0] == 'S');
}

// ---------------------------------------------------------------------------
// From rows to translations

/// Every cell of the row is blank.
pub open spec fn is_blank_row(row: Seq<Seq<char>>) -> bool {
    forall|j: int| 0 <= j < row.len() ==> is_blank(#[trigger] row[j])
}

/// An empty context cell means no context.
pub open spec fn context_of(c: Seq<char>) -> Option<Seq<char>> {
    if c.len() == 0 {
        None
    } else {
        Some(c)
    }
}

/// The translations in the first `n` locale cells of a row.
pub open spec fn locale_cells(
    key: Seq<char>,
    context: Option<Seq<char>>,
    locales: Seq<Seq<char>>,
    row: Seq<Seq<char>>,
    n: nat,
) -> Seq<TranslationView>
    decreases n,
{
    if n == 0 {
        Seq::empty()
    } else {
        let prev = locale_cells(key, context, locales, row, (n - 1) as nat);
        let i = n - 1;
        if 3 + i < row.len() && row[3 + i].len() > 0 {
            prev.push(
                TranslationView { key, value: row[3 + i], locale: locales[i], context },
            )
        } else {
            prev
        }
    }
}

/// The translations of one row below the header: none for a blank row or a
/// row of fewer than three cells; otherwise one per non-empty locale cell,
/// with the trimmed key and context.
pub open spec fn row_translations(locales: Seq<Seq<char>>, row: Seq<Seq<char>>) -> Seq<
    TranslationView,
> {
    if is_blank_row(row) || row.len() < 3 {
        Seq::empty()
    } else {
        locale_cells(
            trim_seq(row[2]),
            context_of(trim_seq(row[1])),
            locales,
            row,
            locales.len(),
        )
    }
}

/// The translations of the rows below the header, row after row.
pub open spec fn body_translations(locales: Seq<Seq<char>>, rows: Seq<Seq<Seq<char>>>) -> Seq<
    TranslationView,
>
    decreases rows.len(),
{
    if rows.len() == 0 {
        Seq::empty()
    } else {
        body_translations(locales, rows.drop_last()) + row_translations(locales, rows.last())
    }
}

/// The locales that a header names: its cells after the third, trimmed.
pub open spec fn header_locales(header: Seq<Seq<char>>) -> Seq<Seq<char>> {
    header.skip(3).map_values(|c: Seq<char>| trim_seq(c))
}

/// What a table's rows stand for: `Err(Empty)` without rows,
/// `Err(InvalidHeader)` when the header has fewer than three cells, otherwise
/// the translations of the rows below the header.
pub open spec fn rows_outcome(rows: Seq<Seq<Seq<char>>>) -> Result<Seq<TranslationView>, CsvError> {
    if rows.len() == 0 {
        Err(CsvError::Empty)
    } else if rows[0].len() < 3 {
        Err(CsvError::InvalidHeader)
    } else {
        Ok(body_translations(header_locales(rows[0]), rows.drop_first()))
    }
}

/// The translations of one row, appended to `out`.
fn push_row_translations(locales: &Vec<String>, row: &Vec<String>, out: &mut Vec<Translation>)
    ensures
        tviews(final(out)@) == tviews(old(out)@) + row_translations(views(locales@), views(row@)),
{
    let ghost lv = views(locales@);
    let ghost rv = views(row@);
    let mut j: usize = 0;
    let mut blank = true;
    while j < row.len()
        invariant
            j <= row.len(),
            rv == views(row@),
            blank == (forall|q: int| 0 <= q < j ==> is_blank(#[trigger] rv[q])),
        decreases row.len() - j,
    {
        let cs = chars_of(row[j].as_str());
        assert(rv[j as int] == cs@);
        if !is_blank_chars(&cs) {
            blank = false;
        }
        j = j + 1;
    }
    if blank || row.len() < 3 {
        assert(tviews(out@) =~= tviews(out@) + row_translations(lv, rv));
        return;
    }
    let key = trim_str(row[2].as_str());
    let ctx_text = trim_str(row[1].as_str());
    let context = if ctx_text.as_str().is_empty() {
        None
    } else {
        Some(ctx_text)
    };
    assert(opt_view(context) == context_of(trim_seq(rv[1])));
    let ghost start = tviews(out@);
    let mut i: usize = 0;
    while i < locales.len()
        invariant
            i <= locales.len(),
            lv == views(locales@),
            rv == views(row@),
            row.len() >= 3,
            key@ == trim_seq(rv[2]),
            opt_view(context) == context_of(trim_seq(rv[1])),
            tviews(out@) == start + locale_cells(key@, opt_view(context), lv, rv, i as nat),
        decreases locales.len() - i,
    {
        if i < row.len() - 3 && !row[3 + i].as_str().is_empty() {
            let ghost before = out@;
            let t = Translation::new(key.clone(), row[3 + i].clone(), locales[i].clone(), copy_opt(&context));
            out.push(t);
            assert(tviews(out@) =~= tviews(before).push(t@));
        }
        i = i + 1;
    }
}

/// The translations that a table's rows stand for.
pub fn translations_from_rows(rows: &Vec<Vec<String>>) -> (r: Result<Vec<Translation>, CsvError>)
    ensures
        match (r, rows_outcome(rows_view(rows@))) {
            (Ok(ts), Ok(tv)) => tviews(ts@) == tv,
            (Err(CsvError::Empty), Err(CsvError::Empty)) => true,
            (Err(CsvError::InvalidHeader), Err(CsvError::InvalidHeader)) => true,
            _ => false,
        },
{
    let ghost rv = rows_view(rows@);
    if rows.len() == 0 {
        return Err(CsvError::Empty);
    }
    let header = &rows[0];
    assert(rv[0] == views(header@));
    if header.len() < 3 {
        return Err(CsvError::InvalidHeader);
    }
    let mut locales: Vec<String> = Vec::new();
    let mut j: usize = 3;
    while j < header.len()
        invariant
            3 <= j <= header.len(),
            views(locales@) == views(header@).subrange(3, j as int).map_values(
                |c: Seq<char>| trim_seq(c),
            ),
        decreases header.len() - j,
    {
        let ghost before = locales@;
        let t = trim_str(header[j].as_str());
        locales.push(t);
        proof {
            lemma_views_push(before, t);
        }
        j = j + 1;
        assert(views(locales@) =~= views(header@).subrange(3, j as int).map_values(
            |c: Seq<char>| trim_seq(c),
        ));
    }
    assert(views(locales@) =~= header_locales(views(header@)));
    let ghost lv = views(locales@);
    let mut out: Vec<Translation> = Vec::new();
    let mut n: usize = 1;
    assert(rv.drop_first().take(0) =~= Seq::<Seq<Seq<char>>>::empty());
    while n < rows.len()
        invariant
            1 <= n <= rows.len(),
            rv == rows_view(rows@),
            lv == views(locales@),
            tviews(out@) == body_translations(lv, rv.drop_first().take(n - 1)),
        decreases rows.len() - n,
    {
        push_row_translations(&locales, &rows[n], &mut out);
        proof {
            let b = rv.drop_first().take(n as int);
            assert(b.drop_last() =~= rv.drop_first().take(n - 1));
            assert(b.last() == views(rows@[n as int]@));
        }
        n = n + 1;
    }
    assert(rv.drop_first().take(rows.len() - 1) =~= rv.drop_first());
    Ok(out)
}

/// Reads a Roblox Cloud localization table: the header names the locales
/// from its fourth column on; each following row gives a key (third column),
/// an optional context (second column) and one translation per non-empty
/// locale cell. Blank rows and rows of fewer than three cells are skipped.
pub fn parse_csv(content: &str) -> (r: Result<Vec<Translation>, CsvError>)
    ensures
        csv_decoding(content@) is None <==> r matches Err(CsvError::Format(_)),
        csv_decoding(content@) matches Some(rows) ==> match (r, rows_outcome(rows)) {
            (Ok(ts), Ok(tv)) => tviews(ts@) == tv,
            (Err(CsvError::Empty), Err(CsvError::Empty)) => true,
            (Err(CsvError::InvalidHeader), Err(CsvError::InvalidHeader)) => true,
            _ => false,
        },
{
    match read_csv_rows(content) {
        Ok(rows) => translations_from_rows(&rows),
        Err(e) => Err(CsvError::Format(e)),
    }
}

/// The translation of locale cell `i` of a row.
pub open spec fn cell_translation(
    key: Seq<char>,
    context: Option<Seq<char>>,
    locales: Seq<Seq<char>>,
    row: Seq<Seq<char>>,
    i: int,
) -> TranslationView {
    TranslationView { key, value: row[3 + i], locale: locales[i], context }
}

/// Locale cell `i` of a row holds a translation.
pub open spec fn cell_filled(row: Seq<Seq<char>>, i: int) -> bool {
    3 + i < row.len() && row[3 + i].len() > 0
}

proof fn lemma_locale_cells(
    key: Seq<char>,
    context: Option<Seq<char>>,
    locales: Seq<Seq<char>>,
    row: Seq<Seq<char>>,
    n: nat,
)
    ensures
        forall|x: TranslationView| #[trigger]
            locale_cells(key, context, locales, row, n).contains(x) <==> exists|i: int|
                0 <= i < n && #[trigger] cell_filled(row, i) && x == cell_translation(
                    key,
                    context,
                    locales,
                    row,
                    i,
                ),
    decreases n,
{
    if n > 0 {
        let m = (n - 1) as nat;
        lemma_locale_cells(key, context, locales, row, m);
        let prev = locale_cells(key, context, locales, row, m);
        let cur = locale_cells(key, context, locales, row, n);
        let i = n - 1;
        let y = cell_translation(key, context, locales, row, i);
        if cell_filled(row, i) {
            assert(cur == prev.push(y));
        } else {
            assert(cur == prev);
        }
        assert forall|x: TranslationView| #[trigger] cur.contains(x) implies exists|j: int|
            0 <= j < n && #[trigger] cell_filled(row, j) && x == cell_translation(
                key,
                context,
                locales,
                row,
                j,
            ) by {
            let k = choose|k: int| 0 <= k < cur.len() && cur[k] == x;
            if k < prev.len() {
                assert(prev[k] == x);
                assert(prev.contains(x));
                let j = choose|j: int|
                    0 <= j < m && #[trigger] cell_filled(row, j) && x == cell_translation(
                        key,
                        context,
                        locales,
                        row,
                        j,
                    );
                assert(cell_filled(row, j));
            } else {
                assert(x == y);
                assert(cell_filled(row, i));
            }
        }
        assert forall|x: TranslationView|
            (exists|j: int|
                0 <= j < n && #[trigger] cell_filled(row, j) && x == cell_translation(
                    key,
                    context,
                    locales,
                    row,
                    j,
                )) implies #[trigger] cur.contains(x) by {
            let j = choose|j: int|
                0 <= j < n && #[trigger] cell_filled(row, j) && x == cell_translation(
                    key,
                    context,
                    locales,
                    row,
                    j,
                );
            if j < i {
                assert(cell_filled(row, j));
                assert(prev.contains(x));
                let k = choose|k: int| 0 <= k < prev.len() && prev[k] == x;
                if cell_filled(row, i) {
                    assert(prev.push(y)[k] == x);
                }
            } else {
                assert(prev.push(y)[prev.len() as int] == x);
            }
        }
    }
}

proof fn lemma_body_contains(locales: Seq<Seq<char>>, rows: Seq<Seq<Seq<char>>>, x: TranslationView)
    ensures
        body_translations(locales, rows).contains(x) <==> exists|j: int|
            0 <= j < rows.len() && row_translations(locales, #[trigger] rows[j]).contains(x),
    decreases rows.len(),
{
    if rows.len() > 0 {
        let d = rows.drop_last();
        lemma_body_contains(locales, d, x);
        let p = body_translations(locales, d);
        let q = row_translations(locales, rows.last());
        if (p + q).contains(x) {
            let k = choose|k: int| 0 <= k < (p + q).len() && (p + q)[k] == x;
            if k < p.len() {
                assert(p[k] == x);
                let j = choose|j: int| 0 <= j < d.len() && row_translations(locales, #[trigger] d[j]).contains(x);
                assert(rows[j] == d[j]);
            } else {
                assert(q[k - p.len()] == x);
                assert(rows[rows.len() - 1] == rows.last());
            }
        }
        if exists|j: int| 0 <= j < rows.len() && row_translations(locales, #[trigger] rows[j]).contains(x) {
            let j = choose|j: int| 0 <= j < rows.len() && row_translations(locales, #[trigger] rows[j]).contains(x);
            if j < rows.len() - 1 {
                assert(d[j] == rows[j]);
                assert(p.contains(x));
                let k = choose|k: int| 0 <= k < p.len() && p[k] == x;
                assert((p + q)[k] == x);
            } else {
                assert(rows[j] == rows.last());
                let k = choose|k: int| 0 <= k < q.len() && q[k] == x;
                assert((p + q)[p.len() + k] == x);
            }
        }
    }
}

/// What the table gives key `k` as context once it is read back.
pub open spec fn read_context(ts: Seq<TranslationView>, k: Seq<char>) -> Option<Seq<char>> {
    context_of(trim_seq(cell(first_context(ts, k))))
}

/// Reading back the rows of a table gives back its translations: when no
/// key is blank, the rows that `table_rows` builds are read without error,
/// and the translations read are exactly, for each key and each listed
/// locale with a non-empty value, that key and locale (both trimmed) with
/// the key's last value in the locale and its context.
pub proof fn law_table_rows_read_back(ts: Seq<TranslationView>, base: Seq<char>, locales: Seq<Seq<char>>)
    requires
        forall|i: int| 0 <= i < ts.len() ==> !is_blank(#[trigger] ts[i].key),
    ensures
        rows_outcome(table_rows(ts, base, locales)) is Ok,
        forall|k: Seq<char>, i: int|
            #![trigger key_set(ts).contains(k), locales[i]]
            key_set(ts).contains(k) && 0 <= i < locales.len() && cell(last_value(ts, k, locales[i])).len()
                > 0 ==> rows_outcome(table_rows(ts, base, locales))->Ok_0.contains(
                TranslationView {
                    key: trim_seq(k),
                    value: cell(last_value(ts, k, locales[i])),
                    locale: trim_seq(locales[i]),
                    context: read_context(ts, k),
                },
            ),
        forall|x: TranslationView| #[trigger]
            rows_outcome(table_rows(ts, base, locales))->Ok_0.contains(x) ==> exists|k: Seq<char>, i: int|
                #![trigger key_set(ts).contains(k), locales[i]]
                key_set(ts).contains(k) && 0 <= i < locales.len() && cell(last_value(ts, k, locales[i])).len()
                    > 0 && x == (TranslationView {
                    key: trim_seq(k),
                    value: cell(last_value(ts, k, locales[i])),
                    locale: trim_seq(locales[i]),
                    context: read_context(ts, k),
                }),
{
    let keys = ts.map_values(|t: TranslationView| t.key);
    crate::text::lemma_sorted_set_exists(keys);
    let ks = sorted_set(key_set(ts));
    let rows = table_rows(ts, base, locales);
    let body = ks.map_values(|k: Seq<char>| key_row(ts, base, locales, k));
    assert(rows.drop_first() =~= body);
    assert(rows[0] == header_row(locales));
    let tl = header_locales(rows[0]);
    assert(tl =~= locales.map_values(|c: Seq<char>| trim_seq(c)));
    let p = body_translations(tl, body);
    assert(rows_outcome(rows) == Ok::<Seq<TranslationView>, CsvError>(p));
    // Each key of the table is a non-blank key of some translation.
    assert forall|k: Seq<char>| #[trigger] key_set(ts).contains(k) implies !is_blank(k) by {
        let j = choose|j: int| 0 <= j < keys.len() && keys[j] == k;
        assert(ts[j].key == k);
    }
    // The translations read from the row of key `k`.
    assert forall|k: Seq<char>, x: TranslationView|
        key_set(ts).contains(k) implies (#[trigger] row_translations(tl, key_row(ts, base, locales, k)).contains(x)
            <==> exists|i: int|
                #![trigger locales[i]]
                0 <= i < locales.len() && cell(last_value(ts, k, locales[i])).len() > 0 && x == (
                TranslationView {
                    key: trim_seq(k),
                    value: cell(last_value(ts, k, locales[i])),
                    locale: trim_seq(locales[i]),
                    context: read_context(ts, k),
                })) by {
        let row = key_row(ts, base, locales, k);
        assert(row[2] == k);
        assert(!is_blank_row(row));
        let ctx = context_of(trim_seq(row[1]));
        assert(ctx == read_context(ts, k));
        lemma_locale_cells(trim_seq(k), ctx, tl, row, tl.len());
        assert forall|i: int| 0 <= i < locales.len() implies row[3 + i] == cell(
            last_value(ts, k, #[trigger] locales[i]),
        ) && tl[i] == trim_seq(locales[i]) by {}
        if exists|i: int|
            #![trigger locales[i]]
            0 <= i < locales.len() && cell(last_value(ts, k, locales[i])).len() > 0 && x == (
            TranslationView {
                key: trim_seq(k),
                value: cell(last_value(ts, k, locales[i])),
                locale: trim_seq(locales[i]),
                context: read_context(ts, k),
            }) {
            let i = choose|i: int|
                #![trigger locales[i]]
                0 <= i < locales.len() && cell(last_value(ts, k, locales[i])).len() > 0 && x == (
                TranslationView {
                    key: trim_seq(k),
                    value: cell(last_value(ts, k, locales[i])),
                    locale: trim_seq(locales[i]),
                    context: read_context(ts, k),
                });
            assert(tl[i] == trim_seq(locales[i]));
            assert(cell_filled(row, i));
        }
        if row_translations(tl, row).contains(x) {
            let i = choose|i: int|
                0 <= i < tl.len() && #[trigger] cell_filled(row, i) && x == cell_translation(
                    trim_seq(k),
                    ctx,
                    tl,
                    row,
                    i,
                );
            assert(locales[i] == locales[i]);
        }
    }
    assert forall|k: Seq<char>, i: int|
        #![trigger key_set(ts).contains(k), locales[i]]
        key_set(ts).contains(k) && 0 <= i < locales.len() && cell(last_value(ts, k, locales[i])).len() > 0
            implies p.contains(
            TranslationView {
                key: trim_seq(k),
                value: cell(last_value(ts, k, locales[i])),
                locale: trim_seq(locales[i]),
                context: read_context(ts, k),
            },
        ) by {
        let x = TranslationView {
            key: trim_seq(k),
            value: cell(last_value(ts, k, locales[i])),
            locale: trim_seq(locales[i]),
            context: read_context(ts, k),
        };
        lemma_body_contains(tl, body, x);
        assert(ks.to_set().contains(k));
        let j = choose|j: int| 0 <= j < ks.len() && ks[j] == k;
        assert(body[j] == key_row(ts, base, locales, k));
        assert(row_translations(tl, key_row(ts, base, locales, k)).contains(x));
    }
    assert forall|x: TranslationView| #[trigger] p.contains(x) implies exists|k: Seq<char>, i: int|
        #![trigger key_set(ts).contains(k), locales[i]]
        key_set(ts).contains(k) && 0 <= i < locales.len() && cell(last_value(ts, k, locales[i])).len() > 0
            && x == (TranslationView {
            key: trim_seq(k),
            value: cell(last_value(ts, k, locales[i])),
            locale: trim_seq(locales[i]),
            context: read_context(ts, k),
        }) by {
        lemma_body_contains(tl, body, x);
        let j = choose|j: int| 0 <= j < body.len() && row_translations(tl, #[trigger] body[j]).contains(x);
        let k = ks[j];
        assert(ks.to_set().contains(k));
        assert(body[j] == key_row(ts, base, locales, k));
        assert(row_translations(tl, key_row(ts, base, locales, k)).contains(x));
        let i = choose|i: int|
            #![trigger locales[i]]
            0 <= i < locales.len() && cell(last_value(ts, k, locales[i])).len() > 0 && x == (
            TranslationView {
                key: trim_seq(k),
                value: cell(last_value(ts, k, locales[i])),
                locale: trim_seq(locales[i]),
                context: read_context(ts, k),
            });
        assert(key_set(ts).contains(k) && locales[i] == locales[i]);
    }
}

/// The text that [`generate_csv`] writes reads back to its translations:
/// for text whose CSV records are the table of `ts` (which `generate_csv`
/// ensures of what it returns), when no key is blank, the outcome that
/// [`parse_csv`] gives for the text is `Ok`, and the translations in it are
/// exactly, for each key and each listed locale with a non-empty value, that
/// key and locale (both trimmed) with the key's last value in the locale and
/// its context.
pub proof fn law_csv_text_read_back(
    ts: Seq<TranslationView>,
    base: Seq<char>,
    locales: Seq<Seq<char>>,
    text: Seq<char>,
)
    requires
        forall|i: int| 0 <= i < ts.len() ==> !is_blank(#[trigger] ts[i].key),
        csv_decoding(text) == Some(table_rows(ts, base, locales)),
    ensures
        csv_decoding(text) matches Some(rows) && rows_outcome(rows) is Ok,
        forall|k: Seq<char>, i: int|
            #![trigger key_set(ts).contains(k), locales[i]]
            key_set(ts).contains(k) && 0 <= i < locales.len() && cell(last_value(ts, k, locales[i])).len()
                > 0 ==> rows_outcome(csv_decoding(text)->0)->Ok_0.contains(
                TranslationView {
                    key: trim_seq(k),
                    value: cell(last_value(ts, k, locales[i])),
                    locale: trim_seq(locales[i]),
                    context: read_context(ts, k),
                },
            ),
        forall|x: TranslationView| #[trigger]
            rows_outcome(csv_decoding(text)->0)->Ok_0.contains(x) ==> exists|k: Seq<char>, i: int|
                #![trigger key_set(ts).contains(k), locales[i]]
                key_set(ts).contains(k) && 0 <= i < locales.len() && cell(last_value(ts, k, locales[i])).len()
                    > 0 && x == (TranslationView {
                    key: trim_seq(k),
                    value: cell(last_value(ts, k, locales[i])),
                    locale: trim_seq(locales[i]),
                    context: read_context(ts, k),
                }),
{
    law_table_rows_read_back(ts, base, locales);
}

/// Translations that a table carries over whole: keys non-blank and
/// trimmed, no two translations of one key into one locale, values
/// non-empty, each locale among `locales`, which are trimmed and distinct,
/// contexts trimmed and never empty, and one context per key.
pub open spec fn table_ready(ts: Seq<TranslationView>, locales: Seq<Seq<char>>) -> bool {
    &&& forall|i: int| 0 <= i < ts.len() ==> !is_blank(#[trigger] ts[i].key) && trim_seq(ts[i].key) == ts[i].key
    &&& forall|i: int, j: int|
        0 <= i < ts.len() && 0 <= j < ts.len() && i != j ==> !(#[trigger] ts[i].key == #[trigger] ts[j].key
            && ts[i].locale == ts[j].locale)
    &&& forall|i: int| 0 <= i < ts.len() ==> (#[trigger] ts[i]).value.len() > 0
    &&& forall|i: int| 0 <= i < ts.len() ==> locales.contains(#[trigger] ts[i].locale)
    &&& locales.no_duplicates()
    &&& forall|i: int| 0 <= i < locales.len() ==> trim_seq(#[trigger] locales[i]) == locales[i]
    &&& forall|i: int|
        0 <= i < ts.len() ==> ((#[trigger] ts[i]).context matches Some(c) ==> c.len() > 0 && trim_seq(c)
            == c)
    &&& forall|i: int, j: int|
        0 <= i < ts.len() && 0 <= j < ts.len() && #[trigger] ts[i].key == #[trigger] ts[j].key
            ==> ts[i].context == ts[j].context
}

proof fn lemma_last_value_some(ts: Seq<TranslationView>, k: Seq<char>, l: Seq<char>)
    ensures
        last_value(ts, k, l) matches Some(v) ==> exists|j: int|
            0 <= j < ts.len() && (#[trigger] ts[j]).key == k && ts[j].locale == l && ts[j].value == v,
        (exists|j: int| 0 <= j < ts.len() && (#[trigger] ts[j]).key == k && ts[j].locale == l)
            ==> last_value(ts, k, l) is Some,
    decreases ts.len(),
{
    if ts.len() > 0 {
        let d = ts.drop_last();
        lemma_last_value_some(d, k, l);
        if ts.last().key == k && ts.last().locale == l {
            assert(ts[ts.len() - 1] == ts.last());
        } else {
            if last_value(ts, k, l) is Some {
                let j = choose|j: int|
                    0 <= j < d.len() && (#[trigger] d[j]).key == k && d[j].locale == l && d[j].value
                        == last_value(d, k, l)->0;
                assert(ts[j] == d[j]);
            }
            if exists|j: int| 0 <= j < ts.len() && (#[trigger] ts[j]).key == k && ts[j].locale == l {
                let j = choose|j: int| 0 <= j < ts.len() && (#[trigger] ts[j]).key == k && ts[j].locale == l;
                assert(j != ts.len() - 1);
                assert(d[j] == ts[j]);
            }
        }
    }
}

proof fn lemma_first_context_of(ts: Seq<TranslationView>, k: Seq<char>, j: int)
    requires
        0 <= j < ts.len(),
        ts[j].key == k,
    ensures
        exists|i: int| 0 <= i < ts.len() && (#[trigger] ts[i]).key == k && first_context(ts, k) == ts[i].context,
    decreases ts.len(),
{
    if ts[0].key != k {
        lemma_first_context_of(ts.drop_first(), k, j - 1);
        let i = choose|i: int|
            0 <= i < ts.len() - 1 && (#[trigger] ts.drop_first()[i]).key == k && first_context(ts.drop_first(), k)
                == ts.drop_first()[i].context;
        assert(ts[i + 1] == ts.drop_first()[i]);
    } else {
        assert(ts[0].key == k);
    }
}

proof fn lemma_locale_cells_distinct(
    key: Seq<char>,
    context: Option<Seq<char>>,
    locales: Seq<Seq<char>>,
    row: Seq<Seq<char>>,
    n: nat,
)
    requires
        locales.no_duplicates(),
        n <= locales.len(),
    ensures
        locale_cells(key, context, locales, row, n).no_duplicates(),
    decreases n,
{
    if n > 0 {
        let m = (n - 1) as nat;
        lemma_locale_cells_distinct(key, context, locales, row, m);
        lemma_locale_cells(key, context, locales, row, m);
        let prev = locale_cells(key, context, locales, row, m);
        if cell_filled(row, m as int) {
            let y = cell_translation(key, context, locales, row, m as int);
            if prev.contains(y) {
                let j = choose|j: int|
                    0 <= j < m && #[trigger] cell_filled(row, j) && y == cell_translation(
                        key,
                        context,
                        locales,
                        row,
                        j,
                    );
                assert(locales[j] == locales[m as int]);
            }
            let cur = prev.push(y);
            assert forall|a: int, b: int| 0 <= a < cur.len() && 0 <= b < cur.len() && a != b implies cur[a]
                != cur[b] by {
                if a < prev.len() && b < prev.len() {
                    assert(cur[a] == prev[a] && cur[b] == prev[b]);
                } else if a < prev.len() {
                    assert(cur[a] == prev[a]);
                } else {
                    assert(cur[b] == prev[b]);
                }
            }
        }
    }
}

/// Every translation of a row carries the row's trimmed key.
proof fn lemma_row_key(locales: Seq<Seq<char>>, row: Seq<Seq<char>>, x: TranslationView)
    requires
        row_translations(locales, row).contains(x),
    ensures
        x.key == trim_seq(row[2]),
{
    lemma_locale_cells(
        trim_seq(row[2]),
        context_of(trim_seq(row[1])),
        locales,
        row,
        locales.len(),
    );
}

proof fn lemma_body_distinct(locales: Seq<Seq<char>>, rows: Seq<Seq<Seq<char>>>)
    requires
        locales.no_duplicates(),
        forall|j: int| 0 <= j < rows.len() ==> (#[trigger] rows[j]).len() >= 3,
        forall|a: int, b: int|
            0 <= a < rows.len() && 0 <= b < rows.len() && a != b ==> trim_seq((#[trigger] rows[a])[2])
                != trim_seq((#[trigger] rows[b])[2]),
    ensures
        body_translations(locales, rows).no_duplicates(),
    decreases rows.len(),
{
    if rows.len() > 0 {
        let d = rows.drop_last();
        assert forall|a: int, b: int|
            0 <= a < d.len() && 0 <= b < d.len() && a != b implies trim_seq((#[trigger] d[a])[2])
                != trim_seq((#[trigger] d[b])[2]) by {
            assert(d[a] == rows[a] && d[b] == rows[b]);
        }
        lemma_body_distinct(locales, d);
        let p = body_translations(locales, d);
        let last = rows.last();
        let q = row_translations(locales, last);
        if !(is_blank_row(last) || last.len() < 3) {
            lemma_locale_cells_distinct(
                trim_seq(last[2]),
                context_of(trim_seq(last[1])),
                locales,
                last,
                locales.len(),
            );
        }
        assert forall|a: int, b: int| 0 <= a < p.len() && 0 <= b < q.len() implies p[a] != q[b] by {
            lemma_body_contains(locales, d, p[a]);
            assert(p.contains(p[a]));
            let j = choose|j: int| 0 <= j < d.len() && row_translations(locales, #[trigger] d[j]).contains(p[a]);
            lemma_row_key(locales, d[j], p[a]);
            assert(q.contains(q[b]));
            lemma_row_key(locales, last, q[b]);
            assert(d[j] == rows[j]);
            assert(rows[rows.len() - 1] == last);
        }
        vstd::seq_lib::lemma_no_dup_in_concat(p, q);
    }
}

proof fn lemma_same_distinct_elements(a: Seq<TranslationView>, b: Seq<TranslationView>)
    requires
        a.no_duplicates(),
        b.no_duplicates(),
        forall|x: TranslationView| a.contains(x) <==> b.contains(x),
    ensures
        a.to_multiset() == b.to_multiset(),
{
    a.to_multiset_ensures();
    b.to_multiset_ensures();
    a.lemma_multiset_has_no_duplicates();
    b.lemma_multiset_has_no_duplicates();
    assert forall|x: TranslationView| a.to_multiset().count(x) == b.to_multiset().count(x) by {
        if a.contains(x) {
            assert(a.to_multiset().contains(x));
            assert(b.to_multiset().contains(x));
        }
    }
    assert(a.to_multiset() =~= b.to_multiset());
}

/// The rows of a table give back exactly the translations they were built
/// from, each once: for translations that the table carries over whole
/// (see [`table_ready`]), reading the rows gives a permutation of them.
pub proof fn law_table_rows_permutation(ts: Seq<TranslationView>, base: Seq<char>, locales: Seq<Seq<char>>)
    requires
        table_ready(ts, locales),
    ensures
        rows_outcome(table_rows(ts, base, locales)) matches Ok(ps) && ps.to_multiset() == ts.to_multiset(),
{
    law_table_rows_read_back(ts, base, locales);
    let ps = rows_outcome(table_rows(ts, base, locales))->Ok_0;
    let keys = ts.map_values(|t: TranslationView| t.key);
    crate::text::lemma_sorted_set_exists(keys);
    let ks = sorted_set(key_set(ts));
    let rows = table_rows(ts, base, locales);
    let body = ks.map_values(|k: Seq<char>| key_row(ts, base, locales, k));
    assert(rows.drop_first() =~= body);
    let tl = header_locales(rows[0]);
    assert(tl =~= locales) by {
        assert(rows[0] == header_row(locales));
    }
    // Every key of the table is the trimmed key of some translation.
    assert forall|k: Seq<char>| #[trigger] key_set(ts).contains(k) implies trim_seq(k) == k && exists|j: int|
        0 <= j < ts.len() && ts[j].key == k by {
        let j = choose|j: int| 0 <= j < keys.len() && keys[j] == k;
        assert(ts[j].key == k);
    }
    // The translations read are distinct.
    assert forall|a: int, b: int|
        0 <= a < body.len() && 0 <= b < body.len() && a != b implies trim_seq((#[trigger] body[a])[2])
            != trim_seq((#[trigger] body[b])[2]) by {
        assert(body[a][2] == ks[a] && body[b][2] == ks[b]);
        assert(ks.to_set().contains(ks[a]) && ks.to_set().contains(ks[b]));
        if a < b {
            assert(crate::text::seq_lt(ks[a], ks[b]));
        } else {
            assert(crate::text::seq_lt(ks[b], ks[a]));
        }
        if ks[a] == ks[b] {
            crate::text::lemma_seq_lt_irreflexive(ks[a]);
        }
    }
    lemma_body_distinct(tl, body);
    // The translations are distinct.
    assert forall|a: int, b: int| 0 <= a < ts.len() && 0 <= b < ts.len() && a != b implies ts[a] != ts[b] by {
        assert(!(ts[a].key == ts[b].key && ts[a].locale == ts[b].locale));
    }
    // What is read is a translation, and every translation is read.
    assert forall|x: TranslationView| ps.contains(x) <==> ts.contains(x) by {
        if ps.contains(x) {
            let (k, i) = choose|k: Seq<char>, i: int|
                #![trigger key_set(ts).contains(k), locales[i]]
                key_set(ts).contains(k) && 0 <= i < locales.len() && cell(last_value(ts, k, locales[i])).len()
                    > 0 && x == (TranslationView {
                    key: trim_seq(k),
                    value: cell(last_value(ts, k, locales[i])),
                    locale: trim_seq(locales[i]),
                    context: read_context(ts, k),
                });
            lemma_last_value_some(ts, k, locales[i]);
            let j = choose|j: int|
                0 <= j < ts.len() && (#[trigger] ts[j]).key == k && ts[j].locale == locales[i] && ts[j].value
                    == last_value(ts, k, locales[i])->0;
            lemma_first_context_of(ts, k, j);
            let c = choose|c: int| 0 <= c < ts.len() && (#[trigger] ts[c]).key == k && first_context(ts, k) == ts[c].context;
            assert(ts[c].context == ts[j].context);
            if ts[j].context is None {
                crate::text::lemma_trim_empty_iff_blank(Seq::<char>::empty());
            }
            assert(x == ts[j]);
        }
        if ts.contains(x) {
            let j = choose|j: int| 0 <= j < ts.len() && ts[j] == x;
            let k = x.key;
            assert(keys[j] == k);
            assert(key_set(ts).contains(k));
            let i = choose|i: int| 0 <= i < locales.len() && locales[i] == x.locale;
            lemma_last_value_some(ts, k, locales[i]);
            let j2 = choose|j2: int|
                0 <= j2 < ts.len() && (#[trigger] ts[j2]).key == k && ts[j2].locale == locales[i] && ts[j2].value
                    == last_value(ts, k, locales[i])->0;
            assert(j2 == j);
            lemma_first_context_of(ts, k, j);
            let c = choose|c: int| 0 <= c < ts.len() && (#[trigger] ts[c]).key == k && first_context(ts, k) == ts[c].context;
            assert(ts[c].context == ts[j].context);
            if ts[j].context is None {
                crate::text::lemma_trim_empty_iff_blank(Seq::<char>::empty());
            }
            assert(x == (TranslationView {
                key: trim_seq(k),
                value: cell(last_value(ts, k, locales[i])),
                locale: trim_seq(locales[i]),
                context: read_context(ts, k),
            }));
        }
    }
    lemma_same_distinct_elements(ps, ts);
}

/// Writing translations as CSV text and reading the text back gives each
/// of them back once: for translations that the table carries over whole
/// (see [`table_ready`]) and text whose CSV records are their table (which
/// [`generate_csv`] ensures of what it returns), the outcome that
/// [`parse_csv`] gives for the text is `Ok` with a permutation of them.
pub proof fn law_csv_text_round_trip(
    ts: Seq<TranslationView>,
    base: Seq<char>,
    locales: Seq<Seq<char>>,
    text: Seq<char>,
)
    requires
        table_ready(ts, locales),
        csv_decoding(text) == Some(table_rows(ts, base, locales)),
    ensures
        csv_decoding(text) matches Some(rows) && rows_outcome(rows) matches Ok(ps) && ps.to_multiset()
            == ts.to_multiset(),
{
    law_table_rows_permutation(ts, base, locales);
}

} // verus!
