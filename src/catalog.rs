//! Parsing of catalog text into dictionary entries.
//!
//! A catalog is comma-separated text without a header row; each record holds a
//! key, a category code, a popularity count and an optional list of aliases.
//! Records that do not fit are skipped.
use vstd::prelude::*;
use vstd::string::StrSliceExecFns;
use crate::text::{chars_of, string_of, trim_chars, trimmed};

verus! {

/// What the csv reader yields for a text: each record's fields, or `None`
/// where it reported an error for that record.
pub uninterp spec fn csv_records_of(text: Seq<char>) -> Seq<Option<Seq<Seq<char>>>>;

/// Relies on the `csv` crate's `Reader` (built with `has_headers(false)`, other
/// settings default) and its `records` iterator: one item per record, in order,
/// holding the record's fields, or `None` where the reader reported an error.
#[verifier::external_body]
fn read_csv_records(text: &str) -> (r: Vec<Option<Vec<String>>>)
    ensures
        r.deep_view() == csv_records_of(text@),
{
    let mut reader = csv::ReaderBuilder::new().has_headers(false).from_reader(text.as_bytes());
    reader
        .records()
        .map(|rec| rec.ok().map(|rec| rec.iter().map(|f| f.to_string()).collect()))
        .collect()
}

/// One record of a catalog, as its fields read.
pub struct BaseCsvEntry {
    pub key: String,
    pub category: i32,
    pub count: i32,
    pub aliases: Option<String>,
}

pub struct BaseCsvModel {
    pub key: Seq<char>,
    pub category: i32,
    pub count: i32,
    pub aliases: Option<Seq<char>>,
}

impl View for BaseCsvEntry {
    type V = BaseCsvModel;

    open spec fn view(&self) -> BaseCsvModel {
        BaseCsvModel {
            key: self.key@,
            category: self.category,
            count: self.count,
            aliases: match self.aliases {
                Some(a) => Some(a@),
                None => None,
            },
        }
    }
}

/// One entry of the dictionary: a canonical key, its category, its popularity
/// count and its aliases in catalog order.
pub struct DictionaryEntry {
    pub key: String,
    pub category: i32,
    pub count: i32,
    pub aliases: Vec<String>,
}

pub struct EntryModel {
    pub key: Seq<char>,
    pub category: i32,
    pub count: i32,
    pub aliases: Seq<Seq<char>>,
}

impl View for DictionaryEntry {
    type V = EntryModel;

    open spec fn view(&self) -> EntryModel {
        EntryModel {
            key: self.key@,
            category: self.category,
            count: self.count,
            aliases: self.aliases.deep_view(),
        }
    }
}

pub open spec fn entries_view(v: Seq<DictionaryEntry>) -> Seq<EntryModel> {
    v.map_values(|e: DictionaryEntry| e@)
}

// ---------------------------------------------------------------- integers

/// The value of a digit in the given radix, or -1 where `c` is no such digit.
pub open spec fn digit_value(c: char, radix: int) -> int {
    let u = c as u32;
    let v: int = if 0x30 <= u && u <= 0x39 {
        u - 0x30
    } else if 0x61 <= u && u <= 0x7a {
        u - 0x61 + 10
    } else if 0x41 <= u && u <= 0x5a {
        u - 0x41 + 10
    } else {
        -1
    };
    if v < radix {
        v
    } else {
        -1
    }
}

pub open spec fn all_digits(s: Seq<char>, radix: int) -> bool {
    forall|i: int| 0 <= i < s.len() ==> digit_value(#[trigger] s[i], radix) >= 0
}

/// The number that a sequence of digits spells, most significant first.
pub open spec fn digits_value(s: Seq<char>, radix: int) -> int
    decreases s.len(),
{
    if s.len() == 0 {
        0
    } else {
        digits_value(s.drop_last(), radix) * radix + digit_value(s.last(), radix)
    }
}

/// An optionally signed number in the given radix, as std's integer parsing reads it.
pub open spec fn signed_value(s: Seq<char>, radix: int) -> Option<int> {
    let neg = s.len() > 0 && s[0] == '-';
    let body = if s.len() > 0 && (s[0] == '-' || s[0] == '+') {
        s.drop_first()
    } else {
        s
    };
    if body.len() > 0 && all_digits(body, radix) {
        Some(if neg { -digits_value(body, radix) } else { digits_value(body, radix) })
    } else {
        None
    }
}

/// How a catalog field reads as an `i32`: hexadecimal after a `0x` prefix,
/// decimal otherwise, and `None` where it is no number or out of range.
pub open spec fn field_i32(s: Seq<char>) -> Option<i32> {
    let v = if s.len() >= 2 && s[0] == '0' && s[1] == 'x' {
        signed_value(s.skip(2), 16)
    } else {
        signed_value(s, 10)
    };
    match v {
        Some(x) => if i32::MIN <= x <= i32::MAX {
            Some(x as i32)
        } else {
            None
        },
        None => None,
    }
}

fn digit_value_exec(c: char, radix: u32) -> (r: i64)
    requires
        radix == 10 || radix == 16,
    ensures
        r == digit_value(c, radix as int),
{
    let u = c as u32;
    let v: i64 = if 0x30 <= u && u <= 0x39 {
        (u - 0x30) as i64
    } else if 0x61 <= u && u <= 0x7a {
        (u - 0x61 + 10) as i64
    } else if 0x41 <= u && u <= 0x5a {
        (u - 0x41 + 10) as i64
    } else {
        -1
    };
    if v < radix as i64 {
        v
    } else {
        -1
    }
}

proof fn lemma_digits_grow(s: Seq<char>, radix: int, i: int)
    requires
        radix >= 2,
        0 <= i <= s.len(),
        all_digits(s, radix),
    ensures
        0 <= digits_value(s.take(i), radix) <= digits_value(s, radix),
    decreases s.len() - i,
{
    lemma_digits_nonneg(s, radix);
    if i < s.len() {
        lemma_digits_grow(s, radix, i + 1);
        assert(s.take(i + 1).drop_last() =~= s.take(i));
        lemma_digits_nonneg(s.take(i), radix);
        assert(digits_value(s.take(i), radix) * radix >= digits_value(s.take(i), radix))
            by (nonlinear_arith)
            requires
                digits_value(s.take(i), radix) >= 0,
                radix >= 2,
        ;
    } else {
        assert(s.take(i) =~= s);
    }
}

proof fn lemma_digits_nonneg(s: Seq<char>, radix: int)
    requires
        radix >= 2,
        all_digits(s, radix),
    ensures
        digits_value(s, radix) >= 0,
    decreases s.len(),
{
    if s.len() > 0 {
        lemma_digits_nonneg(s.drop_last(), radix);
        assert(digit_value(s[s.len() - 1], radix) >= 0);
        assert(digits_value(s.drop_last(), radix) * radix >= 0) by (nonlinear_arith)
            requires
                digits_value(s.drop_last(), radix) >= 0,
                radix >= 2,
        ;
    }
}

/// Reads `s[start..]` as an optionally signed number in `radix`.
fn parse_signed(s: &[char], start: usize, radix: u32) -> (r: Option<i32>)
    requires
        start <= s@.len(),
        radix == 10 || radix == 16,
    ensures
        r == (match signed_value(s@.skip(start as int), radix as int) {
            Some(x) => if i32::MIN <= x <= i32::MAX {
                Some(x as i32)
            } else {
                None
            },
            None => None,
        }),
{
    let ghost t = s@.skip(start as int);
    let n = s.len();
    let mut i: usize = start;
    let mut neg = false;
    if i < n && (s[i] == '-' || s[i] == '+') {
        neg = s[i] == '-';
        i = i + 1;
    }
    let ghost body = s@.skip(i as int);
    assert(body =~= (if t.len() > 0 && (t[0] == '-' || t[0] == '+') {
        t.drop_first()
    } else {
        t
    }));
    if i == n {
        return None;
    }
    let b = i;
    let mut acc: i64 = 0;
    while i < n
        invariant
            b <= i <= n,
            n == s@.len(),
            body == s@.skip(b as int),
            radix == 10 || radix == 16,
            all_digits(body.take(i - b), radix as int),
            acc == digits_value(body.take(i - b), radix as int),
            0 <= acc <= 0x8000_0000,
            t == s@.skip(start as int),
            body == (if t.len() > 0 && (t[0] == '-' || t[0] == '+') {
                t.drop_first()
            } else {
                t
            }),
            neg == (t.len() > 0 && t[0] == '-'),
            body.len() > 0,
        decreases n - i,
    {
        let d = digit_value_exec(s[i], radix);
        assert(body[i - b] == s@[i as int]);
        if d < 0 {
            assert(digit_value(body[i - b], radix as int) < 0);
            assert(!all_digits(body, radix as int));
            assert(signed_value(t, radix as int) is None);
            return None;
        }
        proof {
            assert(body.take(i - b + 1).drop_last() =~= body.take(i - b));
            assert(body.take(i - b + 1).last() == s@[i as int]);
        }
        assert(acc * (radix as i64) <= 0x8000_0000 * 16) by (nonlinear_arith)
            requires
                0 <= acc <= 0x8000_0000,
                radix <= 16,
        ;
        acc = acc * (radix as i64) + d;
        i = i + 1;
        assert(all_digits(body.take(i - b), radix as int)) by {
            assert forall|k: int| 0 <= k < i - b implies digit_value(
                #[trigger] body.take(i - b)[k],
                radix as int,
            ) >= 0 by {
                if k < i - b - 1 {
                    assert(body.take(i - b)[k] == body.take(i - b - 1)[k]);
                }
            }
        }
        if acc > 0x8000_0000 {
            proof {
                if all_digits(body, radix as int) {
                    lemma_digits_grow(body, radix as int, i - b);
                    assert(digits_value(body, radix as int) > 0x8000_0000);
                }
            }
            return None;
        }
    }
    assert(body.take(i - b) =~= body);
    if neg {
        Some((-acc) as i32)
    } else if acc <= 0x7fff_ffff {
        Some(acc as i32)
    } else {
        None
    }
}

/// Reads a catalog field as an `i32`, as the record deserializer does.
pub fn parse_field_i32(field: &str) -> (r: Option<i32>)
    ensures
        r == field_i32(field@),
{
    let cs = chars_of(field);
    if cs.len() >= 2 && cs[0] == '0' && cs[1] == 'x' {
        parse_signed(cs.as_slice(), 2, 16)
    } else {
        assert(cs@.skip(0) =~= cs@);
        parse_signed(cs.as_slice(), 0, 10)
    }
}


// ---------------------------------------------------------------- records

/// How the record deserializer reads a record's fields: the key, the category
/// and the count as integers, and the aliases field, absent when empty. A record
/// with fewer than four fields, or with a field that is no `i32`, is refused.
pub open spec fn record_model(f: Seq<Seq<char>>) -> Option<BaseCsvModel> {
    if f.len() >= 4 && field_i32(f[1]) is Some && field_i32(f[2]) is Some {
        Some(
            BaseCsvModel {
                key: f[0],
                category: field_i32(f[1])->Some_0,
                count: field_i32(f[2])->Some_0,
                aliases: if f[3].len() == 0 {
                    None
                } else {
                    Some(f[3])
                },
            },
        )
    } else {
        None
    }
}

fn clone_string(s: &String) -> (r: String)
    ensures
        r@ == s@,
{
    s.clone()
}

impl BaseCsvEntry {
    /// Reads a record's fields as the catalog's columns.
    pub fn from_fields(fields: &Vec<String>) -> (r: Option<BaseCsvEntry>)
        ensures
            r matches Some(b) ==> record_model(fields.deep_view()) == Some(b@),
            r is None ==> record_model(fields.deep_view()) is None,
    {
        let ghost f = fields.deep_view();
        if fields.len() < 4 {
            return None;
        }
        assert(f[1] == fields@[1]@ && f[2] == fields@[2]@ && f[0] == fields@[0]@ && f[3]
            == fields@[3]@);
        let category = match parse_field_i32(fields[1].as_str()) {
            Some(c) => c,
            None => return None,
        };
        let count = match parse_field_i32(fields[2].as_str()) {
            Some(c) => c,
            None => return None,
        };
        let aliases = if fields[3].as_str().unicode_len() == 0 {
            None
        } else {
            Some(clone_string(&fields[3]))
        };
        Some(BaseCsvEntry { key: clone_string(&fields[0]), category, count, aliases })
    }
}

// ---------------------------------------------------------------- aliases

/// The pieces of `s` between commas, as `str::split(',')` yields them.
pub open spec fn comma_pieces(s: Seq<char>) -> Seq<Seq<char>>
    decreases s.len(),
{
    if s.len() == 0 {
        seq![Seq::empty()]
    } else {
        let p = comma_pieces(s.drop_last());
        if s.last() == ',' {
            p.push(Seq::empty())
        } else {
            p.update(p.len() - 1, p.last().push(s.last()))
        }
    }
}

proof fn lemma_comma_pieces_nonempty(s: Seq<char>)
    ensures
        comma_pieces(s).len() >= 1,
    decreases s.len(),
{
    if s.len() > 0 {
        lemma_comma_pieces_nonempty(s.drop_last());
    }
}

/// The trimmed pieces that are not empty, in order.
pub open spec fn kept_aliases(ps: Seq<Seq<char>>) -> Seq<Seq<char>>
    decreases ps.len(),
{
    if ps.len() == 0 {
        Seq::empty()
    } else {
        let rest = kept_aliases(ps.drop_last());
        let t = trimmed(ps.last());
        if t.len() > 0 {
            rest.push(t)
        } else {
            rest
        }
    }
}

/// The aliases that an aliases field lists.
pub open spec fn alias_list(field: Option<Seq<char>>) -> Seq<Seq<char>> {
    match field {
        Some(s) => kept_aliases(comma_pieces(s)),
        None => Seq::empty(),
    }
}

/// Splits an aliases field on commas, trims each alias and drops the empty ones.
pub fn split_aliases(field: &str) -> (r: Vec<String>)
    ensures
        r.deep_view() == kept_aliases(comma_pieces(field@)),
{
    let cs = chars_of(field);
    let n = cs.len();
    let mut done: Vec<String> = Vec::new();
    let mut cur: Vec<char> = Vec::new();
    let mut i: usize = 0;
    while i < n
        invariant
            i <= n,
            n == cs@.len(),
            cs@ == field@,
            comma_pieces(cs@.take(i as int)).len() >= 1,
            done.deep_view() == kept_aliases(comma_pieces(cs@.take(i as int)).drop_last()),
            cur@ == comma_pieces(cs@.take(i as int)).last(),
        decreases n - i,
    {
        let ghost before = comma_pieces(cs@.take(i as int));
        let c = cs[i];
        proof {
            assert(cs@.take(i + 1).drop_last() =~= cs@.take(i as int));
            lemma_comma_pieces_nonempty(cs@.take(i as int));
        }
        if c == ',' {
            let t = trim_chars(cur.as_slice());
            if t.len() > 0 {
                done.push(string_of(t.as_slice()));
            }
            cur = Vec::new();
            proof {
                let after = comma_pieces(cs@.take(i + 1));
                assert(after == before.push(Seq::empty()));
                assert(after.drop_last() =~= before);
                assert(before.drop_last() =~= before.drop_last());
                assert(done.deep_view() =~= kept_aliases(before));
            }
        } else {
            cur.push(c);
            proof {
                let after = comma_pieces(cs@.take(i + 1));
                assert(after == before.update(before.len() - 1, before.last().push(c)));
                assert(after.drop_last() =~= before.drop_last());
            }
        }
        i = i + 1;
    }
    proof {
        assert(cs@.take(n as int) =~= cs@);
        lemma_comma_pieces_nonempty(cs@);
    }
    let ghost ps = comma_pieces(cs@);
    let t = trim_chars(cur.as_slice());
    if t.len() > 0 {
        done.push(string_of(t.as_slice()));
    }
    assert(ps.drop_last().push(ps.last()) =~= ps);
    assert(done.deep_view() =~= kept_aliases(ps));
    done
}

// ---------------------------------------------------------------- entries

/// The dictionary entry that a record gives: the key trimmed, the aliases split;
/// `None` where the trimmed key is empty.
pub open spec fn entry_model(b: BaseCsvModel) -> Option<EntryModel> {
    let key = trimmed(b.key);
    if key.len() == 0 {
        None
    } else {
        Some(
            EntryModel {
                key,
                category: b.category,
                count: b.count,
                aliases: alias_list(b.aliases),
            },
        )
    }
}

impl DictionaryEntry {
    /// The dictionary entry of a record, or `None` where its trimmed key is empty.
    pub fn from_base(b: &BaseCsvEntry) -> (r: Option<DictionaryEntry>)
        ensures
            r matches Some(e) ==> entry_model(b@) == Some(e@),
            r is None ==> entry_model(b@) is None,
    {
        let kc = chars_of(b.key.as_str());
        let key = trim_chars(kc.as_slice());
        if key.len() == 0 {
            return None;
        }
        let aliases = match &b.aliases {
            Some(a) => split_aliases(a.as_str()),
            None => Vec::new(),
        };
        proof {
            if b.aliases is None {
                assert(aliases.deep_view() =~= Seq::<Seq<char>>::empty());
            }
        }
        Some(
            DictionaryEntry {
                key: string_of(key.as_slice()),
                category: b.category,
                count: b.count,
                aliases,
            },
        )
    }
}

/// The entries that a sequence of records gives, in order.
pub open spec fn records_entries(rows: Seq<Option<Seq<Seq<char>>>>) -> Seq<EntryModel>
    decreases rows.len(),
{
    if rows.len() == 0 {
        Seq::empty()
    } else {
        let rest = records_entries(rows.drop_last());
        match rows.last() {
            Some(f) => match record_model(f) {
                Some(b) => match entry_model(b) {
                    Some(e) => rest.push(e),
                    None => rest,
                },
                None => rest,
            },
            None => rest,
        }
    }
}

/// The entries of one catalog text; a blank text gives none.
pub open spec fn blob_entries(blob: Seq<char>) -> Seq<EntryModel> {
    if trimmed(blob).len() == 0 {
        Seq::empty()
    } else {
        records_entries(csv_records_of(blob))
    }
}

/// The entries of a sequence of catalog texts, in arrival order.
pub open spec fn catalog_entries(blobs: Seq<Seq<char>>) -> Seq<EntryModel>
    decreases blobs.len(),
{
    if blobs.len() == 0 {
        Seq::empty()
    } else {
        catalog_entries(blobs.drop_last()) + blob_entries(blobs.last())
    }
}

/// Appends the entries of one catalog text.
fn parse_blob(blob: &String, out: &mut Vec<DictionaryEntry>)
    ensures
        entries_view(final(out)@) == entries_view(old(out)@) + blob_entries(blob@),
{
    let bc = chars_of(blob.as_str());
    let t = trim_chars(bc.as_slice());
    if t.len() == 0 {
        assert(entries_view(out@) =~= entries_view(out@) + blob_entries(blob@));
        return;
    }
    let rows = read_csv_records(blob.as_str());
    let ghost start = entries_view(out@);
    let ghost rv = rows.deep_view();
    let mut i: usize = 0;
    while i < rows.len()
        invariant
            i <= rows@.len(),
            rv == rows.deep_view(),
            rv == csv_records_of(blob@),
            entries_view(out@) == start + records_entries(rv.take(i as int)),
        decreases rows.len() - i,
    {
        proof {
            assert(rv.take(i + 1).drop_last() =~= rv.take(i as int));
            assert(rv.take(i + 1).last() == rv[i as int]);
        }
        let ghost prev = out@;
        match &rows[i] {
            Some(fields) => {
                assert(rv[i as int] == Some(fields.deep_view()));
                match BaseCsvEntry::from_fields(fields) {
                    Some(b) => match DictionaryEntry::from_base(&b) {
                        Some(e) => {
                            out.push(e);
                            assert(entries_view(out@) =~= entries_view(prev).push(e@));
                        },
                        None => {},
                    },
                    None => {},
                }
            },
            None => {},
        }
        i = i + 1;
    }
    assert(rv.take(i as int) =~= rv);
}

/// The dictionary entries of a sequence of catalog texts, in arrival order.
/// Blank texts, records that do not read, and records whose trimmed key is
/// empty give no entry.
pub fn parse_catalogs(blobs: &Vec<String>) -> (r: Vec<DictionaryEntry>)
    ensures
        entries_view(r@) == catalog_entries(blobs.deep_view()),
{
    let ghost bv = blobs.deep_view();
    let mut out: Vec<DictionaryEntry> = Vec::new();
    let mut i: usize = 0;
    assert(entries_view(out@) =~= catalog_entries(bv.take(0)));
    while i < blobs.len()
        invariant
            i <= blobs@.len(),
            bv == blobs.deep_view(),
            entries_view(out@) == catalog_entries(bv.take(i as int)),
        decreases blobs.len() - i,
    {
        parse_blob(&blobs[i], &mut out);
        proof {
            assert(bv.take(i + 1).drop_last() =~= bv.take(i as int));
            assert(bv[i as int] == blobs@[i as int]@);
        }
        i = i + 1;
    }
    assert(bv.take(i as int) =~= bv);
    out
}

} // verus!
