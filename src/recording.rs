//! The computing side of the recording store: what a listing shows and in
//! which order, and the record that describes one stored file.
use vstd::prelude::*;
use vstd::string::StringSliceAdditionalSpecFns;
use vstd::utf8::encode_utf8;

verus! {

broadcast use vstd::seq_lib::group_to_multiset_ensures;

/// One entry of the store's directory, as the filesystem reports it.
/// `name` is `None` where the name is not valid UTF-8.
#[derive(Debug)]
pub struct StoreEntry {
    pub name: Option<String>,
    pub is_file: bool,
}

/// Derived description of one stored recording.
#[derive(Debug)]
pub struct RecordingInfo {
    pub filename: String,
    pub size_bytes: u64,
    /// Creation time as Unix seconds.
    pub created_timestamp: u64,
    /// `created_timestamp` rendered as a UTC date, or `Unknown`.
    pub created_date: String,
}

/// Byte-wise lexicographic order, the order of `str` in Rust.
pub open spec fn lex_less(a: Seq<u8>, b: Seq<u8>) -> bool
    decreases a.len(),
{
    if a.len() == 0 {
        b.len() > 0
    } else if b.len() == 0 {
        false
    } else if a[0] != b[0] {
        a[0] < b[0]
    } else {
        lex_less(a.drop_first(), b.drop_first())
    }
}

/// `a` sorts before `b` as file names: by their UTF-8 bytes.
pub open spec fn name_less(a: Seq<char>, b: Seq<char>) -> bool {
    lex_less(encode_utf8(a), encode_utf8(b))
}

/// No name is followed by a greater one.
pub open spec fn descending(s: Seq<Seq<char>>) -> bool {
    forall|i: int, j: int| 0 <= i < j < s.len() ==> !name_less(#[trigger] s[i], #[trigger] s[j])
}

/// Each name is greater than every name after it.
pub open spec fn strictly_descending(s: Seq<Seq<char>>) -> bool {
    forall|i: int, j: int| 0 <= i < j < s.len() ==> name_less(#[trigger] s[j], #[trigger] s[i])
}

pub open spec fn views(v: Seq<String>) -> Seq<Seq<char>> {
    v.map_values(|s: String| s@)
}

/// The names that a listing shows: those of regular files with a UTF-8 name,
/// in directory order.
pub open spec fn listed_names(entries: Seq<StoreEntry>) -> Seq<Seq<char>>
    decreases entries.len(),
{
    if entries.len() == 0 {
        Seq::empty()
    } else {
        let rest = listed_names(entries.drop_last());
        let e = entries.last();
        if e.is_file && e.name is Some {
            rest.push(e.name->0@)
        } else {
            rest
        }
    }
}

proof fn lemma_lex_asymmetric(a: Seq<u8>, b: Seq<u8>)
    ensures
        lex_less(a, b) ==> !lex_less(b, a),
    decreases a.len(),
{
    if a.len() > 0 && b.len() > 0 && a[0] == b[0] {
        lemma_lex_asymmetric(a.drop_first(), b.drop_first());
    }
}

proof fn lemma_lex_transitive(a: Seq<u8>, b: Seq<u8>, c: Seq<u8>)
    requires
        lex_less(a, b),
        lex_less(b, c),
    ensures
        lex_less(a, c),
    decreases a.len(),
{
    if a.len() > 0 && b.len() > 0 && c.len() > 0 && a[0] == b[0] && b[0] == c[0] {
        lemma_lex_transitive(a.drop_first(), b.drop_first(), c.drop_first());
    }
}

proof fn lemma_lex_total(a: Seq<u8>, b: Seq<u8>)
    ensures
        lex_less(a, b) || lex_less(b, a) || a == b,
    decreases a.len(),
{
    if a.len() > 0 && b.len() > 0 && a[0] == b[0] {
        lemma_lex_total(a.drop_first(), b.drop_first());
        if a.drop_first() == b.drop_first() {
            assert(a =~= seq![a[0]] + a.drop_first());
            assert(b =~= seq![b[0]] + b.drop_first());
        }
    } else if a.len() == 0 && b.len() == 0 {
        assert(a =~= b);
    }
}

/// Names that differ are ordered one way or the other.
proof fn lemma_names_total(a: Seq<char>, b: Seq<char>)
    ensures
        name_less(a, b) || name_less(b, a) || a == b,
{
    lemma_lex_total(encode_utf8(a), encode_utf8(b));
    vstd::utf8::encode_utf8_decode_utf8(a);
    vstd::utf8::encode_utf8_decode_utf8(b);
}

/// A descending arrangement of distinct names is strictly descending.
proof fn lemma_distinct_descending_is_strict(names: Seq<Seq<char>>, s: Seq<Seq<char>>)
    requires
        names.no_duplicates(),
        s.to_multiset() == names.to_multiset(),
        descending(s),
    ensures
        strictly_descending(s),
{
    names.lemma_multiset_has_no_duplicates();
    s.lemma_multiset_has_no_duplicates_conv();
    assert forall|i: int, j: int| 0 <= i < j < s.len() implies name_less(
        #[trigger] s[j],
        #[trigger] s[i],
    ) by {
        lemma_names_total(s[i], s[j]);
    }
}

/// Compares two names by their UTF-8 bytes.
fn name_precedes(a: &str, b: &str) -> (r: bool)
    ensures
        r == name_less(a@, b@),
{
    let x = a.as_bytes();
    let y = b.as_bytes();
    let mut i: usize = 0;
    assert(x@.skip(0) =~= x@);
    assert(y@.skip(0) =~= y@);
    while i < x.len() && i < y.len()
        invariant
            x@ == encode_utf8(a@),
            y@ == encode_utf8(b@),
            i <= x@.len(),
            i <= y@.len(),
            lex_less(x@, y@) == lex_less(x@.skip(i as int), y@.skip(i as int)),
        decreases x@.len() - i,
    {
        if x[i] != y[i] {
            return x[i] < y[i];
        }
        assert(x@.skip(i as int).drop_first() =~= x@.skip(i + 1));
        assert(y@.skip(i as int).drop_first() =~= y@.skip(i + 1));
        i += 1;
    }
    i == x.len() && i < y.len()
}

proof fn lemma_insert_keeps_descending(s: Seq<Seq<char>>, p: int, x: Seq<char>)
    requires
        0 <= p <= s.len(),
        descending(s),
        forall|k: int| 0 <= k < p ==> !name_less(#[trigger] s[k], x),
        p < s.len() ==> name_less(s[p], x),
    ensures
        descending(s.insert(p, x)),
{
    let t = s.insert(p, x);
    assert forall|i: int, j: int| 0 <= i < j < t.len() implies !name_less(
        #[trigger] t[i],
        #[trigger] t[j],
    ) by {
        if i == p {
            let y = s[j - 1];
            if j - 1 > p {
                lemma_names_total(s[p], y);
                if name_less(y, s[p]) {
                    lemma_lex_transitive(encode_utf8(y), encode_utf8(s[p]), encode_utf8(x));
                }
            }
            lemma_lex_asymmetric(encode_utf8(y), encode_utf8(x));
        }
    }
}

/// The names of a store listing, greatest first: regular files only, those
/// whose names are not UTF-8 left out, ordered by descending name. With
/// names that embed a sortable time this puts the newest first.
pub fn list_recordings(entries: &Vec<StoreEntry>) -> (r: Vec<String>)
    ensures
        views(r@).to_multiset() == listed_names(entries@).to_multiset(),
        descending(views(r@)),
        listed_names(entries@).no_duplicates() ==> strictly_descending(views(r@)),
{
    let mut out: Vec<String> = Vec::new();
    let mut i: usize = 0;
    while i < entries.len()
        invariant
            i <= entries@.len(),
            views(out@).to_multiset() == listed_names(entries@.take(i as int)).to_multiset(),
            descending(views(out@)),
        decreases entries@.len() - i,
    {
        assert(entries@.take(i + 1).drop_last() =~= entries@.take(i as int));
        let e = &entries[i];
        if e.is_file {
            match &e.name {
                Some(name) => {
                    let mut p: usize = 0;
                    while p < out.len() && !name_precedes(out[p].as_str(), name.as_str())
                        invariant
                            p <= out@.len(),
                            forall|k: int| 0 <= k < p ==> !name_less(#[trigger] out@[k]@, name@),
                        decreases out@.len() - p,
                    {
                        p += 1;
                    }
                    let ghost before = out@;
                    proof {
                        lemma_insert_keeps_descending(views(before), p as int, name@);
                    }
                    out.insert(p, name.clone());
                    assert(views(out@) =~= views(before).insert(p as int, name@));
                },
                None => {},
            }
        }
        i += 1;
    }
    assert(entries@.take(entries@.len() as int) =~= entries@);
    proof {
        if listed_names(entries@).no_duplicates() {
            lemma_distinct_descending_is_strict(listed_names(entries@), views(out@));
        }
    }
    out
}

/// Largest Unix time, in seconds, that chrono places on a calendar: the last
/// second of December 31 of the year 262142.
pub const MAX_DATE_SECS: u64 = 8_210_266_876_799;

/// What chrono writes for a Unix time with `%Y-%m-%d %H:%M:%S UTC`.
pub uninterp spec fn utc_date_text(secs: int) -> Seq<char>;

/// Relies on chrono's `DateTime::<Utc>::from_timestamp(secs, 0)`, which
/// gives a date exactly when the day number fits `NaiveDate`'s range, and on
/// `DateTime::format` with `%Y-%m-%d %H:%M:%S UTC` to render it.
#[verifier::external_body]
fn render_utc(secs: i64) -> (r: Option<String>)
    requires
        0 <= secs,
    ensures
        r is Some <==> secs <= MAX_DATE_SECS,
        r matches Some(t) ==> t@ == utc_date_text(secs as int),
{
    match chrono::DateTime::from_timestamp(secs, 0) {
        Some(dt) => Some(dt.format("%Y-%m-%d %H:%M:%S UTC").to_string()),
        None => None,
    }
}

/// The date shown for a creation time: its UTC rendering, or `Unknown`
/// where no calendar date can hold it.
pub open spec fn date_text(secs: int) -> Seq<char> {
    if secs <= MAX_DATE_SECS {
        utc_date_text(secs)
    } else {
        "Unknown"@
    }
}

/// Builds the description of a stored file from its name, its size and its
/// creation time in Unix seconds.
pub fn get_recording_metadata(filename: &str, size_bytes: u64, created_timestamp: u64) -> (r:
    RecordingInfo)
    ensures
        r.filename@ == filename@,
        r.size_bytes == size_bytes,
        r.created_timestamp == created_timestamp,
        r.created_date@ == date_text(created_timestamp as int),
{
    let rendered = if created_timestamp <= MAX_DATE_SECS {
        render_utc(created_timestamp as i64)
    } else {
        None
    };
    let created_date = match rendered {
        Some(t) => t,
        None => "Unknown".to_owned(),
    };
    RecordingInfo {
        filename: filename.to_owned(),
        size_bytes,
        created_timestamp,
        created_date,
    }
}

} // verus!
