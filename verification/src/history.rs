//! Version history beside a document, and the document file's own encoding:
//! where snapshots live, how often one is taken and how many are kept, how a
//! snapshot is labelled, and how document text is written to and read back
//! from disk.

use vstd::prelude::*;
use vstd::utf8::{decode_utf8, encode_utf8, valid_utf8};
use crate::civil::civil_date;
use crate::names::{path_file_name, spec_path_file_name};
use crate::order::{sort_chars, sorted_names};
use crate::text::{
    chars_of, chars_of_all, concat_chars, decimal, ends_with, ends_with_exec, parse_unsigned,
    parse_unsigned_in, string_of, strings_of_all, sub_chars, zero_pad,
};

verus! {

/// The name of a document's snapshot directory: `Notes.ron` → `.Notes.ron.history`.
pub open spec fn spec_history_dir_name(file_name: Seq<char>) -> Seq<char> {
    "."@ + file_name + ".history"@
}

/// The hidden directory name that holds the snapshots of a document named
/// `file_name`.
pub fn history_dir_name(file_name: &str) -> (r: String)
    ensures
        r@ == spec_history_dir_name(file_name@),
{
    let a = concat_chars(&chars_of("."), &chars_of(file_name));
    string_of(&concat_chars(&a, &chars_of(".history")))
}

/// The path `path` with its last component replaced by `name`, as
/// `Path::with_file_name` gives it.
pub uninterp spec fn spec_path_with_file_name(path: Seq<char>, name: Seq<char>) -> Seq<char>;

/// Calls `Path::with_file_name(name)` on `path` and converts the result to a
/// `String` (lossless for UTF-8 inputs). The result is named by
/// `spec_path_with_file_name`; nothing more is claimed of it.
#[verifier::external_body]
fn path_with_file_name(path: &str, name: &str) -> (r: String)
    ensures
        r@ == spec_path_with_file_name(path@, name@),
{
    std::path::Path::new(path).with_file_name(name).to_string_lossy().into_owned()
}

/// Where the snapshots of the document at `doc_path` are kept.
pub open spec fn spec_history_dir(doc_path: Seq<char>) -> Option<Seq<char>> {
    match spec_path_file_name(doc_path) {
        Some(n) => Some(spec_path_with_file_name(doc_path, spec_history_dir_name(n))),
        None => None,
    }
}

/// The hidden sibling directory that holds a document's version snapshots,
/// e.g. `Notes.ron` → `.Notes.ron.history/`. `None` for a path without a
/// file name.
pub fn history_dir(doc_path: &str) -> (r: Option<String>)
    ensures
        match r {
            Some(d) => spec_history_dir(doc_path@) == Some(d@),
            None => spec_history_dir(doc_path@) is None,
        },
{
    match path_file_name(doc_path) {
        Some(n) => {
            let dir = history_dir_name(n.as_str());
            Some(path_with_file_name(doc_path, dir.as_str()))
        },
        None => None,
    }
}

/// Whether a file in the history directory is a snapshot: its extension is
/// `gz`, which for a file name means it ends in `.gz` after at least one other
/// character (a name that is only `.gz` has no extension).
pub open spec fn is_snapshot_name(n: Seq<char>) -> bool {
    n.len() > 3 && ends_with(n, ".gz"@)
}

/// The snapshot names among `names`, in order.
pub open spec fn snapshot_names(names: Seq<Seq<char>>) -> Seq<Seq<char>>
    decreases names.len(),
{
    if names.len() == 0 {
        seq![]
    } else {
        let r = snapshot_names(names.drop_last());
        if is_snapshot_name(names.last()) {
            r.push(names.last())
        } else {
            r
        }
    }
}

/// Snapshots, newest first: timestamped names sort chronologically.
pub open spec fn spec_newest_first(names: Seq<Seq<char>>) -> Seq<Seq<char>> {
    sorted_names(snapshot_names(names)).reverse()
}

/// The snapshot file names among `names`, newest first.
pub fn newest_first(names: &Vec<String>) -> (r: Vec<String>)
    ensures
        r.deep_view() == spec_newest_first(names.deep_view()),
{
    let all = chars_of_all(names);
    let ghost src = all.deep_view();
    let gz = chars_of(".gz");
    let mut c: Vec<Vec<char>> = Vec::new();
    let mut i: usize = 0;
    assert(src.take(0) =~= Seq::<Seq<char>>::empty());
    while i < all.len()
        invariant
            i <= all@.len(),
            src == all.deep_view(),
            gz@ == ".gz"@,
            c.deep_view() == snapshot_names(src.take(i as int)),
        decreases all@.len() - i,
    {
        assert(src[i as int] == all@[i as int]@);
        assert(src.take(i + 1).drop_last() =~= src.take(i as int));
        if all[i].len() > 3 && ends_with_exec(&all[i], &gz) {
            let x = sub_chars(&all[i], 0, all[i].len());
            assert(x@ =~= all@[i as int]@);
            let ghost before = c.deep_view();
            c.push(x);
            assert(x.deep_view() =~= x@);
            assert(c.deep_view() =~= before.push(x@));
        }
        i += 1;
    }
    assert(src.take(i as int) =~= src);
    let sorted = sort_chars(&c);
    let ghost ss = sorted.deep_view();
    let mut out: Vec<Vec<char>> = Vec::new();
    let mut k: usize = sorted.len();
    while k > 0
        invariant
            k <= sorted@.len(),
            ss == sorted.deep_view(),
            out.deep_view() == ss.subrange(k as int, ss.len() as int).reverse(),
        decreases k,
    {
        let x = sub_chars(&sorted[k - 1], 0, sorted[k - 1].len());
        assert(x@ =~= ss[k - 1]);
        let ghost before = out.deep_view();
        out.push(x);
        assert(x.deep_view() =~= x@);
        assert(out.deep_view() =~= before.push(x@));
        assert(ss.subrange(k - 1, ss.len() as int).reverse() =~= ss.subrange(
            k as int,
            ss.len() as int,
        ).reverse().push(ss[k - 1]));
        k -= 1;
    }
    assert(ss.subrange(0, ss.len() as int) =~= ss);
    strings_of_all(&out)
}

/// The snapshots a cap of `keep` removes from a newest-first list: all after
/// the newest `keep`, and never the newest one.
pub open spec fn spec_history_victims(newest_first: Seq<Seq<char>>, keep: nat) -> Seq<Seq<char>> {
    let k = if keep >= 1 {
        keep
    } else {
        1
    };
    if newest_first.len() <= k {
        seq![]
    } else {
        newest_first.skip(k as int)
    }
}

/// The snapshots to delete after a save so that at most `keep` remain; a
/// cap below one still keeps the snapshot just written.
pub fn history_victims(newest_first: &Vec<String>, keep: usize) -> (r: Vec<String>)
    ensures
        r.deep_view() == spec_history_victims(newest_first.deep_view(), keep as nat),
{
    let k = if keep >= 1 {
        keep
    } else {
        1
    };
    let mut out: Vec<String> = Vec::new();
    let ghost src = newest_first.deep_view();
    if newest_first.len() <= k {
        return out;
    }
    let mut i: usize = k;
    while i < newest_first.len()
        invariant
            k <= i <= newest_first@.len(),
            src == newest_first.deep_view(),
            out.deep_view() == src.subrange(k as int, i as int),
        decreases newest_first@.len() - i,
    {
        let x = newest_first[i].clone();
        let ghost before = out.deep_view();
        out.push(x);
        assert(out.deep_view() =~= before.push(x@));
        assert(src[i as int] == newest_first@[i as int]@);
        assert(src.subrange(k as int, i + 1) =~= src.subrange(k as int, i as int).push(
            src[i as int],
        ));
        i += 1;
    }
    assert(src.subrange(k as int, i as int) =~= src.skip(k as int));
    out
}

/// Whether a save should also write a snapshot, given the age in seconds of
/// the newest one (`None` when there is none or its age is unknown).
pub fn snapshot_due(newest_age_secs: Option<u64>, min_gap_secs: u64) -> (r: bool)
    ensures
        r == match newest_age_secs {
            Some(a) => a >= min_gap_secs,
            None => true,
        },
{
    match newest_age_secs {
        Some(a) => a >= min_gap_secs,
        None => true,
    }
}

/// What `flate2`'s gzip decoder yields for `data`: the decompressed text, or
/// the error's message.
pub uninterp spec fn spec_gunzip_text(data: Seq<u8>) -> Result<Seq<char>, Seq<char>>;

/// What `flate2`'s gzip encoder yields for `data` at the default level.
pub uninterp spec fn spec_gzip(data: Seq<u8>) -> Result<Seq<u8>, Seq<char>>;

/// The message of `String::from_utf8`'s error for `data`.
pub uninterp spec fn spec_utf8_error(data: Seq<u8>) -> Seq<char>;

/// Reads `data` through `flate2::read::GzDecoder` into a `String`
/// (`Read::read_to_string`), or gives the error's message. The result is
/// named by `spec_gunzip_text`.
#[verifier::external_body]
fn gunzip_text(data: &[u8]) -> (r: Result<String, String>)
    ensures
        match r {
            Ok(s) => spec_gunzip_text(data@) == Ok::<Seq<char>, Seq<char>>(s@),
            Err(e) => spec_gunzip_text(data@) == Err::<Seq<char>, Seq<char>>(e@),
        },
{
    let mut s = String::new();
    match std::io::Read::read_to_string(&mut flate2::read::GzDecoder::new(data), &mut s) {
        Ok(_) => Ok(s),
        Err(e) => Err(e.to_string()),
    }
}

/// Compresses `data` with `flate2::write::GzEncoder` at the default level
/// into a `Vec` (`write_all`, then `finish`), or gives the error's message.
/// The result is named by `spec_gzip`. Claimed besides, from the gzip format
/// and flate2's header writer: the output starts with the gzip magic bytes,
/// and decoding it yields the input again (for input that is UTF-8 text).
#[verifier::external_body]
fn gzip_bytes(data: &[u8]) -> (r: Result<Vec<u8>, String>)
    ensures
        match r {
            Ok(z) => {
                &&& spec_gzip(data@) == Ok::<Seq<u8>, Seq<char>>(z@)
                &&& z@.len() >= 2 && z@[0] == 0x1f && z@[1] == 0x8b
                &&& valid_utf8(data@) ==> spec_gunzip_text(z@) == Ok::<Seq<char>, Seq<char>>(
                    decode_utf8(data@),
                )
            },
            Err(e) => spec_gzip(data@) == Err::<Seq<u8>, Seq<char>>(e@),
        },
{
    let mut enc = flate2::write::GzEncoder::new(Vec::new(), flate2::Compression::default());
    if let Err(e) = std::io::Write::write_all(&mut enc, data) {
        return Err(e.to_string());
    }
    match enc.finish() {
        Ok(v) => Ok(v),
        Err(e) => Err(e.to_string()),
    }
}

/// Calls `String::from_utf8` on a copy of `data`: the text when `data` is
/// valid UTF-8, else the error's message (named by `spec_utf8_error`).
#[verifier::external_body]
fn utf8_text(data: &[u8]) -> (r: Result<String, String>)
    ensures
        match r {
            Ok(s) => valid_utf8(data@) && s@ == decode_utf8(data@),
            Err(e) => !valid_utf8(data@) && e@ == spec_utf8_error(data@),
        },
{
    match String::from_utf8(data.to_vec()) {
        Ok(s) => Ok(s),
        Err(e) => Err(e.to_string()),
    }
}

/// What a first read of up to `probe` bytes through `flate2`'s gzip
/// decoder yields for `data`: how many bytes came out, or `None` on an
/// error.
pub uninterp spec fn spec_gz_first_read(data: Seq<u8>, probe: nat) -> Option<nat>;

/// Reads once, into a buffer of `probe` bytes, through
/// `flate2::read::GzDecoder::new(data)` (`Read::read`): the number of
/// bytes read, or `None` on an error. The count is named by
/// `spec_gz_first_read`; besides, as `Read::read` documents, it is at most
/// the buffer's length.
#[verifier::external_body]
fn gz_first_read(data: &[u8], probe: usize) -> (r: Option<usize>)
    ensures
        match r {
            Some(n) => spec_gz_first_read(data@, probe as nat) == Some(n as nat) && n <= probe,
            None => spec_gz_first_read(data@, probe as nat) is None,
        },
{
    let mut buf = vec![0u8; probe];
    match std::io::Read::read(&mut flate2::read::GzDecoder::new(data), &mut buf) {
        Ok(n) => Some(n),
        Err(_) => None,
    }
}

/// How many bytes a readability check inflates: enough to show that the
/// stream really decompresses, without inflating the whole document.
pub const SNAPSHOT_PROBE: usize = 64;

/// Whether a snapshot file's bytes are a gzip stream that actually
/// decompresses: a snapshot that cannot be decompressed is never offered
/// for restore. Cheap: only the first `SNAPSHOT_PROBE` bytes are inflated.
pub fn snapshot_readable(data: &[u8]) -> (r: bool)
    ensures
        r == (spec_gz_first_read(data@, SNAPSHOT_PROBE as nat) matches Some(n) && n > 0),
{
    match gz_first_read(data, SNAPSHOT_PROBE) {
        Some(n) => n > 0,
        None => false,
    }
}

/// Whether `data` starts with the gzip magic bytes.
pub open spec fn is_gzip(data: Seq<u8>) -> bool {
    data.len() >= 2 && data[0] == 0x1f && data[1] == 0x8b
}

/// The document text a file holds: gzip-compressed saves are decompressed,
/// older plain-text files are read as UTF-8.
pub open spec fn spec_document_text(data: Seq<u8>) -> Result<Seq<char>, Seq<char>> {
    if is_gzip(data) {
        spec_gunzip_text(data)
    } else if valid_utf8(data) {
        Ok(decode_utf8(data))
    } else {
        Err(spec_utf8_error(data))
    }
}

/// Read a document file's text, transparently handling both current
/// gzip-compressed saves and older plain-text files (magic-byte sniff).
pub fn document_text(data: &[u8]) -> (r: Result<String, String>)
    ensures
        match r {
            Ok(s) => spec_document_text(data@) == Ok::<Seq<char>, Seq<char>>(s@),
            Err(e) => spec_document_text(data@) == Err::<Seq<char>, Seq<char>>(e@),
        },
{
    if data.len() >= 2 && data[0] == 0x1f && data[1] == 0x8b {
        gunzip_text(data)
    } else {
        utf8_text(data)
    }
}

/// The bytes a document's text is saved as: gzip-compressed.
pub fn encode_document(text: &str) -> (r: Result<Vec<u8>, String>)
    ensures
        match r {
            Ok(z) => spec_gzip(encode_utf8(text@)) == Ok::<Seq<u8>, Seq<char>>(z@) && is_gzip(z@)
                && spec_document_text(z@) == Ok::<Seq<char>, Seq<char>>(text@),
            Err(e) => spec_gzip(encode_utf8(text@)) == Err::<Seq<u8>, Seq<char>>(e@),
        },
{
    let bytes = text.as_bytes();
    proof {
        vstd::utf8::encode_utf8_valid_utf8(text@);
        vstd::utf8::encode_utf8_decode_utf8(text@);
    }
    gzip_bytes(bytes)
}


/// What `chrono::NaiveDateTime::parse_from_str(s, fmt)` gives: `None` when
/// it fails, else the parsed date and time as whole seconds after
/// 1970-01-01 00:00:00 (a seconds field of 60 counting as 59), and whether
/// that field was 60, a leap second.
pub uninterp spec fn spec_parsed_time(s: Seq<char>, fmt: Seq<char>) -> Option<(int, bool)>;

/// chrono's `%Y`: four digits for the years 0 to 9999, otherwise a sign and
/// at least four digits.
pub open spec fn year_field(y: int) -> Seq<char> {
    if 0 <= y <= 9999 {
        zero_pad(decimal(y as nat), 4)
    } else if y > 9999 {
        seq!['+'] + zero_pad(decimal(y as nat), 4)
    } else {
        seq!['-'] + zero_pad(decimal((-y) as nat), 4)
    }
}

/// A two-digit field.
pub open spec fn two_digits(n: int) -> Seq<char> {
    zero_pad(decimal(n as nat), 2)
}

/// The `%Y-%m-%d %H:%M:%S` label of the time `t` seconds after
/// 1970-01-01 00:00:00; a leap second shows one more in its seconds field.
pub open spec fn spec_time_label(t: int, leap: bool) -> Seq<char> {
    let d = civil_date(t / 86400);
    let r = t % 86400;
    year_field(d.0) + seq!['-'] + two_digits(d.1) + seq!['-'] + two_digits(d.2) + seq![' ']
        + two_digits(r / 3600) + seq![':'] + two_digits((r % 3600) / 60) + seq![':'] + two_digits(
        r % 60 + if leap {
            1int
        } else {
            0int
        },
    )
}

/// The label of UTC time `t` shown `off` seconds away from UTC.
pub open spec fn shifted_label(t: int, off: int, leap: bool) -> Seq<char> {
    spec_time_label(t + off, leap)
}

/// `label` is the UTC time `t` shown in some zone: shifted by an offset of
/// less than a day either way.
pub open spec fn is_local_label(label: Seq<char>, t: int, leap: bool) -> bool {
    exists|off: int| -86400 < off < 86400 && label == #[trigger] shifted_label(t, off, leap)
}

/// Times that stay within chrono's dates however the offset moves them:
/// about 253,000 years either side of 1970.
pub open spec fn label_range(t: int) -> bool {
    -8_000_000_000_000 <= t <= 8_000_000_000_000
}

/// Parses `s` with `chrono::NaiveDateTime::parse_from_str(s, fmt)`; on
/// success takes it as UTC (`TimeZone::from_utc_datetime` on `Utc`), converts
/// it to the machine's zone (`with_timezone(&Local)`) and formats it with
/// `out`. Claimed: it succeeds exactly when the parse does, as named by
/// `spec_parsed_time`; and the label is the parsed time shifted by the
/// zone's offset, which chrono keeps strictly within a day
/// (`FixedOffset::east_opt`) and adds to the time keeping a leap second
/// (`NaiveTime::overflowing_add_offset`). Which offset the machine's zone
/// gives is not stated, nor the label of a time so far from 1970 that the
/// shift could leave chrono's dates.
#[verifier::external_body]
fn local_label(s: &str, fmt: &str, out: &str) -> (r: Option<String>)
    requires
        out@ == "%Y-%m-%d %H:%M:%S"@,
    ensures
        r is Some <==> spec_parsed_time(s@, fmt@) is Some,
        r matches Some(l) ==> (spec_parsed_time(s@, fmt@) matches Some(p) && (label_range(p.0)
            ==> is_local_label(l@, p.0, p.1))),
{
    match chrono::NaiveDateTime::parse_from_str(s, fmt) {
        Ok(t) => Some(
            chrono::TimeZone::from_utc_datetime(&chrono::Utc, &t).with_timezone(
                &chrono::Local,
            ).format(out).to_string(),
        ),
        Err(_) => None,
    }
}

/// The part of a snapshot file name before its first `.`.
pub open spec fn stamp_part(name: Seq<char>) -> Seq<char> {
    crate::text::split_char(name, '.')[0]
}

/// Turn a snapshot filename `20260730-142530.ron.gz` into a local-time label
/// `2026-07-30 16:25:30`: the stamp is UTC and is shown in the machine's
/// zone. A name not in that shape is shown as it is.
pub fn format_stamp(name: &str) -> (r: String)
    ensures
        spec_parsed_time(stamp_part(name@), "%Y%m%d-%H%M%S"@) is None ==> r@ == name@,
        spec_parsed_time(stamp_part(name@), "%Y%m%d-%H%M%S"@) matches Some(p) ==> (label_range(
            p.0,
        ) ==> is_local_label(r@, p.0, p.1)),
{
    let parts = crate::text::split_chars(&chars_of(name), '.');
    proof {
        crate::text::lemma_char_index_bounds(name@, '.', 0);
    }
    assert(parts.deep_view().len() > 0);
    let head = string_of(parts[0].as_slice());
    assert(head@ == stamp_part(name@));
    match local_label(head.as_str(), "%Y%m%d-%H%M%S", "%Y-%m-%d %H:%M:%S") {
        Some(l) => l,
        None => name.to_owned(),
    }
}


/// How many snapshots a document keeps when nothing is saved.
pub const HISTORY_KEEP: usize = 25;

/// The default minimum gap between snapshots, in minutes.
pub const HISTORY_GAP_MINS: u64 = 3;

/// `v` brought into `lo..=hi`.
pub open spec fn clamped(v: int, lo: int, hi: int) -> int {
    if v < lo {
        lo
    } else if v > hi {
        hi
    } else {
        v
    }
}

/// The snapshot cap a saved setting gives: its number if it reads as one
/// (else the default of 25), kept within 1 to 100 so a hand-edited value can
/// neither switch history off nor fill the disk.
pub open spec fn spec_history_keep(saved: Option<Seq<char>>) -> int {
    let v = match saved {
        Some(s) => match parse_unsigned(s, usize::MAX as nat) {
            Some(n) => n as int,
            None => HISTORY_KEEP as int,
        },
        None => HISTORY_KEEP as int,
    };
    clamped(v, 1, 100)
}

/// The snapshot gap in minutes a saved setting gives: its number if it reads
/// as one (else 3), kept within 1 to 1440.
pub open spec fn spec_history_gap_mins(saved: Option<Seq<char>>) -> int {
    let v = match saved {
        Some(s) => match parse_unsigned(s, u64::MAX as nat) {
            Some(n) => n as int,
            None => HISTORY_GAP_MINS as int,
        },
        None => HISTORY_GAP_MINS as int,
    };
    clamped(v, 1, 1440)
}

/// The snapshot cap from its saved setting.
pub fn history_keep_setting(saved: Option<&str>) -> (r: usize)
    ensures
        r as int == spec_history_keep(crate::palette::opt_view(saved)),
{
    let v: u64 = match saved {
        Some(s) => {
            let c = chars_of(s);
            match parse_unsigned_in(&c, 0, c.len(), usize::MAX as u64) {
                Some(n) => {
                    assert(c@.subrange(0, c@.len() as int) =~= s@);
                    n
                },
                None => {
                    assert(c@.subrange(0, c@.len() as int) =~= s@);
                    HISTORY_KEEP as u64
                },
            }
        },
        None => HISTORY_KEEP as u64,
    };
    if v < 1 {
        1
    } else if v > 100 {
        100
    } else {
        v as usize
    }
}

/// The minimum gap between snapshots, in minutes, from its saved setting.
pub fn history_gap_setting(saved: Option<&str>) -> (r: u64)
    ensures
        r as int == spec_history_gap_mins(crate::palette::opt_view(saved)),
{
    let v: u64 = match saved {
        Some(s) => {
            let c = chars_of(s);
            match parse_unsigned_in(&c, 0, c.len(), u64::MAX) {
                Some(n) => {
                    assert(c@.subrange(0, c@.len() as int) =~= s@);
                    n
                },
                None => {
                    assert(c@.subrange(0, c@.len() as int) =~= s@);
                    HISTORY_GAP_MINS
                },
            }
        },
        None => HISTORY_GAP_MINS,
    };
    if v < 1 {
        1
    } else if v > 1440 {
        1440
    } else {
        v
    }
}

} // verus!
