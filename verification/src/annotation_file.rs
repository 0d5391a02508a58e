//! `.marker` annotation files: what the library decides about them. The
//! frontend owns the format; this side checks a payload is JSON, names the
//! file, and tells load modes apart.

use vstd::prelude::*;
use crate::text::{decimal, push_char, push_decimal, text_eq};

verus! {

/// Selected file: on-disk path plus raw JSON content (validated by the
/// frontend).
pub struct AnnotationFilePayload {
    pub path: String,
    pub content: String,
}

/// Whether `text` is a JSON document (a function of the text alone).
pub uninterp spec fn is_json_document(text: Seq<char>) -> bool;

/// Parses `content` with `serde_json::from_str::<serde_json::Value>` and
/// reports whether it parsed; the contract names the outcome and states
/// nothing else about it.
#[verifier::external_body]
fn parses_as_json(content: &str) -> (ok: bool)
    ensures
        ok == is_json_document(content@),
{
    serde_json::from_str::<serde_json::Value>(content).is_ok()
}

/// `n` in decimal, left-padded with zeros to `width` characters.
pub open spec fn zero_padded(n: nat, width: nat) -> Seq<char> {
    let d = decimal(n);
    if d.len() >= width {
        d
    } else {
        Seq::new((width - d.len()) as nat, |i: int| '0') + d
    }
}

fn push_zero_padded(s: &mut String, n: u64, width: usize)
    requires
        width <= 4,
    ensures
        final(s)@ == old(s)@ + zero_padded(n as nat, width as nat),
{
    let ghost d = decimal(n as nat);
    let digits: usize = if n < 10 {
        1
    } else if n < 100 {
        2
    } else if n < 1000 {
        3
    } else if n < 10000 {
        4
    } else {
        5
    };
    proof {
        lemma_decimal_len(n as nat);
    }
    let pad_count: usize = if digits < width { width - digits } else { 0 };
    let ghost start = s@;
    let mut k: usize = 0;
    while k < pad_count
        invariant
            k <= pad_count,
            s@ == start + Seq::new(k as nat, |j: int| '0'),
        decreases pad_count - k,
    {
        push_char(s, '0');
        assert(s@ =~= start + Seq::new((k + 1) as nat, |j: int| '0'));
        k = k + 1;
    }
    let ghost pad = s@;
    push_decimal(s, n);
    proof {
        if digits < width {
            assert(digits == d.len());
        } else {
            assert(d.len() >= width);
            assert(pad =~= start + Seq::<char>::empty());
        }
        assert(s@ =~= start + zero_padded(n as nat, width as nat));
    }
}

proof fn lemma_decimal_len(n: nat)
    ensures
        n < 10 ==> decimal(n).len() == 1,
        10 <= n < 100 ==> decimal(n).len() == 2,
        100 <= n < 1000 ==> decimal(n).len() == 3,
        1000 <= n < 10000 ==> decimal(n).len() == 4,
        n >= 10000 ==> decimal(n).len() >= 5,
    decreases n,
{
    if n >= 10 {
        lemma_decimal_len(n / 10);
    }
}

/// The save-file timestamp `YYYYMMDDhhmmss` (local time): the year with a
/// `-` when negative and its magnitude padded to four digits, every other
/// field padded to two.
pub open spec fn stamp_text(year: i32, month: u8, day: u8, hour: u8, minute: u8, second: u8) -> Seq<char> {
    let sign = if year < 0 { seq!['-'] } else { Seq::<char>::empty() };
    let magnitude = if year < 0 { -(year as int) } else { year as int };
    sign + zero_padded(magnitude as nat, 4) + zero_padded(month as nat, 2) + zero_padded(day as nat, 2)
        + zero_padded(hour as nat, 2) + zero_padded(minute as nat, 2) + zero_padded(second as nat, 2)
}

/// `marker20260903153000`'s timestamp part, formatted as
/// `[year][month][day][hour][minute][second]` (the calendar fields of a
/// date-time in the supported year range).
pub fn annotation_stamp(year: i32, month: u8, day: u8, hour: u8, minute: u8, second: u8) -> (s: String)
    requires
        -9999 <= year <= 9999,
    ensures
        s@ == stamp_text(year, month, day, hour, minute, second),
{
    let mut s = String::new();
    if year < 0 {
        push_char(&mut s, '-');
    }
    let magnitude: u64 = if year < 0 { (-(year as i64)) as u64 } else { year as u64 };
    let ghost s0 = s@;
    push_zero_padded(&mut s, magnitude, 4);
    push_zero_padded(&mut s, month as u64, 2);
    push_zero_padded(&mut s, day as u64, 2);
    push_zero_padded(&mut s, hour as u64, 2);
    push_zero_padded(&mut s, minute as u64, 2);
    push_zero_padded(&mut s, second as u64, 2);
    proof {
        let sign = if year < 0 { seq!['-'] } else { Seq::<char>::empty() };
        assert(s0 =~= sign);
    }
    s
}

/// Saved annotation files are named `marker<stamp>.marker`.
pub open spec fn annotation_file_name_of(stamp: Seq<char>) -> Seq<char> {
    "marker"@ + stamp + ".marker"@
}

/// The file name for a save made at `stamp`.
pub fn annotation_file_name(stamp: &str) -> (name: String)
    ensures
        name@ == annotation_file_name_of(stamp@),
{
    let mut name = String::from_str("marker");
    name.append(stamp);
    name.append(".marker");
    name
}

/// What a save of a payload comes to: refused unless the payload is JSON,
/// otherwise the name of the file it goes to.
pub open spec fn save_target(payload_is_json: bool, stamp: Seq<char>) -> Result<Seq<char>, Seq<char>> {
    if payload_is_json {
        Ok(annotation_file_name_of(stamp))
    } else {
        Err("invalid annotation payload"@)
    }
}

pub open spec fn result_texts(r: Result<String, String>) -> Result<Seq<char>, Seq<char>> {
    match r {
        Ok(s) => Ok(s@),
        Err(e) => Err(e@),
    }
}

/// The file name for a save at `stamp` of a payload that is JSON exactly
/// when `payload_is_json`, or the refusal.
pub fn annotation_save_target(payload_is_json: bool, stamp: &str) -> (r: Result<String, String>)
    ensures
        result_texts(r) == save_target(payload_is_json, stamp@),
{
    if !payload_is_json {
        return Err(String::from_str("invalid annotation payload"));
    }
    Ok(annotation_file_name(stamp))
}

/// Validate a serialized `.marker` payload and name the file it is written
/// to.
pub fn prepare_annotation_save(content: &str, stamp: &str) -> (r: Result<String, String>)
    ensures
        result_texts(r) == save_target(is_json_document(content@), stamp@),
{
    let ok = parses_as_json(content);
    annotation_save_target(ok, stamp)
}

/// How a frontend-orchestrated load lands on the timeline: `open` replaces
/// the board, `insert` stacks on top.
#[derive(Debug, Clone, Copy, PartialEq, Eq)]
pub enum LoadMode {
    Open,
    Insert,
}

/// The load mode named `mode`, or the error for an unknown one.
pub open spec fn load_mode_of(mode: Seq<char>) -> Result<LoadMode, Seq<char>> {
    if mode == "open"@ {
        Ok(LoadMode::Open)
    } else if mode == "insert"@ {
        Ok(LoadMode::Insert)
    } else {
        Err("unknown load mode: "@ + mode)
    }
}

/// Parse a load mode (`open` or `insert`).
pub fn parse_load_mode(mode: &str) -> (r: Result<LoadMode, String>)
    ensures
        match r {
            Ok(m) => load_mode_of(mode@) == Ok::<LoadMode, Seq<char>>(m),
            Err(e) => load_mode_of(mode@) == Err::<LoadMode, Seq<char>>(e@),
        },
{
    if text_eq(mode, "open") {
        Ok(LoadMode::Open)
    } else if text_eq(mode, "insert") {
        Ok(LoadMode::Insert)
    } else {
        let mut e = String::from_str("unknown load mode: ");
        e.append(mode);
        Err(e)
    }
}

} // verus!
