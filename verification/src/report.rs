//! The scan report, as plain text and as JSON.

use vstd::prelude::*;
use crate::output::{format_bytes, format_bytes_spec};
use crate::plan::ScanPlan;
use crate::scanner::{ScanErrorSample, ScanResult, ScanStats};
use crate::text::{chars_of, decimal, push_char, push_decimal, push_str};
use crate::topn::{Entry, SizedPath, sized_entries};

verus! {

/// One entry of a top list in the text report.
pub open spec fn text_item(e: Entry) -> Seq<char> {
    "  "@ + format_bytes_spec(e.0 as nat) + " ("@ + decimal(e.0 as nat) + ") "@ + e.1 + "\n"@
}

/// The entries of a top list in the text report, in order.
pub open spec fn text_items(s: Seq<Entry>) -> Seq<char>
    decreases s.len(),
{
    if s.len() == 0 {
        Seq::empty()
    } else {
        text_items(s.drop_last()) + text_item(s.last())
    }
}

/// The text lines of two lists, one after the other, are those of the first
/// list followed by those of the second.
pub proof fn lemma_text_items_concat(a: Seq<Entry>, b: Seq<Entry>)
    ensures
        text_items(a + b) == text_items(a) + text_items(b),
    decreases b.len(),
{
    if b.len() == 0 {
        assert(a + b =~= a);
        assert(text_items(a) + Seq::<char>::empty() =~= text_items(a));
    } else {
        lemma_text_items_concat(a, b.drop_last());
        assert((a + b).drop_last() =~= a + b.drop_last());
        assert((a + b).last() == b.last());
        assert(text_items(a) + text_items(b.drop_last()) + text_item(b.last()) =~= text_items(a) + (
        text_items(b.drop_last()) + text_item(b.last())));
    }
}

/// The text report lists entries in the order given: the lines of the
/// entries before the `i`-th, then the `i`-th entry's line, then the rest.
pub proof fn lemma_text_items_in_order(s: Seq<Entry>, i: int)
    requires
        0 <= i < s.len(),
    ensures
        text_items(s) == text_items(s.take(i)) + text_item(s[i]) + text_items(s.skip(i + 1)),
        text_items(seq![s[i]]) == text_item(s[i]),
{
    let one = seq![s[i]];
    assert(one.drop_last() =~= Seq::<Entry>::empty());
    assert(one.last() == s[i]);
    assert(text_items(Seq::<Entry>::empty()) == Seq::<char>::empty());
    assert(Seq::<char>::empty() + text_item(s[i]) =~= text_item(s[i]));
    assert(s =~= s.take(i) + one + s.skip(i + 1));
    lemma_text_items_concat(s.take(i) + one, s.skip(i + 1));
    lemma_text_items_concat(s.take(i), one);
}

/// The text report of a scan of `root`.
pub open spec fn text_report(
    root: Seq<char>,
    stats: ScanStats,
    top_files: Seq<Entry>,
    top_dirs: Seq<Entry>,
) -> Seq<char> {
    "root: "@ + root + "\n"@
    + "bytes_total: "@ + format_bytes_spec(stats.bytes_total as nat) + " ("@ + decimal(stats.bytes_total as nat) + ")\n"@
    + "files_seen: "@ + decimal(stats.files_seen as nat) + "\n"@
    + "dirs_seen: "@ + decimal(stats.dirs_seen as nat) + "\n"@
    + "errors_total: "@ + decimal(stats.errors_total as nat) + "\n"@
    + "duration_ms: "@ + decimal(stats.duration_ms as nat) + "\n"@
    + "\n"@ + "top_files:\n"@ + text_items(top_files)
    + "\n"@ + "top_dirs:\n"@ + text_items(top_dirs)
}

pub open spec fn hex_digit(d: nat) -> char {
    if d < 10 {
        ((d + 48) as u8) as char
    } else {
        ((d + 87) as u8) as char
    }
}

/// Whether `c` is a control character (Unicode general category Cc).
pub open spec fn is_control(c: char) -> bool {
    (c as u32) < 0x20 || (0x7f <= (c as u32) && (c as u32) <= 0x9f)
}

/// How one character is written inside a JSON string.
pub open spec fn json_escape_char(c: char) -> Seq<char> {
    if c == '\\' {
        seq!['\\', '\\']
    } else if c == '"' {
        seq!['\\', '"']
    } else if c == '\n' {
        seq!['\\', 'n']
    } else if c == '\r' {
        seq!['\\', 'r']
    } else if c == '\t' {
        seq!['\\', 't']
    } else if is_control(c) {
        let u = c as u32 as nat;
        seq![
            '\\',
            'u',
            hex_digit((u / 4096) % 16),
            hex_digit((u / 256) % 16),
            hex_digit((u / 16) % 16),
            hex_digit(u % 16),
        ]
    } else {
        seq![c]
    }
}

/// `s` written inside a JSON string: backslash, quote, line feed, carriage
/// return and tab by their short escapes, other control characters as `\uXXXX`.
pub open spec fn json_escape(s: Seq<char>) -> Seq<char>
    decreases s.len(),
{
    if s.len() == 0 {
        Seq::empty()
    } else {
        json_escape(s.drop_last()) + json_escape_char(s.last())
    }
}

/// Text that can stand between the quotes of a JSON string: no control
/// character, and every quote escaped by a backslash.
pub open spec fn json_string_safe(t: Seq<char>) -> bool {
    forall|i: int|
        0 <= i < t.len() ==> !is_control(#[trigger] t[i]) && (t[i] == '"' ==> i > 0 && t[i - 1]
            == '\\')
}

/// Escaped text is safe inside a JSON string.
pub proof fn lemma_json_escape_safe(s: Seq<char>)
    ensures
        json_string_safe(json_escape(s)),
    decreases s.len(),
{
    if s.len() > 0 {
        let p = json_escape(s.drop_last());
        let c = s.last();
        let e = json_escape_char(c);
        lemma_json_escape_safe(s.drop_last());
        let t = p + e;
        assert(json_escape(s) == t);
        if is_control(c) && c != '\n' && c != '\r' && c != '\t' {
            let u = c as u32 as nat;
            assert forall|d: nat| d < 16 implies !is_control(#[trigger] hex_digit(d)) && hex_digit(d) != '"' by {
                if d < 10 {
                    assert((((d + 48) as u8) as char) as u32 == d + 48);
                } else {
                    assert((((d + 87) as u8) as char) as u32 == d + 87);
                }
            }
            assert(hex_digit((u / 4096) % 16) == e[2]);
            assert(hex_digit((u / 256) % 16) == e[3]);
            assert(hex_digit((u / 16) % 16) == e[4]);
            assert(hex_digit(u % 16) == e[5]);
        }
        assert forall|i: int| 0 <= i < t.len() implies !is_control(#[trigger] t[i]) && (t[i] == '"'
            ==> i > 0 && t[i - 1] == '\\') by {
            if i >= p.len() {
                assert(t[i] == e[i - p.len()]);
                if i > p.len() {
                    assert(t[i - 1] == e[i - 1 - p.len()]);
                }
            } else {
                assert(t[i] == p[i]);
                if i > 0 {
                    assert(t[i - 1] == p[i - 1]);
                }
            }
        }
    }
}

/// The value of a hexadecimal digit, either case.
pub open spec fn hex_value(c: char) -> Option<nat> {
    let u = c as u32;
    if 48 <= u <= 57 {
        Some((u - 48) as nat)
    } else if 97 <= u <= 102 {
        Some((u - 87) as nat)
    } else if 65 <= u <= 70 {
        Some((u - 55) as nat)
    } else {
        None
    }
}

/// The number written by the four hexadecimal digits `t[i..i + 4]`.
pub open spec fn hex4(t: Seq<char>, i: int) -> Option<nat> {
    if i < 0 || i + 4 > t.len() {
        None
    } else {
        match (hex_value(t[i]), hex_value(t[i + 1]), hex_value(t[i + 2]), hex_value(t[i + 3])) {
            (Some(a), Some(b), Some(c), Some(d)) => Some(((a * 16 + b) * 16 + c) * 16 + d),
            _ => None,
        }
    }
}

/// The character a one-letter escape stands for.
pub open spec fn short_escape(e: char) -> Option<char> {
    if e == '"' {
        Some('"')
    } else if e == '\\' {
        Some('\\')
    } else if e == '/' {
        Some('/')
    } else if e == 'b' {
        Some('\u{8}')
    } else if e == 'f' {
        Some('\u{c}')
    } else if e == 'n' {
        Some('\n')
    } else if e == 'r' {
        Some('\r')
    } else if e == 't' {
        Some('\t')
    } else {
        None
    }
}

/// `c` in front of a decoded text, if there is one.
pub open spec fn prepend(c: char, r: Option<Seq<char>>) -> Option<Seq<char>> {
    match r {
        Some(x) => Some(seq![c] + x),
        None => None,
    }
}

/// The characters written by the body `t` of a JSON string (what stands
/// between its quotes), as a JSON reader decodes it; `None` where `t` is not a
/// valid string body: a raw quote or control character below U+0020, a
/// backslash not starting one of JSON's escapes, or an unpaired surrogate.
pub open spec fn json_unescape(t: Seq<char>) -> Option<Seq<char>>
    decreases t.len(),
{
    if t.len() == 0 {
        Some(Seq::empty())
    } else if t[0] == '"' || (t[0] as u32) < 0x20 {
        None
    } else if t[0] != '\\' {
        prepend(t[0], json_unescape(t.skip(1)))
    } else if t.len() < 2 {
        None
    } else if short_escape(t[1]) is Some {
        prepend(short_escape(t[1])->0, json_unescape(t.skip(2)))
    } else if t[1] != 'u' || hex4(t, 2) is None {
        None
    } else {
        let v = hex4(t, 2)->0;
        if 0xd800 <= v < 0xdc00 {
            if t.len() >= 12 && t[6] == '\\' && t[7] == 'u' && hex4(t, 8) is Some
                && 0xdc00 <= hex4(t, 8)->0 < 0xe000 {
                let w = 0x10000 + (v - 0xd800) * 0x400 + (hex4(t, 8)->0 - 0xdc00);
                prepend(w as char, json_unescape(t.skip(12)))
            } else {
                None
            }
        } else if 0xdc00 <= v < 0xe000 {
            None
        } else {
            prepend(v as char, json_unescape(t.skip(6)))
        }
    }
}

proof fn lemma_json_escape_append(a: Seq<char>, b: Seq<char>)
    ensures
        json_escape(a + b) == json_escape(a) + json_escape(b),
    decreases b.len(),
{
    if b.len() == 0 {
        assert(a + b =~= a);
        assert(json_escape(a) + Seq::<char>::empty() =~= json_escape(a));
    } else {
        lemma_json_escape_append(a, b.drop_last());
        assert((a + b).drop_last() =~= a + b.drop_last());
        assert((a + b).last() == b.last());
        assert(json_escape(a) + json_escape(b.drop_last()) + json_escape_char(b.last())
            =~= json_escape(a) + (json_escape(b.drop_last()) + json_escape_char(b.last())));
    }
}

proof fn lemma_hex_digit_value(d: nat)
    requires
        d < 16,
    ensures
        hex_value(hex_digit(d)) == Some(d),
{
    if d < 10 {
        assert((((d + 48) as u8) as char) as u32 == d + 48);
    } else {
        assert((((d + 87) as u8) as char) as u32 == d + 87);
    }
}

/// Decoding one escaped character followed by more text gives the character
/// followed by what the rest decodes to.
proof fn lemma_unescape_char(c: char, rest: Seq<char>)
    ensures
        json_unescape(json_escape_char(c) + rest) == prepend(c, json_unescape(rest)),
{
    let e = json_escape_char(c);
    let t = e + rest;
    if c == '\\' || c == '"' || c == '\n' || c == '\r' || c == '\t' {
        assert(t[0] == '\\');
        assert(t[1] == e[1]);
        assert(t.skip(2) =~= rest);
    } else if is_control(c) {
        let u = c as u32 as nat;
        assert(u < 0xa0);
        lemma_hex_digit_value((u / 4096) % 16);
        lemma_hex_digit_value((u / 256) % 16);
        lemma_hex_digit_value((u / 16) % 16);
        lemma_hex_digit_value(u % 16);
        assert(t[0] == '\\');
        assert(t[1] == 'u');
        assert(t[2] == hex_digit((u / 4096) % 16));
        assert(t[3] == hex_digit((u / 256) % 16));
        assert(t[4] == hex_digit((u / 16) % 16));
        assert(t[5] == hex_digit(u % 16));
        assert(short_escape('u') is None);
        assert((u / 4096) % 16 == 0 && (u / 256) % 16 == 0);
        assert((((0 * 16 + 0) * 16 + (u / 16) % 16) * 16 + u % 16) == u);
        assert(hex4(t, 2) == Some(u));
        assert(t.skip(6) =~= rest);
        assert((u as char) == c);
    } else {
        assert(t[0] == c);
        assert(t.skip(1) =~= rest);
    }
}

/// Escaping is undone by decoding: the body written for `s` between the quotes
/// of a JSON string reads back as exactly `s`.
pub proof fn lemma_json_escape_round_trip(s: Seq<char>)
    ensures
        json_unescape(json_escape(s)) == Some(s),
    decreases s.len(),
{
    if s.len() > 0 {
        let c = s[0];
        let r = s.skip(1);
        assert(s =~= seq![c] + r);
        lemma_json_escape_append(seq![c], r);
        assert(seq![c].drop_last() =~= Seq::<char>::empty());
        assert(seq![c].last() == c);
        assert(json_escape(Seq::<char>::empty()) == Seq::<char>::empty());
        assert(Seq::<char>::empty() + json_escape_char(c) =~= json_escape_char(c));
        assert(json_escape(seq![c]) =~= json_escape_char(c));
        lemma_json_escape_round_trip(r);
        lemma_unescape_char(c, json_escape(r));
        assert(seq![c] + r =~= s);
    }
}

fn hex_digit_exec(d: u32) -> (c: char)
    requires
        d < 16,
    ensures
        c == hex_digit(d as nat),
{
    if d < 10 {
        ((d + 48) as u8) as char
    } else {
        ((d + 87) as u8) as char
    }
}

fn push_escaped_char(out: &mut String, c: char)
    ensures
        final(out)@ == old(out)@ + json_escape_char(c),
{
    let u = c as u32;
    if c == '\\' {
        push_str(out, "\\\\");
        proof { reveal_strlit("\\\\"); }
    } else if c == '"' {
        push_str(out, "\\\"");
        proof { reveal_strlit("\\\""); }
    } else if c == '\n' {
        push_str(out, "\\n");
        proof { reveal_strlit("\\n"); }
    } else if c == '\r' {
        push_str(out, "\\r");
        proof { reveal_strlit("\\r"); }
    } else if c == '\t' {
        push_str(out, "\\t");
        proof { reveal_strlit("\\t"); }
    } else if u < 0x20 || (0x7f <= u && u <= 0x9f) {
        push_char(out, '\\');
        push_char(out, 'u');
        push_char(out, hex_digit_exec((u / 4096) % 16));
        push_char(out, hex_digit_exec((u / 256) % 16));
        push_char(out, hex_digit_exec((u / 16) % 16));
        push_char(out, hex_digit_exec(u % 16));
    } else {
        push_char(out, c);
    }
}

/// Appends `s` written inside a JSON string; see `json_escape`.
fn push_escaped(out: &mut String, s: &str)
    ensures
        final(out)@ == old(out)@ + json_escape(s@),
{
    let cs = chars_of(s);
    let ghost start = out@;
    let mut k: usize = 0;
    while k < cs.len()
        invariant
            k <= cs@.len(),
            cs@ == s@,
            out@ == start + json_escape(cs@.take(k as int)),
        decreases cs@.len() - k,
    {
        push_escaped_char(out, cs[k]);
        proof {
            assert(cs@.take(k + 1).drop_last() =~= cs@.take(k as int));
            assert(cs@.take(k + 1).last() == cs@[k as int]);
        }
        k = k + 1;
    }
    assert(cs@.take(k as int) =~= cs@);
}

/// Writes `s` as the contents of a JSON string; see `json_escape`.
pub fn escape_json_string(s: &str) -> (out: String)
    ensures
        out@ == json_escape(s@),
{
    let mut out = String::new();
    push_escaped(&mut out, s);
    out
}

fn push_text_item(out: &mut String, item: &SizedPath)
    ensures
        final(out)@ == old(out)@ + text_item(item@),
{
    push_str(out, "  ");
    let f = format_bytes(item.size);
    push_str(out, f.as_str());
    push_str(out, " (");
    push_decimal(out, item.size as u128);
    push_str(out, ") ");
    push_str(out, item.path.as_str());
    push_str(out, "\n");
}

fn push_text_items(out: &mut String, items: &Vec<SizedPath>)
    ensures
        final(out)@ == old(out)@ + text_items(sized_entries(items@)),
{
    let ghost start = out@;
    let ghost es = sized_entries(items@);
    let mut k: usize = 0;
    while k < items.len()
        invariant
            k <= items@.len(),
            es == sized_entries(items@),
            out@ == start + text_items(es.take(k as int)),
        decreases items@.len() - k,
    {
        push_text_item(out, &items[k]);
        proof {
            assert(es.take(k + 1).drop_last() =~= es.take(k as int));
            assert(es.take(k + 1).last() == items@[k as int]@);
        }
        k = k + 1;
    }
    assert(es.take(k as int) =~= es);
}

/// The report as plain text: the root, the counts, then both top lists.
pub fn render_result_text(plan: &ScanPlan, result: &ScanResult) -> (out: String)
    ensures
        out@ == text_report(
            plan.root@,
            result.stats,
            sized_entries(result.top_files@),
            sized_entries(result.top_dirs@),
        ),
{
    let st = &result.stats;
    let mut out = String::new();
    push_str(&mut out, "root: ");
    push_str(&mut out, plan.root.as_str());
    push_str(&mut out, "\n");
    push_str(&mut out, "bytes_total: ");
    let f = format_bytes(st.bytes_total);
    push_str(&mut out, f.as_str());
    push_str(&mut out, " (");
    push_decimal(&mut out, st.bytes_total as u128);
    push_str(&mut out, ")\n");
    push_str(&mut out, "files_seen: ");
    push_decimal(&mut out, st.files_seen as u128);
    push_str(&mut out, "\n");
    push_str(&mut out, "dirs_seen: ");
    push_decimal(&mut out, st.dirs_seen as u128);
    push_str(&mut out, "\n");
    push_str(&mut out, "errors_total: ");
    push_decimal(&mut out, st.errors_total as u128);
    push_str(&mut out, "\n");
    push_str(&mut out, "duration_ms: ");
    push_decimal(&mut out, st.duration_ms);
    push_str(&mut out, "\n");
    push_str(&mut out, "\n");
    push_str(&mut out, "top_files:\n");
    push_text_items(&mut out, &result.top_files);
    push_str(&mut out, "\n");
    push_str(&mut out, "top_dirs:\n");
    push_text_items(&mut out, &result.top_dirs);
    out
}

/// One entry of a top list in the JSON report; all but the last end with a comma.
pub open spec fn json_item(e: Entry, last: bool) -> Seq<char> {
    "    { \"size_bytes\": "@ + decimal(e.0 as nat) + ", \"path\": \""@ + json_escape(e.1) + "\" }"@
        + (if last { ""@ } else { ","@ }) + "\n"@
}

/// A top-list item of the JSON report writes the path as a JSON string that
/// decodes back to exactly the path: between the item's head
/// (`    { "size_bytes": N, "path": "`) and its tail (`" }`, a comma unless
/// last, a line feed) stands text that `json_unescape` reads as the path.
pub proof fn lemma_json_item_path_decodes(e: Entry, last: bool)
    ensures
        ({
            let x = json_item(e, last);
            let h = "    { \"size_bytes\": "@ + decimal(e.0 as nat) + ", \"path\": \""@;
            let t = "\" }"@ + (if last { ""@ } else { ","@ }) + "\n"@;
            &&& x.len() >= h.len() + t.len()
            &&& x.take(h.len() as int) == h
            &&& x.skip(x.len() - t.len()) == t
            &&& json_unescape(x.subrange(h.len() as int, x.len() - t.len())) == Some(e.1)
        }),
{
    let h = "    { \"size_bytes\": "@ + decimal(e.0 as nat) + ", \"path\": \""@;
    let b = json_escape(e.1);
    let t = "\" }"@ + (if last { ""@ } else { ","@ }) + "\n"@;
    let x = json_item(e, last);
    assert(x =~= h + b + t);
    assert(x.take(h.len() as int) =~= h);
    assert(x.skip(x.len() - t.len()) =~= t);
    assert(x.subrange(h.len() as int, x.len() - t.len()) =~= b);
    lemma_json_escape_round_trip(e.1);
}

/// The first `k` entries of a top list in the JSON report.
pub open spec fn json_items_upto(s: Seq<Entry>, k: nat) -> Seq<char>
    decreases k,
{
    if k == 0 {
        Seq::empty()
    } else {
        json_items_upto(s, (k - 1) as nat) + json_item(s[k - 1], k == s.len())
    }
}

/// One error sample in the JSON report; all but the last end with a comma.
pub open spec fn json_sample(e: (Seq<char>, Seq<char>), last: bool) -> Seq<char> {
    "      { \"path\": \""@ + json_escape(e.0) + "\", \"message\": \""@ + json_escape(e.1) + "\" }"@
        + (if last { ""@ } else { ","@ }) + "\n"@
}

/// The first `k` error samples in the JSON report.
pub open spec fn json_samples_upto(s: Seq<(Seq<char>, Seq<char>)>, k: nat) -> Seq<char>
    decreases k,
{
    if k == 0 {
        Seq::empty()
    } else {
        json_samples_upto(s, (k - 1) as nat) + json_sample(s[k - 1], k == s.len())
    }
}

pub open spec fn sample_views(s: Seq<ScanErrorSample>) -> Seq<(Seq<char>, Seq<char>)> {
    s.map_values(|e: ScanErrorSample| (e.path@, e.message@))
}

/// The JSON report of a scan of `root`: one object with the root and the
/// counts under `meta`, both top lists, and the errors.
pub open spec fn json_report(
    root: Seq<char>,
    stats: ScanStats,
    top_files: Seq<Entry>,
    top_dirs: Seq<Entry>,
    errors_total: u64,
    samples: Seq<(Seq<char>, Seq<char>)>,
) -> Seq<char> {
    "{\n"@ + "  \"meta\": {\n"@
    + "    \"scan_root\": \""@ + json_escape(root) + "\",\n"@
    + "    \"stats\": {\n"@
    + "      \"bytes_total\": "@ + decimal(stats.bytes_total as nat) + ",\n"@
    + "      \"files_seen\": "@ + decimal(stats.files_seen as nat) + ",\n"@
    + "      \"dirs_seen\": "@ + decimal(stats.dirs_seen as nat) + ",\n"@
    + "      \"errors_total\": "@ + decimal(stats.errors_total as nat) + ",\n"@
    + "      \"duration_ms\": "@ + decimal(stats.duration_ms as nat) + "\n"@
    + "    }\n"@ + "  },\n"@
    + "  \"top_files\": [\n"@ + json_items_upto(top_files, top_files.len()) + "  ],\n"@
    + "  \"top_dirs\": [\n"@ + json_items_upto(top_dirs, top_dirs.len()) + "  ],\n"@
    + "  \"errors\": {\n"@
    + "    \"total\": "@ + decimal(errors_total as nat) + ",\n"@
    + "    \"samples\": [\n"@ + json_samples_upto(samples, samples.len())
    + "    ]\n"@ + "  }\n"@ + "}\n"@
}

/// The JSON items of a list come in the list's order: the items of the first
/// `i` entries begin those of the first `k`, for `i <= k`.
pub proof fn lemma_json_items_in_order(s: Seq<Entry>, i: nat, k: nat)
    requires
        i <= k,
    ensures
        json_items_upto(s, k).len() >= json_items_upto(s, i).len(),
        json_items_upto(s, k).take(json_items_upto(s, i).len() as int) == json_items_upto(s, i),
    decreases k,
{
    if i < k {
        lemma_json_items_in_order(s, i, (k - 1) as nat);
        let a = json_items_upto(s, (k - 1) as nat);
        let b = json_item(s[k - 1], k == s.len());
        assert(json_items_upto(s, k) == a + b);
        assert((a + b).take(json_items_upto(s, i).len() as int) =~= a.take(json_items_upto(s, i).len() as int));
    } else {
        assert(json_items_upto(s, k).take(json_items_upto(s, k).len() as int) =~= json_items_upto(s, k));
    }
}

/// An error sample of the JSON report writes its path and its message as
/// JSON strings that decode back to exactly the path and the message.
pub proof fn lemma_json_sample_fields_decode(e: (Seq<char>, Seq<char>), last: bool)
    ensures
        exists|a: Seq<char>, b: Seq<char>|
            #![trigger json_unescape(a), json_unescape(b)]
            json_sample(e, last) == "      { \"path\": \""@ + a + "\", \"message\": \""@ + b + "\" }"@ + (
            if last { ""@ } else { ","@ }) + "\n"@ && json_unescape(a) == Some(e.0) && json_unescape(b)
                == Some(e.1),
{
    let a = json_escape(e.0);
    let b = json_escape(e.1);
    lemma_json_escape_round_trip(e.0);
    lemma_json_escape_round_trip(e.1);
    assert(json_sample(e, last) =~= "      { \"path\": \""@ + a + "\", \"message\": \""@ + b + "\" }"@ + (
    if last { ""@ } else { ","@ }) + "\n"@);
}

#[verifier::rlimit(30)]
fn push_json_items(out: &mut String, items: &Vec<SizedPath>)
    ensures
        final(out)@ == old(out)@ + json_items_upto(sized_entries(items@), items@.len()),
{
    let ghost start = out@;
    let ghost es = sized_entries(items@);
    let n = items.len();
    let mut k: usize = 0;
    while k < n
        invariant
            k <= n == items@.len() == es.len(),
            es == sized_entries(items@),
            out@ == start + json_items_upto(es, k as nat),
        decreases n - k,
    {
        let item = &items[k];
        push_str(out, "    { \"size_bytes\": ");
        push_decimal(out, item.size as u128);
        push_str(out, ", \"path\": \"");
        push_escaped(out, item.path.as_str());
        push_str(out, "\" }");
        if k + 1 == n {
            push_str(out, "");
        } else {
            push_str(out, ",");
        }
        push_str(out, "\n");
        proof {
            assert(es[k as int] == item@);
        }
        k = k + 1;
    }
}

#[verifier::rlimit(30)]
fn push_json_samples(out: &mut String, samples: &Vec<ScanErrorSample>)
    ensures
        final(out)@ == old(out)@ + json_samples_upto(sample_views(samples@), samples@.len()),
{
    let ghost start = out@;
    let ghost es = sample_views(samples@);
    let n = samples.len();
    let mut k: usize = 0;
    while k < n
        invariant
            k <= n == samples@.len() == es.len(),
            es == sample_views(samples@),
            out@ == start + json_samples_upto(es, k as nat),
        decreases n - k,
    {
        let sample = &samples[k];
        push_str(out, "      { \"path\": \"");
        push_escaped(out, sample.path.as_str());
        push_str(out, "\", \"message\": \"");
        push_escaped(out, sample.message.as_str());
        push_str(out, "\" }");
        if k + 1 == n {
            push_str(out, "");
        } else {
            push_str(out, ",");
        }
        push_str(out, "\n");
        proof {
            assert(es[k as int] == (sample.path@, sample.message@));
        }
        k = k + 1;
    }
}

/// The report as one JSON object; see `json_report`.
pub fn render_result_json(plan: &ScanPlan, result: &ScanResult) -> (out: String)
    ensures
        out@ == json_report(
            plan.root@,
            result.stats,
            sized_entries(result.top_files@),
            sized_entries(result.top_dirs@),
            result.errors.total,
            sample_views(result.errors.samples@),
        ),
{
    let st = &result.stats;
    let mut out = String::new();
    push_str(&mut out, "{\n");
    push_str(&mut out, "  \"meta\": {\n");
    push_str(&mut out, "    \"scan_root\": \"");
    push_escaped(&mut out, plan.root.as_str());
    push_str(&mut out, "\",\n");
    push_str(&mut out, "    \"stats\": {\n");
    push_str(&mut out, "      \"bytes_total\": ");
    push_decimal(&mut out, st.bytes_total as u128);
    push_str(&mut out, ",\n");
    push_str(&mut out, "      \"files_seen\": ");
    push_decimal(&mut out, st.files_seen as u128);
    push_str(&mut out, ",\n");
    push_str(&mut out, "      \"dirs_seen\": ");
    push_decimal(&mut out, st.dirs_seen as u128);
    push_str(&mut out, ",\n");
    push_str(&mut out, "      \"errors_total\": ");
    push_decimal(&mut out, st.errors_total as u128);
    push_str(&mut out, ",\n");
    push_str(&mut out, "      \"duration_ms\": ");
    push_decimal(&mut out, st.duration_ms);
    push_str(&mut out, "\n");
    push_str(&mut out, "    }\n");
    push_str(&mut out, "  },\n");
    push_str(&mut out, "  \"top_files\": [\n");
    push_json_items(&mut out, &result.top_files);
    push_str(&mut out, "  ],\n");
    push_str(&mut out, "  \"top_dirs\": [\n");
    push_json_items(&mut out, &result.top_dirs);
    push_str(&mut out, "  ],\n");
    push_str(&mut out, "  \"errors\": {\n");
    push_str(&mut out, "    \"total\": ");
    push_decimal(&mut out, result.errors.total as u128);
    push_str(&mut out, ",\n");
    push_str(&mut out, "    \"samples\": [\n");
    push_json_samples(&mut out, &result.errors.samples);
    push_str(&mut out, "    ]\n");
    push_str(&mut out, "  }\n");
    push_str(&mut out, "}\n");
    out
}

} // verus!
