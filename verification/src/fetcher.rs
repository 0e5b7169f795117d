//! Feed parsing and normalization to news items.
//!
//! The feed format itself (RSS, Atom, JSON Feed) is parsed by `feed-rs`; this
//! module reads the entries it yields: titles are sanitized, the link is the
//! first `rel="alternate"` link or else the first link, entries without a
//! title or an http(s) link are dropped, and at most `MAX_ITEMS_PER_FEED`
//! entries are read.

use vstd::prelude::*;

use crate::item::NewsItem;
use crate::text::{
    chars_of, collapse_chars, collapse_whitespace, is_control, is_control_char, is_whitespace_char,
    squeeze, str_eq, string_from_chars, trim_chars, trim_end_spec, trim_spec, trim_start_spec,
};

verus! {

/// Largest response body read from one feed, in bytes (8 MiB).
pub const MAX_RESPONSE_BYTES: u64 = 8 * 1024 * 1024;

/// Time allowed for fetching one feed, in seconds.
pub const FETCH_TIMEOUT_SECS: u64 = 10;

/// Most entries read from one feed.
pub const MAX_ITEMS_PER_FEED: usize = 200;

/// Most characters kept of a sanitized title.
pub const MAX_TITLE_CHARS: usize = 300;

/// The body size after reading one more chunk of `chunk_len` bytes on top
/// of `buffered` bytes, or `None` when that would exceed `cap` (the read is
/// then abandoned).
pub fn accept_chunk(buffered: u64, chunk_len: u64, cap: u64) -> (r: Option<u64>)
    ensures
        r == if buffered + chunk_len > cap {
            None::<u64>
        } else {
            Some((buffered + chunk_len) as u64)
        },
{
    if buffered > cap || chunk_len > cap - buffered {
        None
    } else {
        Some(buffered + chunk_len)
    }
}

/// Characters that survive control-character stripping: everything but
/// control characters, except tab and newline.
pub open spec fn keeps_char(c: char) -> bool {
    !is_control_char(c) || c == '\t' || c == '\n'
}

/// `s` with the control characters other than tab and newline removed.
pub open spec fn drop_controls(s: Seq<char>) -> Seq<char>
    decreases s.len(),
{
    if s.len() == 0 {
        s
    } else if keeps_char(s.last()) {
        drop_controls(s.drop_last()).push(s.last())
    } else {
        drop_controls(s.drop_last())
    }
}

/// At most the first `n` characters of `s`.
pub open spec fn cap_chars(s: Seq<char>, n: int) -> Seq<char> {
    if s.len() > n {
        s.take(n)
    } else {
        s
    }
}

/// The sanitized form of a free-text field: control characters stripped,
/// whitespace collapsed, trimmed, capped at 300 characters.
pub open spec fn sanitized(s: Seq<char>) -> Seq<char> {
    cap_chars(trim_spec(collapse_whitespace(drop_controls(s))), MAX_TITLE_CHARS as int)
}

/// Sanitize a free-text title field: strip control characters (tab and
/// newline count as whitespace), collapse whitespace runs to single spaces,
/// trim, and keep at most 300 characters.
pub fn sanitize_text(s: &str) -> (r: String)
    ensures
        r@ == sanitized(s@),
        r@.len() <= MAX_TITLE_CHARS,
{
    let chars = chars_of(s);
    let mut kept: Vec<char> = Vec::new();
    for i in 0..chars.len()
        invariant
            kept@ == drop_controls(chars@.take(i as int)),
    {
        assert(chars@.take(i + 1).drop_last() =~= chars@.take(i as int));
        let c = chars[i];
        if !is_control(c) || c == '\t' || c == '\n' {
            kept.push(c);
        }
    }
    assert(chars@.take(chars@.len() as int) =~= chars@);
    let collapsed = collapse_chars(&kept);
    let mut out = trim_chars(&collapsed);
    if out.len() > MAX_TITLE_CHARS {
        out.truncate(MAX_TITLE_CHARS);
    }
    string_from_chars(&out)
}

/// Every character of `s` is a kept one.
proof fn lemma_drop_controls_clean(s: Seq<char>)
    ensures
        forall|k: int|
            0 <= k < drop_controls(s).len() ==> keeps_char(#[trigger] drop_controls(s)[k]),
    decreases s.len(),
{
    if s.len() > 0 {
        let u = s.drop_last();
        lemma_drop_controls_clean(u);
        let d = drop_controls(s);
        assert forall|k: int| 0 <= k < d.len() implies keeps_char(#[trigger] d[k]) by {
            if k < drop_controls(u).len() {
                assert(d[k] == drop_controls(u)[k]);
            }
        }
    }
}

/// The shape of squeezed text: no leading whitespace, no whitespace but
/// single spaces between other characters, and each non-space character
/// taken from the input.
proof fn lemma_squeeze_shape(s: Seq<char>)
    ensures
        ({
            let (t, pending) = squeeze(s);
            &&& t.len() > 0 ==> !is_whitespace_char(t[0]) && !is_whitespace_char(t.last())
            &&& pending ==> t.len() > 0
            &&& forall|k: int|
                0 <= k < t.len() ==> #[trigger] t[k] == ' ' || (!is_whitespace_char(t[k])
                    && s.contains(t[k]))
            &&& forall|k: int| 0 <= k < t.len() - 1 && t[k] == ' ' ==> #[trigger] t[k + 1] != ' '
        }),
    decreases s.len(),
{
    if s.len() > 0 {
        let u = s.drop_last();
        lemma_squeeze_shape(u);
        let (t0, p0) = squeeze(u);
        let (t, pending) = squeeze(s);
        let c = s.last();
        assert forall|k: int| 0 <= k < t.len() implies #[trigger] t[k] == ' ' || (
        !is_whitespace_char(t[k]) && s.contains(t[k])) by {
            if k < t0.len() {
                assert(t[k] == t0[k]);
                if t0[k] != ' ' {
                    let m = choose|m: int| 0 <= m < u.len() && u[m] == t0[k];
                    assert(s[m] == u[m]);
                }
            } else if t[k] != ' ' {
                assert(t[k] == c);
                assert(s[s.len() - 1] == c);
            }
        }
        assert forall|k: int| 0 <= k < t.len() - 1 && t[k] == ' ' implies #[trigger] t[k + 1] != ' ' by {
            if k + 1 < t0.len() {
                assert(t[k] == t0[k] && t[k + 1] == t0[k + 1]);
            } else if k + 1 == t0.len() {
                assert(t[k] == t0[k]);
            }
        }
    }
}

/// Trimming squeezed text changes nothing.
proof fn lemma_trim_squeezed(s: Seq<char>)
    ensures
        trim_spec(collapse_whitespace(s)) == collapse_whitespace(s),
{
    let t = collapse_whitespace(s);
    lemma_squeeze_shape(s);
    if t.len() > 0 {
        assert(trim_start_spec(t) == t);
        assert(trim_end_spec(t) == t);
    } else {
        assert(trim_start_spec(t) == t);
    }
}

/// Sanitized text is at most 300 characters long, holds no control
/// characters and no whitespace other than single spaces between words, and
/// does not start with a space; every other character comes from the input.
pub proof fn law_sanitized_text_is_clean(s: Seq<char>)
    ensures
        ({
            let r = sanitized(s);
            &&& r.len() <= MAX_TITLE_CHARS
            &&& r.len() > 0 ==> r[0] != ' '
            &&& forall|k: int|
                0 <= k < r.len() ==> #[trigger] r[k] == ' ' || (!is_whitespace_char(r[k])
                    && !is_control_char(r[k]) && s.contains(r[k]))
            &&& forall|k: int| 0 <= k < r.len() - 1 && r[k] == ' ' ==> #[trigger] r[k + 1] != ' '
        }),
{
    let d = drop_controls(s);
    let t = collapse_whitespace(d);
    lemma_drop_controls_clean(s);
    lemma_squeeze_shape(d);
    lemma_trim_squeezed(d);
    lemma_drop_controls_sub(s);
    let r = sanitized(s);
    assert(r == cap_chars(t, MAX_TITLE_CHARS as int));
    assert forall|k: int| 0 <= k < r.len() implies #[trigger] r[k] == ' ' || (!is_whitespace_char(
        r[k],
    ) && !is_control_char(r[k]) && s.contains(r[k])) by {
        assert(r[k] == t[k]);
        if t[k] != ' ' {
            let m = choose|m: int| 0 <= m < d.len() && d[m] == t[k];
            assert(keeps_char(d[m]));
            assert(s.contains(d[m]));
        }
    }
    assert forall|k: int| 0 <= k < r.len() - 1 && r[k] == ' ' implies #[trigger] r[k + 1] != ' ' by {
        assert(r[k] == t[k] && r[k + 1] == t[k + 1]);
    }
}

proof fn lemma_drop_controls_sub(s: Seq<char>)
    ensures
        forall|k: int| 0 <= k < drop_controls(s).len() ==> s.contains(#[trigger] drop_controls(s)[k]),
    decreases s.len(),
{
    if s.len() > 0 {
        let u = s.drop_last();
        lemma_drop_controls_sub(u);
        let d = drop_controls(s);
        assert forall|k: int| 0 <= k < d.len() implies s.contains(#[trigger] d[k]) by {
            if k < drop_controls(u).len() {
                assert(d[k] == drop_controls(u)[k]);
                let m = choose|m: int| 0 <= m < u.len() && u[m] == d[k];
                assert(s[m] == u[m]);
            } else {
                assert(s[s.len() - 1] == d[k]);
            }
        }
    }
}


proof fn lemma_drop_controls_len(s: Seq<char>)
    ensures
        drop_controls(s).len() <= s.len(),
    decreases s.len(),
{
    if s.len() > 0 {
        lemma_drop_controls_len(s.drop_last());
    }
}

/// Dropping control characters from text that holds none changes nothing.
proof fn lemma_drop_controls_id(s: Seq<char>)
    requires
        forall|k: int| 0 <= k < s.len() ==> keeps_char(#[trigger] s[k]),
    ensures
        drop_controls(s) == s,
    decreases s.len(),
{
    if s.len() > 0 {
        let u = s.drop_last();
        assert forall|k: int| 0 <= k < u.len() implies keeps_char(#[trigger] u[k]) by {
            assert(u[k] == s[k]);
        }
        lemma_drop_controls_id(u);
        assert(keeps_char(s[s.len() - 1]));
        assert(u.push(s.last()) =~= s);
    }
}

/// Squeezing never lengthens text: each added space stands for a run of
/// white space that was dropped.
proof fn lemma_squeeze_len(s: Seq<char>)
    ensures
        squeeze(s).0.len() + (if squeeze(s).1 {
            1int
        } else {
            0int
        }) <= s.len(),
    decreases s.len(),
{
    if s.len() > 0 {
        lemma_squeeze_len(s.drop_last());
    }
}

/// Text with no leading white space and no white space but single spaces.
spec fn single_spaced(x: Seq<char>) -> bool {
    &&& x.len() > 0 ==> !is_whitespace_char(x[0])
    &&& forall|k: int| 0 <= k < x.len() ==> #[trigger] x[k] == ' ' || !is_whitespace_char(x[k])
    &&& forall|k: int| 0 <= k < x.len() - 1 && x[k] == ' ' ==> #[trigger] x[k + 1] != ' '
}

/// Squeezing single-spaced text keeps it, but for a trailing space, which
/// is left pending.
proof fn lemma_squeeze_single_spaced(x: Seq<char>)
    requires
        single_spaced(x),
    ensures
        squeeze(x) == if x.len() > 0 && x.last() == ' ' {
            (x.drop_last(), true)
        } else {
            (x, false)
        },
    decreases x.len(),
{
    if x.len() > 0 {
        let y = x.drop_last();
        assert forall|k: int| 0 <= k < y.len() implies #[trigger] y[k] == ' ' || !is_whitespace_char(
            y[k],
        ) by {
            assert(y[k] == x[k]);
        }
        assert forall|k: int| 0 <= k < y.len() - 1 && y[k] == ' ' implies #[trigger] y[k + 1] != ' ' by {
            assert(y[k] == x[k] && y[k + 1] == x[k + 1]);
        }
        if y.len() > 0 {
            assert(y[0] == x[0]);
        }
        lemma_squeeze_single_spaced(y);
        let c = x.last();
        assert(c == ' ' || !is_whitespace_char(c));
        if c == ' ' {
            if y.len() > 0 {
                assert(x[y.len() - 1] == y.last());
            }
        } else if y.len() > 0 && y.last() == ' ' {
            assert(y.drop_last().push(' ') =~= y);
            assert(y.drop_last().push(' ').push(c) =~= x);
        } else {
            assert(y.push(c) =~= x);
        }
    }
}

/// Sanitizing is idempotent on text of at most 300 characters: sanitizing
/// the result again gives the same text.
pub proof fn law_sanitize_idempotent(s: Seq<char>)
    requires
        s.len() <= MAX_TITLE_CHARS,
    ensures
        sanitized(sanitized(s)) == sanitized(s),
{
    let d = drop_controls(s);
    let t = collapse_whitespace(d);
    lemma_drop_controls_len(s);
    lemma_squeeze_len(d);
    lemma_trim_squeezed(d);
    lemma_squeeze_shape(d);
    law_sanitized_text_is_clean(s);
    let r = sanitized(s);
    assert(r == t);
    assert forall|k: int| 0 <= k < r.len() implies keeps_char(#[trigger] r[k]) by {
        assert(r[k] == ' ' || !is_control_char(r[k]));
    }
    lemma_drop_controls_id(r);
    if r.len() > 0 {
        assert(r[0] == ' ' || !is_whitespace_char(r[0]));
    }
    lemma_squeeze_single_spaced(r);
    assert(collapse_whitespace(r) == r);
    lemma_trim_squeezed(r);
}

/// A link of a feed entry, as the parser reports it.
pub struct FeedLink {
    pub rel: Option<String>,
    pub href: String,
}

/// The fields of a parsed feed entry that items are made from. Timestamps
/// are RFC 3339 text.
pub struct FeedEntry {
    pub title: Option<String>,
    pub links: Vec<FeedLink>,
    pub published: Option<String>,
    pub updated: Option<String>,
}

/// The text of an optional string.
pub open spec fn opt_text(o: Option<String>) -> Option<Seq<char>> {
    match o {
        Some(s) => Some(s@),
        None => None,
    }
}

/// A feed entry as plain values.
pub struct FeedEntryView {
    pub title: Option<Seq<char>>,
    /// `(rel, href)` of each link, in document order.
    pub links: Seq<(Option<Seq<char>>, Seq<char>)>,
    pub published: Option<Seq<char>>,
    pub updated: Option<Seq<char>>,
}

impl View for FeedEntry {
    type V = FeedEntryView;

    open spec fn view(&self) -> FeedEntryView {
        FeedEntryView {
            title: opt_text(self.title),
            links: self.links@.map_values(|l: FeedLink| (opt_text(l.rel), l.href@)),
            published: opt_text(self.published),
            updated: opt_text(self.updated),
        }
    }
}

/// The entries of a parsed feed as plain values.
pub open spec fn entries_view(es: Seq<FeedEntry>) -> Seq<FeedEntryView> {
    es.map_values(|e: FeedEntry| e@)
}

/// The entries `feed_rs::parser::parse` reads from a byte buffer (title
/// text, links, and the published and updated times rendered by
/// `to_rfc3339`), or none when it rejects the buffer.
pub uninterp spec fn parsed_feed_entries(bytes: Seq<u8>) -> Option<Seq<FeedEntryView>>;

#[verifier::external_type_specification]
#[verifier::external_body]
pub struct ExParseFeedError(feed_rs::parser::ParseFeedError);

/// The bytes of an ASCII text, one byte per character.
pub open spec fn ascii_bytes_of(s: Seq<char>) -> Seq<u8> {
    s.map_values(|c: char| c as u8)
}

/// `pat` occurs in `b` at position `i`.
pub open spec fn occurs_at(b: Seq<u8>, pat: Seq<u8>, i: int) -> bool {
    0 <= i && i + pat.len() <= b.len() && b.subrange(i, i + pat.len()) == pat
}

/// `pat` occurs somewhere in `b`.
pub open spec fn occurs_in(b: Seq<u8>, pat: Seq<u8>) -> bool {
    exists|i: int| occurs_at(b, pat, i)
}

/// XML white space: space, tab, line feed, carriage return.
pub open spec fn is_xml_space(x: u8) -> bool {
    x == 0x20 || x == 0x09 || x == 0x0A || x == 0x0D
}

/// An ASCII digit.
pub open spec fn is_ascii_digit(x: u8) -> bool {
    0x30 <= x <= 0x39
}

/// The longest run of digits the parser's media-time reader is safe on: a
/// run of up to 15 digits read as hours, times 3600, still fits in `u64`.
pub const MAX_TIME_DIGITS: usize = 15;

/// The first position at or after `from` that holds `x`, or the length.
pub open spec fn next_byte(b: Seq<u8>, from: int, x: u8) -> int
    decreases b.len() - from,
{
    if from >= b.len() {
        b.len() as int
    } else if b[from] == x {
        from
    } else {
        next_byte(b, from + 1, x)
    }
}

/// The first position at or after `from` that is not XML white space, or the
/// length.
pub open spec fn skip_space(b: Seq<u8>, from: int) -> int
    decreases b.len() - from,
{
    if from >= b.len() {
        b.len() as int
    } else if !is_xml_space(b[from]) {
        from
    } else {
        skip_space(b, from + 1)
    }
}

/// Some byte among the `MAX_TIME_DIGITS + 1` from `k` on is not a digit.
pub open spec fn breaks_digit_run(b: Seq<u8>, k: int) -> bool {
    exists|m: int| k <= m <= k + MAX_TIME_DIGITS && !is_ascii_digit(#[trigger] b[m])
}

/// `b[from..to]` is text the media-time reader is safe on, taken literally:
/// no `&` (no character or entity reference), only ASCII bytes (no non-ASCII
/// digit), and no run of more than `MAX_TIME_DIGITS` digits.
pub open spec fn safe_time_text(b: Seq<u8>, from: int, to: int) -> bool {
    &&& forall|k: int| from <= k < to ==> #[trigger] b[k] != 0x26u8 && b[k] < 0x80u8
    &&& forall|k: int| from <= k && k + MAX_TIME_DIGITS < to ==> #[trigger] breaks_digit_run(b, k)
}

/// At position `i` of `b`, `name` follows `<` or `:`: the shape of an element
/// whose local name starts with `name`.
pub open spec fn tagged_at(b: Seq<u8>, name: Seq<u8>, i: int) -> bool {
    occurs_at(b, name, i) && i > 0 && (b[i - 1] == 0x3Cu8 || b[i - 1] == 0x3Au8)
}

/// The bytes of the name `duration`.
pub open spec fn duration_name() -> Seq<u8> {
    ascii_bytes_of("duration"@)
}

/// At position `i` starts an element name whose local part is `duration`:
/// after `<` or `:`, and ended by white space, `>`, `/` or the end.
pub open spec fn duration_tag_at(b: Seq<u8>, i: int) -> bool {
    let e = i + duration_name().len();
    &&& tagged_at(b, duration_name(), i)
    &&& e == b.len() || is_xml_space(b[e]) || b[e] == 0x3Eu8 || b[e] == 0x2Fu8
}

/// What follows a tag name at `e`, up to the next `<`: the rest of the tag,
/// with no quote (so no attribute value) and closed by a `>`, then text that
/// is safe for the media-time reader and ends at a start or end tag (not at a
/// comment, CDATA section or processing instruction, which would let the
/// text go on past it).
pub open spec fn safe_text_after(b: Seq<u8>, e: int) -> bool {
    let lt = next_byte(b, e, 0x3Cu8);
    &&& forall|k: int| e <= k < lt ==> #[trigger] b[k] != 0x22u8 && b[k] != 0x27u8
    &&& exists|g: int| e <= g < lt && b[g] == 0x3Eu8
    &&& safe_time_text(b, e, lt)
    &&& lt < b.len() ==> lt + 1 < b.len() && b[lt + 1] != 0x21u8 && b[lt + 1] != 0x3Fu8
}

/// Where `name` occurs at `i` as the key of an attribute (`name`, optional
/// white space, `=`, optional white space, then a quote), its value, up to
/// the matching quote, is closed and safe for the media-time reader.
pub open spec fn time_attr_safe_at(b: Seq<u8>, name: Seq<u8>, i: int) -> bool {
    occurs_at(b, name, i) ==> {
        let j = skip_space(b, i + name.len());
        j < b.len() && b[j] == 0x3Du8 ==> {
            let v = skip_space(b, j + 1);
            v < b.len() && (b[v] == 0x22u8 || b[v] == 0x27u8) ==> {
                let close = next_byte(b, v + 1, b[v]);
                close < b.len() && safe_time_text(b, v + 1, close)
            }
        }
    }
}

/// Every attribute `name` in `b` has a value safe for the media-time reader.
pub open spec fn time_attrs_safe(b: Seq<u8>, name: Seq<u8>) -> bool {
    forall|i: int| #[trigger] time_attr_safe_at(b, name, i)
}

/// Every `duration` element in `b` has text safe for the media-time reader.
pub open spec fn durations_safe(b: Seq<u8>) -> bool {
    forall|i: int| #[trigger] duration_tag_at(b, i) ==> safe_text_after(b, i + duration_name().len())
}

/// Bytes on which `feed_rs::parser::parse` returns rather than panics.
///
/// The parser panics on some texts it hands to its media-time reader: a
/// digit run too long for `u64` (or for the hour arithmetic), or a non-ASCII
/// digit. Those texts are the text of an iTunes `duration` element and the
/// `start`, `end` and `time` attributes of Media RSS elements, and these
/// handlers run only for elements in a namespace bound, by its exact URI, to
/// iTunes or to Media RSS. Without a NUL byte (no UTF-16) and without an ESC
/// byte (no ISO-2022 shifts) every ASCII character of the decoded document
/// is its own byte, so such a binding, element name, attribute and text
/// show in the raw bytes. Where the Media RSS URI occurs, every `start`,
/// `end` and `time` attribute value must be safe; where the iTunes URI
/// occurs, the text of every `duration` element must be. This is a subset of
/// the bytes the parser returns on: it leaves out, besides those it panics
/// on, UTF-16 and ISO-2022 documents and a few harmless shapes (a `duration`
/// element with attributes, or whose text holds `&`, non-ASCII bytes, a
/// comment or a CDATA section; such attribute values with `&`, non-ASCII
/// bytes or long digit runs).
pub open spec fn feed_bytes_supported(b: Seq<u8>) -> bool {
    &&& !b.contains(0u8)
    &&& !b.contains(0x1Bu8)
    &&& occurs_in(b, ascii_bytes_of("http://search.yahoo.com/mrss/"@)) ==> {
        &&& time_attrs_safe(b, ascii_bytes_of("start"@))
        &&& time_attrs_safe(b, ascii_bytes_of("end"@))
        &&& time_attrs_safe(b, ascii_bytes_of("time"@))
    }
    &&& occurs_in(b, ascii_bytes_of("http://www.itunes.com/dtds/podcast-1.0.dtd"@)) ==> durations_safe(b)
}

/// The bytes of an ASCII text.
fn ascii_bytes(s: &str) -> (r: Vec<u8>)
    ensures
        r@ == ascii_bytes_of(s@),
{
    let cs = chars_of(s);
    let mut r: Vec<u8> = Vec::new();
    for i in 0..cs.len()
        invariant
            cs@ == s@,
            r@.len() == i,
            forall|k: int| 0 <= k < i ==> r@[k] == (#[trigger] cs@[k]) as u8,
    {
        r.push(cs[i] as u8);
    }
    assert(r@ =~= ascii_bytes_of(s@));
    r
}

/// Whether `b` holds the byte `x`.
fn has_byte(b: &[u8], x: u8) -> (r: bool)
    ensures
        r == b@.contains(x),
{
    let mut i: usize = 0;
    while i < b.len()
        invariant
            i <= b@.len(),
            forall|k: int| 0 <= k < i ==> b@[k] != x,
        decreases b@.len() - i,
    {
        if b[i] == x {
            return true;
        }
        i = i + 1;
    }
    false
}

/// Whether `pat` occurs in `b` at position `i`.
fn matches_at(b: &[u8], pat: &Vec<u8>, i: usize) -> (r: bool)
    ensures
        r == occurs_at(b@, pat@, i as int),
{
    if pat.len() > b.len() || i > b.len() - pat.len() {
        return false;
    }
    let n = b.len();
    let mut k: usize = 0;
    while k < pat.len()
        invariant
            n == b@.len(),
            i + pat@.len() <= n,
            k <= pat@.len(),
            forall|m: int| 0 <= m < k ==> b@[i + m] == pat@[m],
        decreases pat@.len() - k,
    {
        if b[i + k] != pat[k] {
            assert(b@.subrange(i as int, i + pat@.len())[k as int] != pat@[k as int]);
            return false;
        }
        k = k + 1;
    }
    assert(b@.subrange(i as int, i + pat@.len()) =~= pat@);
    true
}

/// Whether `pat` occurs anywhere in `b`.
fn occurs(b: &[u8], pat: &Vec<u8>) -> (r: bool)
    ensures
        r == occurs_in(b@, pat@),
{
    let mut i: usize = 0;
    while i < b.len()
        invariant
            i <= b@.len(),
            forall|k: int| 0 <= k < i ==> !occurs_at(b@, pat@, k),
        decreases b@.len() - i,
    {
        if matches_at(b, pat, i) {
            return true;
        }
        i = i + 1;
    }
    matches_at(b, pat, b.len())
}


/// The first position at or after `from` holding `x`, or the length.
fn next_byte_from(b: &[u8], from: usize, x: u8) -> (r: usize)
    requires
        from <= b@.len(),
    ensures
        r == next_byte(b@, from as int, x),
        from <= r <= b@.len(),
{
    let n = b.len();
    let mut k: usize = from;
    while k < n && b[k] != x
        invariant
            from <= k <= n == b@.len(),
            next_byte(b@, k as int, x) == next_byte(b@, from as int, x),
        decreases n - k,
    {
        k = k + 1;
    }
    k
}

/// The first position at or after `from` that is not XML white space, or
/// the length.
fn skip_space_from(b: &[u8], from: usize) -> (r: usize)
    requires
        from <= b@.len(),
    ensures
        r == skip_space(b@, from as int),
        from <= r <= b@.len(),
{
    let n = b.len();
    let mut k: usize = from;
    while k < n && (b[k] == 0x20 || b[k] == 0x09 || b[k] == 0x0A || b[k] == 0x0D)
        invariant
            from <= k <= n == b@.len(),
            skip_space(b@, k as int) == skip_space(b@, from as int),
        decreases n - k,
    {
        k = k + 1;
    }
    k
}

/// Whether `b[from..to]` holds the byte `x`.
fn has_byte_in(b: &[u8], from: usize, to: usize, x: u8) -> (r: bool)
    requires
        from <= to <= b@.len(),
    ensures
        r == exists|k: int| from <= k < to && b@[k] == x,
{
    let mut k: usize = from;
    while k < to
        invariant
            from <= k <= to <= b@.len(),
            forall|m: int| from <= m < k ==> b@[m] != x,
        decreases to - k,
    {
        if b[k] == x {
            return true;
        }
        k = k + 1;
    }
    false
}

/// Whether `b[from..to]` is safe for the media-time reader.
fn safe_time_bytes(b: &[u8], from: usize, to: usize) -> (r: bool)
    requires
        from <= to <= b@.len(),
    ensures
        r == safe_time_text(b@, from as int, to as int),
{
    let mut k: usize = from;
    let mut run: usize = 0;
    while k < to
        invariant
            from <= k <= to <= b@.len(),
            forall|m: int| from <= m < k ==> #[trigger] b@[m] != 0x26u8 && b@[m] < 0x80u8,
            run <= k - from,
            run <= MAX_TIME_DIGITS,
            forall|m: int| k - run <= m < k ==> is_ascii_digit(#[trigger] b@[m]),
            k - run > from ==> !is_ascii_digit(b@[k - run - 1]),
            forall|s: int| from <= s && s + MAX_TIME_DIGITS < k ==> #[trigger] breaks_digit_run(b@, s),
        decreases to - k,
    {
        let c = b[k];
        if c == 0x26 || c >= 0x80 {
            assert(!(b@[k as int] != 0x26u8 && b@[k as int] < 0x80u8));
            return false;
        }
        let ghost old_run = run as int;
        if 0x30 <= c && c <= 0x39 {
            if run == MAX_TIME_DIGITS {
                let ghost s = k - MAX_TIME_DIGITS;
                assert(!breaks_digit_run(b@, s as int)) by {
                    assert forall|m: int| s <= m <= s + MAX_TIME_DIGITS implies is_ascii_digit(
                        #[trigger] b@[m],
                    ) by {
                        if m < k {
                            assert(k - run <= m);
                        }
                    }
                }
                return false;
            }
            run = run + 1;
        } else {
            run = 0;
        }
        proof {
            let s = k - MAX_TIME_DIGITS;
            if from <= s {
                if !is_ascii_digit(c) {
                    assert(!is_ascii_digit(b@[k as int]));
                } else {
                    assert(k - old_run > from);
                    assert(!is_ascii_digit(b@[k - old_run - 1]));
                }
                assert(breaks_digit_run(b@, s));
            }
            assert forall|m: int| k + 1 - run <= m < k + 1 implies is_ascii_digit(#[trigger] b@[m]) by {
                if m < k {
                    assert(k - old_run <= m);
                }
            }
            if run > 0 && k + 1 - run > from {
                assert(k - old_run > from);
            }
        }
        k = k + 1;
    }
    true
}

/// Whether the text after the tag name ending at `e` is safe
/// (`safe_text_after`).
fn safe_text_after_at(b: &[u8], e: usize) -> (r: bool)
    requires
        e <= b@.len(),
    ensures
        r == safe_text_after(b@, e as int),
{
    let lt = next_byte_from(b, e, 0x3C);
    if has_byte_in(b, e, lt, 0x22) || has_byte_in(b, e, lt, 0x27) {
        return false;
    }
    if !has_byte_in(b, e, lt, 0x3E) {
        return false;
    }
    if !safe_time_bytes(b, e, lt) {
        return false;
    }
    if lt < b.len() {
        lt + 1 < b.len() && b[lt + 1] != 0x21 && b[lt + 1] != 0x3F
    } else {
        true
    }
}

/// Whether a `duration` element name starts at `i` (`duration_tag_at`).
fn duration_tag_at_pos(b: &[u8], name: &Vec<u8>, i: usize) -> (r: bool)
    requires
        name@ == duration_name(),
    ensures
        r == duration_tag_at(b@, i as int),
{
    if i == 0 || i > b.len() {
        return false;
    }
    if !(b[i - 1] == 0x3C || b[i - 1] == 0x3A) {
        return false;
    }
    if !matches_at(b, name, i) {
        return false;
    }
    let e = i + name.len();
    e == b.len() || b[e] == 0x20 || b[e] == 0x09 || b[e] == 0x0A || b[e] == 0x0D || b[e] == 0x3E
        || b[e] == 0x2F
}

/// Whether every `duration` element has safe text (`durations_safe`).
fn durations_safe_in(b: &[u8]) -> (r: bool)
    ensures
        r == durations_safe(b@),
{
    let name = ascii_bytes("duration");
    let n = b.len();
    let mut i: usize = 0;
    while i < n
        invariant
            i <= n == b@.len(),
            name@ == duration_name(),
            forall|k: int|
                0 <= k < i ==> #[trigger] duration_tag_at(b@, k) ==> safe_text_after(
                    b@,
                    k + duration_name().len(),
                ),
        decreases n - i,
    {
        if duration_tag_at_pos(b, &name, i) && !safe_text_after_at(b, i + name.len()) {
            assert(!durations_safe(b@)) by {
                assert(duration_tag_at(b@, i as int));
            }
            return false;
        }
        i = i + 1;
    }
    if duration_tag_at_pos(b, &name, n) && !safe_text_after_at(b, n + name.len()) {
        assert(!durations_safe(b@)) by {
            assert(duration_tag_at(b@, n as int));
        }
        return false;
    }
    assert forall|k: int| #[trigger] duration_tag_at(b@, k) implies safe_text_after(
        b@,
        k + duration_name().len(),
    ) by {
        if k == n {
        }
    }
    true
}

/// Whether an attribute `name` at `i` has a safe value (`time_attr_safe_at`).
fn time_attr_safe_at_pos(b: &[u8], name: &Vec<u8>, i: usize) -> (r: bool)
    ensures
        r == time_attr_safe_at(b@, name@, i as int),
{
    let n = b.len();
    if !matches_at(b, name, i) {
        return true;
    }
    assert(i + name@.len() <= n);
    let j = skip_space_from(b, i + name.len());
    if !(j < b.len() && b[j] == 0x3D) {
        return true;
    }
    let v = skip_space_from(b, j + 1);
    if !(v < b.len() && (b[v] == 0x22 || b[v] == 0x27)) {
        return true;
    }
    let close = next_byte_from(b, v + 1, b[v]);
    close < b.len() && safe_time_bytes(b, v + 1, close)
}

/// Whether every attribute `name` has a safe value (`time_attrs_safe`).
fn time_attrs_safe_in(b: &[u8], name: &Vec<u8>) -> (r: bool)
    ensures
        r == time_attrs_safe(b@, name@),
{
    let n = b.len();
    let mut i: usize = 0;
    while i < n
        invariant
            i <= n == b@.len(),
            forall|k: int| 0 <= k < i ==> #[trigger] time_attr_safe_at(b@, name@, k),
        decreases n - i,
    {
        if !time_attr_safe_at_pos(b, name, i) {
            return false;
        }
        i = i + 1;
    }
    let last = time_attr_safe_at_pos(b, name, n);
    assert forall|k: int| k < 0 || k > n implies #[trigger] time_attr_safe_at(b@, name@, k) by {}
    last
}

/// Whether `feed_rs` can be given these bytes (`feed_bytes_supported`);
/// call before `parse_bytes`.
pub fn is_supported_feed(bytes: &[u8]) -> (r: bool)
    ensures
        r == feed_bytes_supported(bytes@),
{
    if has_byte(bytes, 0) || has_byte(bytes, 0x1B) {
        return false;
    }
    let mrss = ascii_bytes("http://search.yahoo.com/mrss/");
    if occurs(bytes, &mrss) {
        if !time_attrs_safe_in(bytes, &ascii_bytes("start")) || !time_attrs_safe_in(
            bytes,
            &ascii_bytes("end"),
        ) || !time_attrs_safe_in(bytes, &ascii_bytes("time")) {
            return false;
        }
    }
    let itunes = ascii_bytes("http://www.itunes.com/dtds/podcast-1.0.dtd");
    if occurs(bytes, &itunes) && !durations_safe_in(bytes) {
        return false;
    }
    true
}

/// Trusted: calls `feed_rs::parser::parse` and copies, field by field, the
/// title text, the links' `rel` and `href`, and the published and updated
/// times (as `to_rfc3339` text) of every entry. The parse is a function of
/// the bytes alone; the contract names its result and states nothing else.
/// It is called only on bytes the parser does not panic on.
#[verifier::external_body]
fn parse_feed_entries(bytes: &[u8]) -> (r: Result<Vec<FeedEntry>, feed_rs::parser::ParseFeedError>)
    requires
        feed_bytes_supported(bytes@),
    ensures
        match r {
            Ok(es) => parsed_feed_entries(bytes@) == Some(entries_view(es@)),
            Err(_) => parsed_feed_entries(bytes@) is None,
        },
{
    feed_rs::parser::parse(bytes).map(|feed| feed.entries.iter().map(|e| FeedEntry {
        title: e.title.as_ref().map(|t| t.content.clone()),
        links: e.links.iter().map(|l| FeedLink { rel: l.rel.clone(), href: l.href.clone() }).collect(),
        published: e.published.map(|t| t.to_rfc3339()),
        updated: e.updated.map(|t| t.to_rfc3339()),
    }).collect())
}

/// Why a feed yields no items.
#[derive(Debug, Clone, Copy, PartialEq, Eq, Structural)]
pub enum FeedError {
    /// The bytes are not a feed the parser recognizes.
    Unparseable,
}

/// The href of the first link whose rel is "alternate".
pub open spec fn first_alternate(links: Seq<(Option<Seq<char>>, Seq<char>)>) -> Option<Seq<char>>
    decreases links.len(),
{
    if links.len() == 0 {
        None
    } else if links[0].0 == Some("alternate"@) {
        Some(links[0].1)
    } else {
        first_alternate(links.drop_first())
    }
}

/// The link an item points to: the first "alternate" link, else the first
/// link, else nothing (empty).
pub open spec fn chosen_link(links: Seq<(Option<Seq<char>>, Seq<char>)>) -> Seq<char> {
    match first_alternate(links) {
        Some(h) => h,
        None => if links.len() > 0 {
            links[0].1
        } else {
            Seq::empty()
        },
    }
}

/// The sanitized title of an entry, empty when it has none.
pub open spec fn entry_title(e: FeedEntryView) -> Seq<char> {
    match e.title {
        Some(t) => sanitized(t),
        None => Seq::empty(),
    }
}

/// An absolute http(s) link (no `mailto:`, `javascript:` or relative ones).
pub open spec fn is_web_link(h: Seq<char>) -> bool {
    "https://"@.is_prefix_of(h) || "http://"@.is_prefix_of(h)
}

/// An entry becomes an item when it has a title and an http(s) link.
pub open spec fn entry_usable(e: FeedEntryView) -> bool {
    entry_title(e).len() > 0 && chosen_link(e.links).len() > 0 && is_web_link(chosen_link(e.links))
}

/// The usable entries of `es`, in order.
pub open spec fn usable_entries(es: Seq<FeedEntryView>) -> Seq<FeedEntryView>
    decreases es.len(),
{
    if es.len() == 0 {
        es
    } else if entry_usable(es.last()) {
        usable_entries(es.drop_last()).push(es.last())
    } else {
        usable_entries(es.drop_last())
    }
}

/// `item` is what entry `e` of the feed at `source` becomes.
pub open spec fn item_from_entry(item: NewsItem, e: FeedEntryView, source: Seq<char>) -> bool {
    &&& item.source@ == source
    &&& item.title@ == entry_title(e)
    &&& item.url@ == chosen_link(e.links)
    &&& opt_text(item.published_iso) == match e.published {
        Some(p) => Some(p),
        None => e.updated,
    }
    &&& item.bias is None
    &&& item.factual is None
    &&& item.neutrality_score is None
    &&& item.bias_label is None
    &&& item.factual_label is None
}

/// `items` are the items made from the usable entries among the first
/// `MAX_ITEMS_PER_FEED` entries of `es`, in order.
pub open spec fn items_of_entries(items: Seq<NewsItem>, es: Seq<FeedEntryView>, source: Seq<char>) -> bool {
    let used = usable_entries(cap_entries(es));
    &&& items.len() == used.len()
    &&& forall|k: int| 0 <= k < items.len() ==> item_from_entry(#[trigger] items[k], used[k], source)
}

/// The first `MAX_ITEMS_PER_FEED` entries.
pub open spec fn cap_entries(es: Seq<FeedEntryView>) -> Seq<FeedEntryView> {
    if es.len() > MAX_ITEMS_PER_FEED {
        es.take(MAX_ITEMS_PER_FEED as int)
    } else {
        es
    }
}

/// Whether `s` starts with `prefix`.
pub fn starts_with(s: &Vec<char>, prefix: &str) -> (r: bool)
    ensures
        r == prefix@.is_prefix_of(s@),
{
    let p = chars_of(prefix);
    if p.len() > s.len() {
        return false;
    }
    let mut i: usize = 0;
    while i < p.len() && p[i] == s[i]
        invariant
            i <= p@.len() <= s@.len(),
            forall|k: int| 0 <= k < i ==> p@[k] == s@[k],
        decreases p@.len() - i,
    {
        i = i + 1;
    }
    if i == p.len() {
        assert(p@ =~= s@.subrange(0, p@.len() as int));
        true
    } else {
        assert(p@[i as int] != s@.subrange(0, p@.len() as int)[i as int]);
        false
    }
}

/// The href of the link an entry's item points to.
fn pick_link(links: &Vec<FeedLink>) -> (r: Vec<char>)
    ensures
        r@ == chosen_link(links@.map_values(|l: FeedLink| (opt_text(l.rel), l.href@))),
{
    let ghost lv = links@.map_values(|l: FeedLink| (opt_text(l.rel), l.href@));
    let alternate = "alternate";
    let mut i: usize = 0;
    assert(lv.skip(0) =~= lv);
    while i < links.len()
        invariant
            i <= links@.len() == lv.len(),
            lv == links@.map_values(|l: FeedLink| (opt_text(l.rel), l.href@)),
            first_alternate(lv) == first_alternate(lv.skip(i as int)),
            alternate@ == "alternate"@,
        decreases links@.len() - i,
    {
        let is_alt = match &links[i].rel {
            Some(rel) => {
                assert(opt_text(links@[i as int].rel) == Some(rel@));
                str_eq(rel.as_str(), alternate)
            },
            None => false,
        };
        let ghost t = lv.skip(i as int);
        assert(t[0] == lv[i as int]);
        assert(lv[i as int] == (opt_text(links@[i as int].rel), links@[i as int].href@));
        assert(is_alt == (lv[i as int].0 == Some("alternate"@)));
        if is_alt {
            assert(first_alternate(t) == Some(t[0].1));
            return chars_of(links[i].href.as_str());
        }
        assert(t.drop_first() =~= lv.skip(i + 1));
        i = i + 1;
    }
    assert(lv.skip(i as int).len() == 0);
    if links.len() > 0 {
        chars_of(links[0].href.as_str())
    } else {
        Vec::new()
    }
}

/// Items from parsed entries: the first `MAX_ITEMS_PER_FEED` entries are
/// read; each with a nonempty sanitized title and an http(s) link becomes an
/// item attributed to `source_url`, timestamped with its published time, or
/// else its updated time.
pub fn items_from_entries(entries: &Vec<FeedEntry>, source_url: &str) -> (out: Vec<NewsItem>)
    ensures
        items_of_entries(out@, entries_view(entries@), source_url@),
{
    let ghost es = entries_view(entries@);
    let limit = if entries.len() > MAX_ITEMS_PER_FEED {
        MAX_ITEMS_PER_FEED
    } else {
        entries.len()
    };
    let ghost capped = cap_entries(es);
    assert(capped =~= es.take(limit as int));
    let mut out: Vec<NewsItem> = Vec::new();
    for i in 0..limit
        invariant
            limit <= entries@.len() == es.len(),
            es == entries_view(entries@),
            capped =~= es.take(limit as int),
            ({
                let used = usable_entries(es.take(i as int));
                &&& out@.len() == used.len()
                &&& forall|k: int|
                    0 <= k < out@.len() ==> item_from_entry(#[trigger] out@[k], used[k], source_url@)
            }),
    {
        assert(es.take(i + 1).drop_last() =~= es.take(i as int));
        let e = &entries[i];
        assert(es[i as int] == e@);
        let title = match &e.title {
            Some(t) => sanitize_text(t.as_str()),
            None => string_from_chars(&Vec::new()),
        };
        let link = pick_link(&e.links);
        let title_len = chars_of(title.as_str()).len();
        if title_len > 0 && link.len() > 0 && (starts_with(&link, "https://") || starts_with(
            &link,
            "http://",
        )) {
            let published_iso = match &e.published {
                Some(p) => Some(p.clone()),
                None => match &e.updated {
                    Some(u) => Some(u.clone()),
                    None => None,
                },
            };
            let item = NewsItem {
                source: string_from_chars(&chars_of(source_url)),
                title,
                url: string_from_chars(&link),
                published_iso,
                bias: None,
                factual: None,
                neutrality_score: None,
                bias_label: None,
                factual_label: None,
            };
            out.push(item);
        }
    }
    out
}

proof fn lemma_usable_entries(es: Seq<FeedEntryView>)
    ensures
        usable_entries(es).len() <= es.len(),
        forall|k: int| 0 <= k < usable_entries(es).len() ==> entry_usable(#[trigger] usable_entries(es)[k]),
    decreases es.len(),
{
    if es.len() > 0 {
        let d = es.drop_last();
        lemma_usable_entries(d);
        let u = usable_entries(es);
        assert forall|k: int| 0 <= k < u.len() implies entry_usable(#[trigger] u[k]) by {
            if k < usable_entries(d).len() {
                assert(u[k] == usable_entries(d)[k]);
            }
        }
    }
}

/// A feed yields at most `MAX_ITEMS_PER_FEED` items, each with a nonempty
/// sanitized title of at most 300 characters and an absolute http(s) URL.
pub proof fn law_feed_items_well_formed(items: Seq<NewsItem>, es: Seq<FeedEntryView>, source: Seq<char>, k: int)
    requires
        items_of_entries(items, es, source),
        0 <= k < items.len(),
    ensures
        items.len() <= MAX_ITEMS_PER_FEED,
        0 < items[k].title@.len() <= MAX_TITLE_CHARS,
        is_web_link(items[k].url@),
        items[k].source@ == source,
{
    lemma_usable_entries(cap_entries(es));
    let e = usable_entries(cap_entries(es))[k];
    assert(item_from_entry(items[k], e, source));
    assert(entry_usable(e));
    if let Some(t) = e.title {
        law_sanitized_text_is_clean(t);
    }
}

/// Parse a feed (RSS, Atom or JSON Feed) and make items of its entries,
/// attributed to `source_url`; an error when the bytes are not a feed. The
/// bytes must be ones the parser returns on (`is_supported_feed`).
pub fn parse_bytes(bytes: &[u8], source_url: &str) -> (r: Result<Vec<NewsItem>, FeedError>)
    requires
        feed_bytes_supported(bytes@),
    ensures
        match r {
            Ok(items) => parsed_feed_entries(bytes@) matches Some(es) && items_of_entries(
                items@,
                es,
                source_url@,
            ),
            Err(e) => e == FeedError::Unparseable && parsed_feed_entries(bytes@) is None,
        },
{
    match parse_feed_entries(bytes) {
        Ok(entries) => Ok(items_from_entries(&entries, source_url)),
        Err(_) => Err(FeedError::Unparseable),
    }
}

/// An item is dated by its entry's published time whenever the entry has
/// one; the updated time is used only when there is no published time.
pub proof fn law_item_dated_by_published_first(
    items: Seq<NewsItem>,
    es: Seq<FeedEntryView>,
    source: Seq<char>,
    k: int,
)
    requires
        items_of_entries(items, es, source),
        0 <= k < items.len(),
    ensures
        ({
            let e = usable_entries(cap_entries(es))[k];
            &&& e.published is Some ==> opt_text(items[k].published_iso) == e.published
            &&& e.published is None ==> opt_text(items[k].published_iso) == e.updated
        }),
{
    assert(item_from_entry(items[k], usable_entries(cap_entries(es))[k], source));
}

proof fn lemma_drop_controls_append(x: Seq<char>, y: Seq<char>)
    ensures
        drop_controls(x + y) == drop_controls(x) + drop_controls(y),
    decreases y.len(),
{
    if y.len() == 0 {
        assert(x + y =~= x);
        assert(drop_controls(x) + drop_controls(y) =~= drop_controls(x));
    } else {
        lemma_drop_controls_append(x, y.drop_last());
        assert((x + y).drop_last() =~= x + y.drop_last());
        assert((x + y).last() == y.last());
        if keeps_char(y.last()) {
            assert(drop_controls(x + y) =~= drop_controls(x) + drop_controls(y));
        } else {
            assert(drop_controls(x + y) =~= drop_controls(x) + drop_controls(y));
        }
    }
}

/// The two texts differ at most in which white-space character stands at a
/// position.
spec fn same_but_spacing(x: Seq<char>, y: Seq<char>) -> bool {
    &&& x.len() == y.len()
    &&& forall|i: int|
        0 <= i < x.len() ==> #[trigger] x[i] == y[i] || (is_whitespace_char(x[i])
            && is_whitespace_char(y[i]))
}

proof fn lemma_squeeze_same_but_spacing(x: Seq<char>, y: Seq<char>)
    requires
        same_but_spacing(x, y),
    ensures
        squeeze(x) == squeeze(y),
    decreases x.len(),
{
    if x.len() > 0 {
        let (xd, yd) = (x.drop_last(), y.drop_last());
        assert forall|i: int| 0 <= i < xd.len() implies #[trigger] xd[i] == yd[i] || (
        is_whitespace_char(xd[i]) && is_whitespace_char(yd[i])) by {
            assert(xd[i] == x[i] && yd[i] == y[i]);
        }
        lemma_squeeze_same_but_spacing(xd, yd);
        assert(x.last() == x[x.len() - 1] && y.last() == y[y.len() - 1]);
    }
}

/// A newline in a title separates words like a space does: sanitizing
/// `a`, a newline, `b` gives the same text as sanitizing `a`, a space, `b`.
pub proof fn law_newline_separates_words(a: Seq<char>, b: Seq<char>)
    ensures
        sanitized(a + seq!['\n'] + b) == sanitized(a + seq![' '] + b),
{
    let nl = seq!['\n'];
    let sp = seq![' '];
    lemma_drop_controls_append(a + nl, b);
    lemma_drop_controls_append(a, nl);
    lemma_drop_controls_append(a + sp, b);
    lemma_drop_controls_append(a, sp);
    assert(nl.drop_last() =~= Seq::<char>::empty());
    assert(sp.drop_last() =~= Seq::<char>::empty());
    assert(drop_controls(Seq::<char>::empty()) =~= Seq::<char>::empty());
    assert(nl.last() == '\n' && keeps_char('\n'));
    assert(drop_controls(nl) =~= nl);
    assert(drop_controls(sp) =~= sp);
    let x = drop_controls(a) + nl + drop_controls(b);
    let y = drop_controls(a) + sp + drop_controls(b);
    assert(drop_controls(a + nl + b) == x);
    assert(drop_controls(a + sp + b) == y);
    let da = drop_controls(a);
    assert forall|i: int| 0 <= i < x.len() implies #[trigger] x[i] == y[i] || (is_whitespace_char(
        x[i],
    ) && is_whitespace_char(y[i])) by {
        if i == da.len() {
            assert(x[i] == '\n' && y[i] == ' ');
        } else {
            assert(x[i] == y[i]);
        }
    }
    lemma_squeeze_same_but_spacing(x, y);
}

} // verus!
