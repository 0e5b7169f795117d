//! Character-level text handling shared by the feed, dedup and registry code.

use vstd::prelude::*;

verus! {

/// Unicode general category Cc ("control"), as `char::is_control` reports it.
pub open spec fn is_control_char(c: char) -> bool {
    (c as u32) <= 0x1F || (0x7F <= (c as u32) && (c as u32) <= 0x9F)
}

/// The Unicode `White_Space` property, as `char::is_whitespace` reports it.
pub open spec fn is_whitespace_char(c: char) -> bool {
    let u = c as u32;
    ||| 0x09 <= u <= 0x0D
    ||| u == 0x20
    ||| u == 0x85
    ||| u == 0xA0
    ||| u == 0x1680
    ||| 0x2000 <= u <= 0x200A
    ||| u == 0x2028
    ||| u == 0x2029
    ||| u == 0x202F
    ||| u == 0x205F
    ||| u == 0x3000
}

pub fn is_control(c: char) -> (r: bool)
    ensures
        r == is_control_char(c),
{
    let u = c as u32;
    u <= 0x1F || (0x7F <= u && u <= 0x9F)
}

pub fn is_whitespace(c: char) -> (r: bool)
    ensures
        r == is_whitespace_char(c),
{
    let u = c as u32;
    (0x09 <= u && u <= 0x0D) || u == 0x20 || u == 0x85 || u == 0xA0 || u == 0x1680 || (0x2000
        <= u && u <= 0x200A) || u == 0x2028 || u == 0x2029 || u == 0x202F || u == 0x205F || u
        == 0x3000
}

/// The characters of `s`, in order.
pub fn chars_of(s: &str) -> (v: Vec<char>)
    ensures
        v@ == s@,
{
    let mut v: Vec<char> = Vec::new();
    for c in it: s.chars()
        invariant
            v@ == it.seq().take(it.index() as int),
            it.seq() == s@,
    {
        v.push(c);
    }
    v
}


/// `String` collected from a sequence of characters.
///
/// Trusted: `Iterator::collect::<String>` over `&char`; the result holds exactly
/// the given characters, in order.
#[verifier::external_body]
pub(crate) fn string_from_chars(v: &Vec<char>) -> (r: String)
    ensures
        r@ == v@,
{
    v.iter().collect()
}

/// What `str::to_lowercase` makes of a character sequence (Unicode full
/// lowercase mapping, context-sensitive for final sigma).
pub uninterp spec fn lowercase(s: Seq<char>) -> Seq<char>;

/// Trusted: calls `str::to_lowercase`, whose result depends on its argument
/// alone; the contract names it and says nothing more of it.
#[verifier::external_body]
pub(crate) fn to_lowercase(s: &str) -> (r: String)
    ensures
        r@ == lowercase(s@),
{
    s.to_lowercase()
}

/// `s` without its leading whitespace characters.
pub open spec fn trim_start_spec(s: Seq<char>) -> Seq<char>
    decreases s.len(),
{
    if s.len() > 0 && is_whitespace_char(s[0]) {
        trim_start_spec(s.drop_first())
    } else {
        s
    }
}

/// `s` without its trailing whitespace characters.
pub open spec fn trim_end_spec(s: Seq<char>) -> Seq<char>
    decreases s.len(),
{
    if s.len() > 0 && is_whitespace_char(s.last()) {
        trim_end_spec(s.drop_last())
    } else {
        s
    }
}

/// `str::trim`: no leading and no trailing whitespace.
pub open spec fn trim_spec(s: Seq<char>) -> Seq<char> {
    trim_end_spec(trim_start_spec(s))
}

proof fn lemma_trim_start_is_skip(s: Seq<char>, i: int)
    requires
        0 <= i <= s.len(),
        forall|k: int| 0 <= k < i ==> is_whitespace_char(#[trigger] s[k]),
        i == s.len() || !is_whitespace_char(s[i]),
    ensures
        trim_start_spec(s) == s.skip(i),
    decreases i,
{
    if i > 0 {
        assert(s.drop_first().skip(i - 1) =~= s.skip(i));
        lemma_trim_start_is_skip(s.drop_first(), i - 1);
    } else {
        assert(s.skip(0) =~= s);
    }
}

proof fn lemma_trim_end_is_take(s: Seq<char>, j: int)
    requires
        0 <= j <= s.len(),
        forall|k: int| j <= k < s.len() ==> is_whitespace_char(#[trigger] s[k]),
        j == 0 || !is_whitespace_char(s[j - 1]),
    ensures
        trim_end_spec(s) == s.take(j),
    decreases s.len() - j,
{
    if j < s.len() {
        assert(s.drop_last().take(j) =~= s.take(j));
        lemma_trim_end_is_take(s.drop_last(), j);
    } else {
        assert(s.take(j) =~= s);
    }
}

proof fn lemma_trim_start_shape(s: Seq<char>)
    ensures
        trim_start_spec(s).len() == 0 || !is_whitespace_char(trim_start_spec(s)[0]),
    decreases s.len(),
{
    if s.len() > 0 && is_whitespace_char(s[0]) {
        lemma_trim_start_shape(s.drop_first());
    }
}

proof fn lemma_trim_end_shape(s: Seq<char>)
    ensures
        trim_end_spec(s).len() == 0 || !is_whitespace_char(trim_end_spec(s).last()),
        trim_end_spec(s).len() <= s.len(),
        trim_end_spec(s) == s.take(trim_end_spec(s).len() as int),
    decreases s.len(),
{
    if s.len() > 0 && is_whitespace_char(s.last()) {
        lemma_trim_end_shape(s.drop_last());
        let r = trim_end_spec(s.drop_last());
        assert(s.drop_last().take(r.len() as int) =~= s.take(r.len() as int));
    } else {
        assert(s.take(s.len() as int) =~= s);
    }
}

/// Trimming twice is trimming once.
pub proof fn lemma_trim_idempotent(s: Seq<char>)
    ensures
        trim_spec(trim_spec(s)) == trim_spec(s),
{
    let a = trim_start_spec(s);
    let t = trim_end_spec(a);
    lemma_trim_start_shape(s);
    lemma_trim_end_shape(a);
    if t.len() > 0 {
        assert(t[0] == a[0]);
    }
    assert(trim_start_spec(t) == t);
    lemma_trim_end_shape(t);
    if t.len() > 0 {
        assert(trim_end_spec(t) == t);
    }
}

/// `str::trim` on a character vector.
pub fn trim_chars(s: &Vec<char>) -> (r: Vec<char>)
    ensures
        r@ == trim_spec(s@),
{
    let n = s.len();
    let mut i: usize = 0;
    while i < n && is_whitespace(s[i])
        invariant
            i <= n == s@.len(),
            forall|k: int| 0 <= k < i ==> is_whitespace_char(#[trigger] s@[k]),
        decreases n - i,
    {
        i = i + 1;
    }
    proof {
        lemma_trim_start_is_skip(s@, i as int);
    }
    let ghost t = s@.skip(i as int);
    let mut j: usize = n;
    while j > i && is_whitespace(s[j - 1])
        invariant
            i <= j <= n == s@.len(),
            forall|k: int| j <= k < n ==> is_whitespace_char(#[trigger] s@[k]),
        decreases j,
    {
        j = j - 1;
    }
    proof {
        assert forall|k: int| j - i <= k < t.len() implies is_whitespace_char(#[trigger] t[k]) by {
            assert(t[k] == s@[k + i]);
        }
        if j > i {
            assert(t[j - i - 1] == s@[j - 1]);
        }
        lemma_trim_end_is_take(t, j - i);
    }
    let mut r: Vec<char> = Vec::new();
    let mut k: usize = i;
    while k < j
        invariant
            i <= k <= j <= n == s@.len(),
            r@ =~= s@.subrange(i as int, k as int),
        decreases j - k,
    {
        r.push(s[k]);
        k = k + 1;
    }
    assert(r@ =~= t.take(j - i));
    r
}

/// Whitespace squeezing read left to right: the text built so far and
/// whether a run of whitespace has been seen after it.
pub open spec fn squeeze(s: Seq<char>) -> (Seq<char>, bool)
    decreases s.len(),
{
    if s.len() == 0 {
        (Seq::empty(), false)
    } else {
        let (t, pending) = squeeze(s.drop_last());
        let c = s.last();
        if is_whitespace_char(c) {
            (t, t.len() > 0)
        } else if pending {
            (t.push(' ').push(c), false)
        } else {
            (t.push(c), false)
        }
    }
}

/// `split_whitespace().collect::<Vec<_>>().join(" ")`: the words of `s`
/// separated by single spaces.
pub open spec fn collapse_whitespace(s: Seq<char>) -> Seq<char> {
    squeeze(s).0
}

/// Words of `s` joined by single spaces (`split_whitespace` + `join(" ")`).
pub fn collapse_chars(s: &Vec<char>) -> (r: Vec<char>)
    ensures
        r@ == collapse_whitespace(s@),
{
    let mut r: Vec<char> = Vec::new();
    let mut pending = false;
    let n = s.len();
    for i in 0..n
        invariant
            n == s@.len(),
            (r@, pending) == squeeze(s@.take(i as int)),
    {
        let c = s[i];
        assert(s@.take(i + 1).drop_last() =~= s@.take(i as int));
        if is_whitespace(c) {
            pending = r.len() > 0;
        } else {
            if pending {
                r.push(' ');
            }
            r.push(c);
            pending = false;
        }
    }
    assert(s@.take(n as int) =~= s@);
    r
}

/// Strict lexicographic order by code point, which is the order of
/// `String`'s `Ord` (UTF-8 byte order agrees with code-point order).
pub open spec fn seq_lt(a: Seq<char>, b: Seq<char>) -> bool
    decreases a.len(),
{
    if a.len() == 0 {
        b.len() > 0
    } else if b.len() == 0 {
        false
    } else if a[0] != b[0] {
        (a[0] as u32) < (b[0] as u32)
    } else {
        seq_lt(a.drop_first(), b.drop_first())
    }
}

pub proof fn lemma_seq_lt_irreflexive(a: Seq<char>)
    ensures
        !seq_lt(a, a),
    decreases a.len(),
{
    if a.len() > 0 {
        lemma_seq_lt_irreflexive(a.drop_first());
    }
}

pub proof fn lemma_seq_lt_asymmetric(a: Seq<char>, b: Seq<char>)
    ensures
        !(seq_lt(a, b) && seq_lt(b, a)),
    decreases a.len(),
{
    if a.len() > 0 && b.len() > 0 && a[0] == b[0] {
        lemma_seq_lt_asymmetric(a.drop_first(), b.drop_first());
    }
}

proof fn lemma_char_eq_by_code(c: char, d: char)
    requires
        (c as u32) == (d as u32),
    ensures
        c == d,
{
}

pub proof fn lemma_seq_lt_total(a: Seq<char>, b: Seq<char>)
    ensures
        seq_lt(a, b) || seq_lt(b, a) || a == b,
    decreases a.len(),
{
    if a.len() == 0 {
        if b.len() == 0 {
            assert(a =~= b);
        }
    } else if b.len() > 0 {
        if a[0] != b[0] {
            if (a[0] as u32) == (b[0] as u32) {
                lemma_char_eq_by_code(a[0], b[0]);
            }
        } else {
            lemma_seq_lt_total(a.drop_first(), b.drop_first());
            if a.drop_first() == b.drop_first() {
                assert(a =~= b.drop_first().insert(0, b[0]));
                assert(b =~= b.drop_first().insert(0, b[0]));
            }
        }
    }
}

pub proof fn lemma_seq_lt_transitive(a: Seq<char>, b: Seq<char>, c: Seq<char>)
    requires
        seq_lt(a, b),
        seq_lt(b, c),
    ensures
        seq_lt(a, c),
    decreases a.len(),
{
    if a.len() > 0 && b.len() > 0 && c.len() > 0 && a[0] == b[0] && b[0] == c[0] {
        lemma_seq_lt_transitive(a.drop_first(), b.drop_first(), c.drop_first());
    }
}

/// `a == b` on strings.
pub fn str_eq(a: &str, b: &str) -> (r: bool)
    ensures
        r == (a@ == b@),
{
    let av = chars_of(a);
    let bv = chars_of(b);
    if av.len() != bv.len() {
        return false;
    }
    let mut i: usize = 0;
    while i < av.len() && av[i] == bv[i]
        invariant
            i <= av@.len() == bv@.len(),
            forall|k: int| 0 <= k < i ==> av@[k] == bv@[k],
        decreases av@.len() - i,
    {
        i = i + 1;
    }
    if i == av.len() {
        assert(av@ =~= bv@);
        true
    } else {
        false
    }
}

/// `a < b` on strings.
pub fn str_lt(a: &str, b: &str) -> (r: bool)
    ensures
        r == seq_lt(a@, b@),
{
    let av = chars_of(a);
    let bv = chars_of(b);
    chars_lt(&av, &bv)
}

/// `a < b` on character vectors, lexicographically by code point.
pub fn chars_lt(a: &Vec<char>, b: &Vec<char>) -> (r: bool)
    ensures
        r == seq_lt(a@, b@),
{
    let mut i: usize = 0;
    assert(a@.skip(0) =~= a@);
    assert(b@.skip(0) =~= b@);
    while i < a.len() && i < b.len() && a[i] == b[i]
        invariant
            i <= a@.len(),
            i <= b@.len(),
            seq_lt(a@, b@) == seq_lt(a@.skip(i as int), b@.skip(i as int)),
        decreases a@.len() - i,
    {
        proof {
            let sa = a@.skip(i as int);
            let sb = b@.skip(i as int);
            assert(sa.drop_first() =~= a@.skip(i + 1));
            assert(sb.drop_first() =~= b@.skip(i + 1));
        }
        i = i + 1;
    }
    if i == a.len() {
        i < b.len()
    } else if i == b.len() {
        false
    } else {
        (a[i] as u32) < (b[i] as u32)
    }
}


/// `s` up to (not including) its first `c`; all of `s` when it has none.
pub open spec fn cut_at(s: Seq<char>, c: char) -> Seq<char>
    decreases s.len(),
{
    if s.len() == 0 {
        s
    } else if s[0] == c {
        Seq::empty()
    } else {
        seq![s[0]] + cut_at(s.drop_first(), c)
    }
}

/// How many times `c` occurs in `s`.
pub open spec fn count_char(s: Seq<char>, c: char) -> nat
    decreases s.len(),
{
    if s.len() == 0 {
        0
    } else {
        count_char(s.drop_last(), c) + if s.last() == c {
            1nat
        } else {
            0nat
        }
    }
}

/// A trailing `'/'` removed when the URL has a nonempty path, that is when it
/// holds more than three slashes.
pub open spec fn strip_path_slash(s: Seq<char>) -> Seq<char> {
    if s.len() > 0 && s.last() == '/' && count_char(s, '/') > 3 {
        s.drop_last()
    } else {
        s
    }
}

/// `s` split at every `c`, as `str::split` does: `k` occurrences of `c`
/// give `k + 1` parts, some of which may be empty.
pub open spec fn split_on(s: Seq<char>, c: char) -> Seq<Seq<char>>
    decreases s.len(),
{
    if s.len() == 0 {
        seq![Seq::empty()]
    } else {
        let parts = split_on(s.drop_last(), c);
        if s.last() == c {
            parts.push(Seq::empty())
        } else {
            parts.update(parts.len() - 1, parts.last().push(s.last()))
        }
    }
}

/// `parts` joined with `c` between each two of them.
pub open spec fn join_with(parts: Seq<Seq<char>>, c: char) -> Seq<char>
    decreases parts.len(),
{
    if parts.len() == 0 {
        Seq::empty()
    } else if parts.len() == 1 {
        parts[0]
    } else {
        join_with(parts.drop_last(), c).push(c) + parts.last()
    }
}

/// `c` is `l`, or `l` is an ASCII lowercase letter and `c` its capital.
pub open spec fn ascii_eq_nocase(c: char, l: char) -> bool {
    c == l || (0x61 <= (l as u32) <= 0x7A && (c as u32) + 32 == (l as u32))
}

/// `p` starts with `w`, ASCII letters compared without regard to case.
pub open spec fn starts_nocase(p: Seq<char>, w: Seq<char>) -> bool {
    w.len() <= p.len() && forall|i: int| 0 <= i < w.len() ==> ascii_eq_nocase(#[trigger] p[i], w[i])
}

/// The query parameter `p` (`name` or `name=value`) is named `w`, ignoring
/// ASCII case.
pub open spec fn param_named(p: Seq<char>, w: Seq<char>) -> bool {
    starts_nocase(p, w) && (p.len() == w.len() || p[w.len() as int] == '=')
}

/// A common tracking parameter: any `utm_*` campaign parameter, or `fbclid`
/// or `gclid` (names compared without regard to ASCII case).
pub open spec fn is_tracking_param(p: Seq<char>) -> bool {
    ||| starts_nocase(p, seq!['u', 't', 'm', '_'])
    ||| param_named(p, seq!['f', 'b', 'c', 'l', 'i', 'd'])
    ||| param_named(p, seq!['g', 'c', 'l', 'i', 'd'])
}

/// The parameters of `ps` that are not tracking parameters, in order.
pub open spec fn untracked(ps: Seq<Seq<char>>) -> Seq<Seq<char>>
    decreases ps.len(),
{
    if ps.len() == 0 {
        ps
    } else if is_tracking_param(ps.last()) {
        untracked(ps.drop_last())
    } else {
        untracked(ps.drop_last()).push(ps.last())
    }
}

/// The URL with its tracking query parameters removed: the query (what
/// follows the first `'?'`) is split at `'&'`, tracking parameters are
/// dropped, and the rest is joined again; when none is left, the `'?'` goes
/// too.
pub open spec fn strip_tracking(s: Seq<char>) -> Seq<char> {
    if !s.contains('?') {
        s
    } else {
        let base = cut_at(s, '?');
        let kept = untracked(split_on(s.skip(base.len() as int + 1), '&'));
        if kept.len() == 0 {
            base
        } else {
            base.push('?') + join_with(kept, '&')
        }
    }
}

/// The form in which URLs are compared: trimmed, fragment cut, tracking
/// query parameters removed, trailing path slash removed, lowercased.
pub open spec fn url_key(u: Seq<char>) -> Seq<char> {
    lowercase(strip_path_slash(strip_tracking(cut_at(trim_spec(u), '#'))))
}

/// The form in which titles are compared: words joined by single spaces,
/// lowercased.
pub open spec fn title_key(t: Seq<char>) -> Seq<char> {
    lowercase(collapse_whitespace(t))
}

proof fn lemma_cut_at_is_take(s: Seq<char>, c: char, i: int)
    requires
        0 <= i <= s.len(),
        forall|k: int| 0 <= k < i ==> #[trigger] s[k] != c,
        i == s.len() || s[i] == c,
    ensures
        cut_at(s, c) == s.take(i),
    decreases i,
{
    if i > 0 {
        lemma_cut_at_is_take(s.drop_first(), c, i - 1);
        assert(s.take(i) =~= seq![s[0]] + s.drop_first().take(i - 1));
    } else if s.len() == 0 {
        assert(s.take(0) =~= s);
    } else {
        assert(s.take(0) =~= Seq::<char>::empty());
    }
}

/// The position of the first `c` in `s`, or its length when it has none.
fn find_char(s: &Vec<char>, c: char) -> (i: usize)
    ensures
        i <= s@.len(),
        forall|k: int| 0 <= k < i ==> #[trigger] s@[k] != c,
        i == s@.len() || s@[i as int] == c,
        cut_at(s@, c) == s@.take(i as int),
{
    let mut i: usize = 0;
    while i < s.len() && s[i] != c
        invariant
            i <= s@.len(),
            forall|k: int| 0 <= k < i ==> #[trigger] s@[k] != c,
        decreases s@.len() - i,
    {
        i = i + 1;
    }
    proof {
        lemma_cut_at_is_take(s@, c, i as int);
    }
    i
}

/// The characters of `s` from position `from` up to (not including) `to`.
fn slice_chars(s: &Vec<char>, from: usize, to: usize) -> (r: Vec<char>)
    requires
        from <= to <= s@.len(),
    ensures
        r@ == s@.subrange(from as int, to as int),
{
    let mut r: Vec<char> = Vec::new();
    let mut k: usize = from;
    while k < to
        invariant
            from <= k <= to <= s@.len(),
            r@ =~= s@.subrange(from as int, k as int),
        decreases to - k,
    {
        r.push(s[k]);
        k = k + 1;
    }
    r
}

/// `s` truncated at its first `c`.
pub fn cut_before(s: &Vec<char>, c: char) -> (r: Vec<char>)
    ensures
        r@ == cut_at(s@, c),
{
    let i = find_char(s, c);
    let r = slice_chars(s, 0, i);
    assert(r@ =~= s@.take(i as int));
    r
}

/// Occurrences of `c` in `s`.
pub fn count_of(s: &Vec<char>, c: char) -> (r: usize)
    ensures
        r == count_char(s@, c),
{
    let mut r: usize = 0;
    for i in 0..s.len()
        invariant
            r == count_char(s@.take(i as int), c),
            r <= i,
    {
        assert(s@.take(i + 1).drop_last() =~= s@.take(i as int));
        if s[i] == c {
            r = r + 1;
        }
    }
    assert(s@.take(s@.len() as int) =~= s@);
    r
}

/// Drops a trailing `'/'` when the URL has more than three slashes.
pub fn strip_trailing_path_slash(s: &mut Vec<char>)
    ensures
        final(s)@ == strip_path_slash(old(s)@),
{
    if s.len() > 0 && s[s.len() - 1] == '/' && count_of(s, '/') > 3 {
        s.pop();
    }
}

/// The texts of a list of character vectors.
pub open spec fn views(v: Seq<Vec<char>>) -> Seq<Seq<char>> {
    v.map_values(|x: Vec<char>| x@)
}

fn ascii_eq_nocase_exec(c: char, l: char) -> (r: bool)
    ensures
        r == ascii_eq_nocase(c, l),
{
    let lu = l as u32;
    let cu = c as u32;
    c == l || (0x61 <= lu && lu <= 0x7A && cu + 32 == lu)
}

/// Whether `p` starts with `w`, ignoring ASCII case.
fn starts_with_nocase(p: &Vec<char>, w: &Vec<char>) -> (r: bool)
    ensures
        r == starts_nocase(p@, w@),
{
    if w.len() > p.len() {
        return false;
    }
    let mut i: usize = 0;
    while i < w.len()
        invariant
            i <= w@.len() <= p@.len(),
            forall|k: int| 0 <= k < i ==> ascii_eq_nocase(#[trigger] p@[k], w@[k]),
        decreases w@.len() - i,
    {
        if !ascii_eq_nocase_exec(p[i], w[i]) {
            return false;
        }
        i = i + 1;
    }
    true
}

/// Whether the query parameter `p` is named `w`, ignoring ASCII case.
fn named_param(p: &Vec<char>, w: &Vec<char>) -> (r: bool)
    ensures
        r == param_named(p@, w@),
{
    starts_with_nocase(p, w) && (p.len() == w.len() || p[w.len()] == '=')
}

/// Whether the query parameter `p` is a tracking parameter.
pub fn is_tracking(p: &Vec<char>) -> (r: bool)
    ensures
        r == is_tracking_param(p@),
{
    let utm = vec!['u', 't', 'm', '_'];
    let fbclid = vec!['f', 'b', 'c', 'l', 'i', 'd'];
    let gclid = vec!['g', 'c', 'l', 'i', 'd'];
    assert(utm@ =~= seq!['u', 't', 'm', '_']);
    assert(fbclid@ =~= seq!['f', 'b', 'c', 'l', 'i', 'd']);
    assert(gclid@ =~= seq!['g', 'c', 'l', 'i', 'd']);
    starts_with_nocase(p, &utm) || named_param(p, &fbclid) || named_param(p, &gclid)
}

/// `out` with the characters of `v` appended.
fn append_chars(out: &mut Vec<char>, v: &Vec<char>)
    ensures
        final(out)@ == old(out)@ + v@,
{
    let ghost start = out@;
    let mut k: usize = 0;
    while k < v.len()
        invariant
            k <= v@.len(),
            out@ =~= start + v@.take(k as int),
        decreases v@.len() - k,
    {
        out.push(v[k]);
        k = k + 1;
    }
    assert(v@.take(v@.len() as int) =~= v@);
}

/// `s` with its tracking query parameters removed: `strip_tracking`.
pub fn strip_tracking_params(s: &Vec<char>) -> (r: Vec<char>)
    ensures
        r@ == strip_tracking(s@),
{
    let n = s.len();
    let q = find_char(s, '?');
    if q == n {
        assert(!s@.contains('?'));
        let r = slice_chars(s, 0, n);
        assert(r@ =~= s@);
        return r;
    }
    assert(s@.contains('?')) by {
        assert(s@[q as int] == '?');
    }
    let ghost base = s@.take(q as int);
    let ghost query = s@.skip(q + 1);
    let ghost mut done: Seq<Seq<char>> = Seq::empty();
    let mut kept: Vec<Vec<char>> = Vec::new();
    let mut cur: Vec<char> = Vec::new();
    let mut i: usize = q + 1;
    assert(s@.subrange(q + 1, i as int) =~= Seq::<char>::empty());
    assert(split_on(Seq::<char>::empty(), '&') =~= done.push(cur@));
    while i < n
        invariant
            q < i <= n == s@.len(),
            split_on(s@.subrange(q + 1, i as int), '&') == done.push(cur@),
            views(kept@) == untracked(done),
        decreases n - i,
    {
        let c = s[i];
        let ghost t = s@.subrange(q + 1, i + 1);
        assert(t.drop_last() =~= s@.subrange(q + 1, i as int));
        assert(t.last() == c);
        if c == '&' {
            let tracking = is_tracking(&cur);
            proof {
                assert(split_on(t, '&') == done.push(cur@).push(Seq::empty()));
                let d0 = done;
                done = done.push(cur@);
                assert(done.drop_last() =~= d0);
            }
            if !tracking {
                let ghost k0 = kept@;
                kept.push(cur);
                assert(views(kept@) =~= views(k0).push(done.last()));
            }
            cur = Vec::new();
        } else {
            let ghost c0 = cur@;
            cur.push(c);
            proof {
                let parts = done.push(c0);
                assert(split_on(t, '&') == parts.update(parts.len() - 1, parts.last().push(c)));
                assert(parts.update(parts.len() - 1, parts.last().push(c)) =~= done.push(cur@));
            }
        }
        i = i + 1;
    }
    assert(s@.subrange(q + 1, n as int) =~= query);
    let ghost all = done.push(cur@);
    assert(all.drop_last() =~= done);
    if !is_tracking(&cur) {
        let ghost k0 = kept@;
        kept.push(cur);
        assert(views(kept@) =~= views(k0).push(all.last()));
    }
    assert(views(kept@) == untracked(split_on(query, '&')));
    assert(cut_at(s@, '?') == base);
    assert(base.len() == q);
    let mut out = slice_chars(s, 0, q);
    assert(out@ =~= base);
    if kept.len() == 0 {
        return out;
    }
    out.push('?');
    let ghost kv = views(kept@);
    let mut j: usize = 0;
    assert(kv.take(0) =~= Seq::<Seq<char>>::empty());
    while j < kept.len()
        invariant
            j <= kept@.len() == kv.len(),
            kv == views(kept@),
            out@ == base.push('?') + join_with(kv.take(j as int), '&'),
        decreases kept@.len() - j,
    {
        let ghost before_j = out@;
        let ghost tj = kv.take(j + 1);
        assert(tj.drop_last() =~= kv.take(j as int));
        assert(tj.last() == kept@[j as int]@);
        if j > 0 {
            out.push('&');
        }
        append_chars(&mut out, &kept[j]);
        proof {
            if j == 0 {
                assert(join_with(tj, '&') == tj[0]);
                assert(out@ =~= base.push('?') + join_with(tj, '&'));
            } else {
                assert(out@ =~= base.push('?') + (join_with(kv.take(j as int), '&').push('&')
                    + kept@[j as int]@));
            }
        }
        j = j + 1;
    }
    assert(kv.take(kv.len() as int) =~= kv);
    out
}

/// The comparison form of a URL: `url_key`.
pub fn canonical_url(u: &str) -> (r: String)
    ensures
        r@ == url_key(u@),
{
    let chars = chars_of(u);
    let trimmed = trim_chars(&chars);
    let cut = cut_before(&trimmed, '#');
    let mut cut = strip_tracking_params(&cut);
    strip_trailing_path_slash(&mut cut);
    let s = string_from_chars(&cut);
    to_lowercase(s.as_str())
}

/// The comparison form of a title: `title_key`.
pub fn canonical_title(t: &str) -> (r: String)
    ensures
        r@ == title_key(t@),
{
    let chars = chars_of(t);
    let collapsed = collapse_chars(&chars);
    let s = string_from_chars(&collapsed);
    to_lowercase(s.as_str())
}

/// A URL with no white space, `'#'` or `'?'` is its own trimmed,
/// fragment-cut and tracking-stripped form.
proof fn lemma_plain_url_prefix(u: Seq<char>)
    requires
        forall|k: int|
            0 <= k < u.len() ==> !is_whitespace_char(#[trigger] u[k]) && u[k] != '#' && u[k] != '?',
    ensures
        strip_tracking(cut_at(trim_spec(u), '#')) == u,
{
    lemma_trim_start_is_skip(u, 0);
    assert(u.skip(0) =~= u);
    lemma_trim_end_is_take(u, u.len() as int);
    assert(u.take(u.len() as int) =~= u);
    lemma_cut_at_is_take(u, '#', u.len() as int);
    assert(!u.contains('?'));
}

/// A trailing `'/'` is dropped from every URL with a nonempty path (more
/// than three slashes), whatever its depth: for a URL with no white space,
/// `'#'` or `'?'`, the key is the lowercased URL without that slash, and it
/// is the key of the URL without it, unless a second slash precedes it.
pub proof fn law_trailing_slash_dropped(u: Seq<char>)
    requires
        forall|k: int|
            0 <= k < u.len() ==> !is_whitespace_char(#[trigger] u[k]) && u[k] != '#' && u[k] != '?',
        u.len() > 0,
        u.last() == '/',
        count_char(u, '/') > 3,
    ensures
        url_key(u) == lowercase(u.drop_last()),
        u.len() > 1 && u[u.len() - 2] != '/' ==> url_key(u) == url_key(u.drop_last()),
{
    lemma_plain_url_prefix(u);
    let v = u.drop_last();
    assert forall|k: int| 0 <= k < v.len() implies !is_whitespace_char(#[trigger] v[k]) && v[k]
        != '#' && v[k] != '?' by {
        assert(v[k] == u[k]);
    }
    lemma_plain_url_prefix(v);
    if u.len() > 1 {
        assert(v.last() == u[u.len() - 2]);
    }
}

} // verus!
