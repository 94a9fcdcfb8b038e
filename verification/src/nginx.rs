//! Extraction of a named log format template from nginx configuration text.
//!
//! A `log_format` directive names a template and gives its body as one or
//! more quoted fragments, possibly spread over several physical lines and
//! ended by a `;` once every grouping brace outside of quotes is balanced.
//! Extraction locates the directive, gathers its fragments, strips one
//! quote layer from each, joins them and normalizes whitespace, yielding
//! the single-line format string.

use vstd::prelude::*;

use crate::error::Error;
use crate::text::is_space;
use crate::text::space_char;

verus! {

// ---------------------------------------------------------------------------
// Physical lines

/// The position of the line break at or after `i`: the next `'\n'`, or the
/// end of the text.
pub open spec fn line_break(s: Seq<char>, i: int) -> int
    decreases s.len() - i,
    when 0 <= i <= s.len()
{
    if i < s.len() && s[i] != '\n' {
        line_break(s, i + 1)
    } else {
        i
    }
}

/// A line without its trailing carriage return, if it has one.
pub open spec fn strip_cr(l: Seq<char>) -> Seq<char> {
    if l.len() > 0 && l.last() == '\r' {
        l.drop_last()
    } else {
        l
    }
}

proof fn lemma_line_break_bounds(s: Seq<char>, i: int)
    requires
        0 <= i <= s.len(),
    ensures
        i <= line_break(s, i) <= s.len(),
    decreases s.len() - i,
{
    if i < s.len() && s[i] != '\n' {
        lemma_line_break_bounds(s, i + 1);
    }
}

proof fn lemma_line_break_is(s: Seq<char>, a: int, b: int)
    requires
        0 <= a <= b <= s.len(),
        forall|k: int| a <= k < b ==> s[k] != '\n',
        b == s.len() || s[b] == '\n',
    ensures
        line_break(s, a) == b,
    decreases b - a,
{
    if a < b {
        lemma_line_break_is(s, a + 1, b);
    }
}

/// The physical lines of the text from `i` on, split at `'\n'`, each
/// without its line break and without a trailing carriage return.
pub open spec fn lines_from(s: Seq<char>, i: int) -> Seq<Seq<char>>
    decreases s.len() - i,
    when 0 <= i <= s.len()
    via lines_from_dec
{
    if i >= s.len() {
        Seq::empty()
    } else {
        let e = line_break(s, i);
        if e >= s.len() {
            seq![strip_cr(s.subrange(i, e))]
        } else {
            seq![strip_cr(s.subrange(i, e))] + lines_from(s, e + 1)
        }
    }
}

#[via_fn]
proof fn lines_from_dec(s: Seq<char>, i: int) {
    if 0 <= i < s.len() {
        lemma_line_break_bounds(s, i);
    }
}

// ---------------------------------------------------------------------------
// Whitespace trimming

/// The first position at or after `i` whose character is not whitespace, or
/// the end of the text.
pub open spec fn skip_space(s: Seq<char>, i: int) -> int
    decreases s.len() - i,
    when 0 <= i <= s.len()
{
    if i < s.len() && is_space(s[i]) {
        skip_space(s, i + 1)
    } else {
        i
    }
}

/// The end of the text once trailing whitespace before `j` is dropped.
pub open spec fn trim_end_idx(s: Seq<char>, j: int) -> int
    decreases j,
    when 0 <= j <= s.len()
{
    if j > 0 && is_space(s[j - 1]) {
        trim_end_idx(s, j - 1)
    } else {
        j
    }
}

/// The text without leading and trailing whitespace.
pub open spec fn trim(s: Seq<char>) -> Seq<char> {
    let a = skip_space(s, 0);
    let b = trim_end_idx(s, s.len() as int);
    if a < b {
        s.subrange(a, b)
    } else {
        Seq::empty()
    }
}

proof fn lemma_skip_space_bounds(s: Seq<char>, i: int)
    requires
        0 <= i <= s.len(),
    ensures
        i <= skip_space(s, i) <= s.len(),
    decreases s.len() - i,
{
    if i < s.len() && is_space(s[i]) {
        lemma_skip_space_bounds(s, i + 1);
    }
}

proof fn lemma_skip_space_is(s: Seq<char>, a: int, b: int)
    requires
        0 <= a <= b <= s.len(),
        forall|k: int| a <= k < b ==> is_space(s[k]),
        b == s.len() || !is_space(s[b]),
    ensures
        skip_space(s, a) == b,
    decreases b - a,
{
    if a < b {
        lemma_skip_space_is(s, a + 1, b);
    }
}

proof fn lemma_trim_end_bounds(s: Seq<char>, j: int)
    requires
        0 <= j <= s.len(),
    ensures
        0 <= trim_end_idx(s, j) <= j,
    decreases j,
{
    if j > 0 && is_space(s[j - 1]) {
        lemma_trim_end_bounds(s, j - 1);
    }
}

proof fn lemma_trim_end_is(s: Seq<char>, j: int, b: int)
    requires
        0 <= b <= j <= s.len(),
        forall|k: int| b <= k < j ==> is_space(s[k]),
        b == 0 || !is_space(s[b - 1]),
    ensures
        trim_end_idx(s, j) == b,
    decreases j - b,
{
    if b < j {
        lemma_trim_end_is(s, j - 1, b);
    }
}

/// Trim leading and trailing whitespace from a character vector.
fn trim_vec(v: &Vec<char>) -> (r: Vec<char>)
    ensures
        r@ == trim(v@),
{
    let len = v.len();
    let mut a: usize = 0;
    while a < len && space_char(v[a])
        invariant
            a <= len,
            len == v@.len(),
            forall|k: int| 0 <= k < a ==> is_space(v@[k]),
        decreases len - a,
    {
        a += 1;
    }
    let mut b: usize = len;
    while b > 0 && space_char(v[b - 1])
        invariant
            0 <= b <= len,
            len == v@.len(),
            forall|k: int| b <= k < len ==> is_space(v@[k]),
        decreases b,
    {
        b -= 1;
    }
    proof {
        lemma_skip_space_is(v@, 0, a as int);
        lemma_trim_end_is(v@, len as int, b as int);
    }
    if a < b {
        crate::parser::vec_range(v, a, b)
    } else {
        let r: Vec<char> = Vec::new();
        proof {
            assert(r@ =~= trim(v@));
        }
        r
    }
}

// ---------------------------------------------------------------------------
// Brace counting

/// One step of the brace scan: `esc` is whether the previous character was
/// an unconsumed backslash, `inq` whether the scan is inside a quoted
/// sub-string, `cnt` the net count of opening minus closing braces seen
/// outside of quotes.
pub open spec fn brace_step(st: (bool, bool, int), c: char) -> (bool, bool, int) {
    if st.0 {
        (false, st.1, st.2)
    } else if c == '\\' {
        (true, st.1, st.2)
    } else if c == '"' || c == '\'' {
        (false, !st.1, st.2)
    } else if c == '{' && !st.1 {
        (false, st.1, st.2 + 1)
    } else if c == '}' && !st.1 {
        (false, st.1, st.2 - 1)
    } else {
        (false, st.1, st.2)
    }
}

/// The brace scan state after reading the text from `i` on.
pub open spec fn brace_fold(s: Seq<char>, i: int, st: (bool, bool, int)) -> (bool, bool, int)
    decreases s.len() - i,
    when 0 <= i <= s.len()
{
    if i >= s.len() {
        st
    } else {
        brace_fold(s, i + 1, brace_step(st, s[i]))
    }
}

/// The net count of opening minus closing grouping braces in a text,
/// ignoring braces inside quoted sub-strings, where a backslash escapes the
/// character after it.
pub open spec fn net_braces(s: Seq<char>) -> int {
    brace_fold(s, 0, (false, false, 0)).2
}

/// Count opening minus closing braces in a character vector.
fn net_braces_vec(v: &Vec<char>) -> (r: i128)
    ensures
        r == net_braces(v@),
        -(v@.len() as int) <= r <= v@.len() as int,
{
    let len = v.len();
    let mut esc = false;
    let mut inq = false;
    let mut cnt: i128 = 0;
    let mut i: usize = 0;
    while i < len
        invariant
            i <= len,
            len == v@.len(),
            len <= usize::MAX,
            brace_fold(v@, i as int, (esc, inq, cnt as int)) == brace_fold(
                v@,
                0,
                (false, false, 0),
            ),
            -(i as int) <= cnt <= i as int,
        decreases len - i,
    {
        let c = v[i];
        if esc {
            esc = false;
        } else if c == '\\' {
            esc = true;
        } else if c == '"' || c == '\'' {
            inq = !inq;
        } else if c == '{' && !inq {
            cnt = cnt + 1;
        } else if c == '}' && !inq {
            cnt = cnt - 1;
        }
        i += 1;
    }
    cnt
}

/// Count opening and closing braces in a string: the net count of opening
/// minus closing grouping braces, not counting braces inside quoted
/// sub-strings; a backslash escapes the character after it, so an escaped
/// quote does not toggle the quote state.
///
/// The length bound keeps the count inside the result type.
pub fn count_braces(s: &str) -> (r: i32)
    requires
        s@.len() < 0x8000_0000,
    ensures
        r == net_braces(s@),
{
    let v = crate::text::str_chars(s);
    let n = net_braces_vec(&v);
    n as i32
}

// ---------------------------------------------------------------------------
// Quote stripping

/// The text once trimmed and stripped of one layer of matching surrounding
/// quotes, single or double.
pub open spec fn strip_quotes(s: Seq<char>) -> Seq<char> {
    let t = trim(s);
    if t.len() >= 2 && ((t[0] == '"' && t.last() == '"') || (t[0] == '\'' && t.last() == '\'')) {
        t.subrange(1, t.len() - 1)
    } else {
        t
    }
}

/// Strip one layer of matching surrounding quotes from a trimmed copy of a
/// character vector.
fn strip_quotes_vec(v: &Vec<char>) -> (r: Vec<char>)
    ensures
        r@ == strip_quotes(v@),
{
    let t = trim_vec(v);
    let n = t.len();
    if n >= 2 && ((t[0] == '"' && t[n - 1] == '"') || (t[0] == '\'' && t[n - 1] == '\'')) {
        crate::parser::vec_range(&t, 1, n - 1)
    } else {
        t
    }
}

/// Remove surrounding quotes from a string: the string is trimmed, and one
/// layer of matching single or double quotes around the whole of it is
/// removed.
pub fn remove_surrounding_quotes(s: &str) -> (r: String)
    ensures
        r@ == strip_quotes(s@),
{
    let v = crate::text::str_chars(s);
    let t = strip_quotes_vec(&v);
    crate::text::chars_to_string(&t)
}

// ---------------------------------------------------------------------------
// The directive head

/// The directive keyword.
pub open spec fn log_format_kw() -> Seq<char> {
    seq!['l', 'o', 'g', '_', 'f', 'o', 'r', 'm', 'a', 't']
}

/// The first fragment of the directive body, when the trimmed line `t`
/// starts the directive for `name`: the keyword, whitespace, the exact
/// name, whitespace, and then at least one further character, which begins
/// the returned rest of the line.
pub open spec fn dir_rest(t: Seq<char>, name: Seq<char>) -> Option<Seq<char>> {
    if t.len() <= 10 || t.subrange(0, 10) != log_format_kw() {
        None
    } else if !is_space(t[10]) {
        None
    } else {
        let p = skip_space(t, 10);
        if p + name.len() > t.len() || t.subrange(p, p + name.len()) != name {
            None
        } else {
            let q = p + name.len();
            if q >= t.len() || !is_space(t[q]) {
                None
            } else {
                let r = skip_space(t, q);
                if r >= t.len() {
                    None
                } else {
                    Some(t.subrange(r, t.len() as int))
                }
            }
        }
    }
}

proof fn lemma_dir_rest_props(t: Seq<char>, name: Seq<char>)
    requires
        dir_rest(t, name) is Some,
    ensures
        dir_rest(t, name).unwrap().len() > 0,
        dir_rest(t, name).unwrap().len() <= t.len(),
{
    lemma_skip_space_bounds(t, 10);
    let p = skip_space(t, 10);
    let q = p + name.len();
    lemma_skip_space_bounds(t, q);
}

/// Build the directive keyword as characters.
fn kw_vec() -> (v: Vec<char>)
    ensures
        v@ == log_format_kw(),
{
    let mut v: Vec<char> = Vec::new();
    v.push('l');
    v.push('o');
    v.push('g');
    v.push('_');
    v.push('f');
    v.push('o');
    v.push('r');
    v.push('m');
    v.push('a');
    v.push('t');
    proof {
        assert(v@ =~= log_format_kw());
    }
    v
}

/// Compare the characters of `t` from `off` on with `w`.
fn vec_eq_at(t: &Vec<char>, off: usize, w: &Vec<char>) -> (r: bool)
    requires
        off + w@.len() <= t@.len(),
    ensures
        r == (t@.subrange(off as int, off + w@.len()) == w@),
{
    let tl = t.len();
    let mut k: usize = 0;
    while k < w.len()
        invariant
            k <= w@.len(),
            off + w@.len() <= t@.len(),
            tl == t@.len(),
            forall|j: int| 0 <= j < k ==> t@[off + j] == w@[j],
        decreases w@.len() - k,
    {
        if t[off + k] != w[k] {
            proof {
                assert(t@.subrange(off as int, off + w@.len())[k as int] == t@[off + k]);
            }
            return false;
        }
        k += 1;
    }
    proof {
        assert(t@.subrange(off as int, off + w@.len()) =~= w@);
    }
    true
}

/// Match the trimmed line `t` against the directive head for `name`.
fn dir_match(t: &Vec<char>, name: &Vec<char>) -> (r: Option<Vec<char>>)
    ensures
        dir_rest(t@, name@) matches Some(rest) ==> (r matches Some(v) && v@ == rest),
        dir_rest(t@, name@) is None ==> r is None,
{
    let len = t.len();
    if len <= 10 {
        return None;
    }
    let kw = kw_vec();
    if !vec_eq_at(t, 0, &kw) {
        return None;
    }
    if !space_char(t[10]) {
        return None;
    }
    let mut p: usize = 10;
    while p < len && space_char(t[p])
        invariant
            10 <= p <= len,
            len == t@.len(),
            forall|k: int| 10 <= k < p ==> is_space(t@[k]),
        decreases len - p,
    {
        p += 1;
    }
    proof {
        lemma_skip_space_is(t@, 10, p as int);
    }
    if name.len() > len - p {
        return None;
    }
    if !vec_eq_at(t, p, name) {
        return None;
    }
    let q = p + name.len();
    if q >= len || !space_char(t[q]) {
        return None;
    }
    let mut r2: usize = q;
    while r2 < len && space_char(t[r2])
        invariant
            q <= r2 <= len,
            len == t@.len(),
            forall|k: int| q <= k < r2 ==> is_space(t@[k]),
        decreases len - r2,
    {
        r2 += 1;
    }
    proof {
        lemma_skip_space_is(t@, q as int, r2 as int);
    }
    if r2 >= len {
        return None;
    }
    Some(crate::parser::vec_range(t, r2, len))
}

// ---------------------------------------------------------------------------
// Scanning the configuration

/// Whether a trimmed line is ignored by the scan: blank, or a comment.
pub open spec fn is_comment_or_blank(t: Seq<char>) -> bool {
    t.len() == 0 || t[0] == '#'
}

/// The fragments accumulated from `lines[i]` on, once the directive head
/// has been found: each further non-blank, non-comment line is a fragment,
/// until one ends with the statement terminator while the running brace
/// count is zero.  Input that ends first leaves the fragments as they are.
pub open spec fn collect_frags(
    lines: Seq<Seq<char>>,
    i: int,
    acc: Seq<Seq<char>>,
    brace: int,
) -> Seq<Seq<char>>
    decreases lines.len() - i,
    when 0 <= i <= lines.len()
{
    if i >= lines.len() {
        acc
    } else {
        let t = trim(lines[i]);
        if is_comment_or_blank(t) {
            collect_frags(lines, i + 1, acc, brace)
        } else {
            let b2 = brace + net_braces(t);
            if t.len() > 0 && t.last() == ';' && b2 == 0 {
                acc.push(t)
            } else {
                collect_frags(lines, i + 1, acc.push(t), b2)
            }
        }
    }
}

/// The directive's fragments, searching from `lines[i]` on: `None` when no
/// line starts the directive for `name`.
pub open spec fn scan_directive(lines: Seq<Seq<char>>, i: int, name: Seq<char>) -> Option<
    Seq<Seq<char>>,
>
    decreases lines.len() - i,
    when 0 <= i <= lines.len()
{
    if i >= lines.len() {
        None
    } else {
        let t = trim(lines[i]);
        if is_comment_or_blank(t) {
            scan_directive(lines, i + 1, name)
        } else {
            match dir_rest(t, name) {
                Option::Some(rest) => {
                    let b = net_braces(rest);
                    if rest.len() > 0 && rest.last() == ';' && b == 0 {
                        Some(seq![rest])
                    } else {
                        Some(collect_frags(lines, i + 1, seq![rest], b))
                    }
                },
                Option::None => scan_directive(lines, i + 1, name),
            }
        }
    }
}

// ---------------------------------------------------------------------------
// Reassembly

/// A text without one trailing statement terminator, if it has one.
pub open spec fn strip_semi(t: Seq<char>) -> Seq<char> {
    if t.len() > 0 && t.last() == ';' {
        t.drop_last()
    } else {
        t
    }
}

/// One fragment cleaned: its trailing terminator dropped, then one quote
/// layer stripped.
pub open spec fn clean_frag(t: Seq<char>) -> Seq<char> {
    strip_quotes(strip_semi(t))
}

/// Texts joined by single spaces.
pub open spec fn join_sp(frags: Seq<Seq<char>>) -> Seq<char>
    decreases frags.len(),
{
    if frags.len() == 0 {
        Seq::empty()
    } else if frags.len() == 1 {
        frags[0]
    } else {
        join_sp(frags.drop_last()) + seq![' '] + frags.last()
    }
}

/// The end of the whitespace-free run starting at `i`.
pub open spec fn word_end_at(s: Seq<char>, i: int) -> int
    decreases s.len() - i,
    when 0 <= i <= s.len()
{
    if i < s.len() && !is_space(s[i]) {
        word_end_at(s, i + 1)
    } else {
        i
    }
}

proof fn lemma_word_end_at_bounds(s: Seq<char>, i: int)
    requires
        0 <= i <= s.len(),
    ensures
        i <= word_end_at(s, i) <= s.len(),
    decreases s.len() - i,
{
    if i < s.len() && !is_space(s[i]) {
        lemma_word_end_at_bounds(s, i + 1);
    }
}

proof fn lemma_word_end_at_is(s: Seq<char>, a: int, b: int)
    requires
        0 <= a <= b <= s.len(),
        forall|k: int| a <= k < b ==> !is_space(s[k]),
        b == s.len() || is_space(s[b]),
    ensures
        word_end_at(s, a) == b,
    decreases b - a,
{
    if a < b {
        lemma_word_end_at_is(s, a + 1, b);
    }
}

proof fn lemma_skip_space_stops(s: Seq<char>, i: int)
    requires
        0 <= i <= s.len(),
    ensures
        skip_space(s, i) == s.len() || !is_space(s[skip_space(s, i)]),
    decreases s.len() - i,
{
    if i < s.len() && is_space(s[i]) {
        lemma_skip_space_stops(s, i + 1);
    }
}

/// The whitespace-delimited words of a text, in order.
pub open spec fn words_from(s: Seq<char>, i: int) -> Seq<Seq<char>>
    decreases s.len() - i,
    when 0 <= i <= s.len()
    via words_from_dec
{
    let a = skip_space(s, i);
    if a >= s.len() {
        Seq::empty()
    } else {
        seq![s.subrange(a, word_end_at(s, a))] + words_from(s, word_end_at(s, a))
    }
}

#[via_fn]
proof fn words_from_dec(s: Seq<char>, i: int) {
    if 0 <= i <= s.len() {
        lemma_skip_space_bounds(s, i);
        lemma_skip_space_stops(s, i);
        let a = skip_space(s, i);
        if a < s.len() {
            lemma_word_end_at_bounds(s, a + 1);
            assert(word_end_at(s, a) == word_end_at(s, a + 1));
        }
    }
}

/// Runs of whitespace collapsed to single spaces, outer whitespace dropped.
pub open spec fn collapse_ws(s: Seq<char>) -> Seq<char> {
    join_sp(words_from(s, 0))
}

/// The format string assembled from the directive's fragments: each
/// fragment cleaned, the fragments joined by single spaces, a trailing
/// terminator and one layer of surrounding quotes removed from the joined
/// whole, and internal whitespace runs collapsed to single spaces.
pub open spec fn reassemble(frags: Seq<Seq<char>>) -> Seq<char> {
    collapse_ws(strip_quotes(strip_semi(join_sp(frags.map_values(|t: Seq<char>| clean_frag(t))))))
}

/// What extraction yields on a configuration text: the reassembled format
/// of the named directive, or nothing when no line starts it.
pub open spec fn spec_extract(config: Seq<char>, name: Seq<char>) -> Option<Seq<char>> {
    match scan_directive(lines_from(config, 0), 0, name) {
        Option::Some(frags) => Some(reassemble(frags)),
        Option::None => None,
    }
}

/// The scan comes back empty exactly when no line from `i` on starts the
/// directive: every such line is blank, a comment, or a line whose trimmed
/// text does not match the directive head for `name`.  With
/// `extract_nginx_format`'s contract this pins down when extraction fails
/// with `NginxFormatNotFound`.
pub proof fn lemma_scan_directive_none(lines: Seq<Seq<char>>, i: int, name: Seq<char>)
    requires
        0 <= i <= lines.len(),
    ensures
        scan_directive(lines, i, name) is None <==> (forall|j: int|
            i <= j < lines.len() ==> (is_comment_or_blank(trim(lines[j])) || dir_rest(
                trim(lines[j]),
                name,
            ) is None)),
    decreases lines.len() - i,
{
    if i < lines.len() {
        lemma_scan_directive_none(lines, i + 1, name);
    }
}

/// Extraction is deterministic: extracting the same named directive twice
/// from the same configuration text yields identical format strings.  A
/// successful extraction returns exactly `spec_extract`'s value for its
/// inputs, so two results of one extraction agree.
pub proof fn lemma_extract_idempotent(
    config: Seq<char>,
    name: Seq<char>,
    first: Seq<char>,
    second: Seq<char>,
)
    requires
        spec_extract(config, name) == Some(first),
        spec_extract(config, name) == Some(second),
    ensures
        first == second,
{
}

// ---------------------------------------------------------------------------
// Executable extraction

/// The character-level value of a vector of lines.
pub open spec fn lines_view(s: Seq<Vec<char>>) -> Seq<Seq<char>> {
    s.map_values(|l: Vec<char>| l@)
}

/// The total length of a sequence of texts.
pub open spec fn len_sum(ls: Seq<Seq<char>>) -> int
    decreases ls.len(),
{
    if ls.len() == 0 {
        0
    } else {
        len_sum(ls.drop_last()) + ls.last().len()
    }
}

proof fn lemma_len_sum_nonneg(ls: Seq<Seq<char>>)
    ensures
        len_sum(ls) >= 0,
    decreases ls.len(),
{
    if ls.len() > 0 {
        lemma_len_sum_nonneg(ls.drop_last());
    }
}

proof fn lemma_len_sum_single(x: Seq<char>)
    ensures
        len_sum(seq![x]) == x.len(),
{
    assert(seq![x].len() == 1);
    assert(seq![x].drop_last() =~= Seq::<Seq<char>>::empty());
    assert(len_sum(Seq::<Seq<char>>::empty()) == 0);
    assert(seq![x].last() == x);
}

proof fn lemma_len_sum_concat(a: Seq<Seq<char>>, b: Seq<Seq<char>>)
    ensures
        len_sum(a + b) == len_sum(a) + len_sum(b),
    decreases b.len(),
{
    if b.len() == 0 {
        assert(a + b =~= a);
    } else {
        assert((a + b).drop_last() =~= a + b.drop_last());
        assert((a + b).last() == b.last());
        lemma_len_sum_concat(a, b.drop_last());
    }
}

proof fn lemma_len_sum_take_succ(ls: Seq<Seq<char>>, k: int)
    requires
        0 <= k < ls.len(),
    ensures
        len_sum(ls.take(k + 1)) == len_sum(ls.take(k)) + ls[k].len(),
{
    assert(ls.take(k + 1).drop_last() =~= ls.take(k));
    assert(ls.take(k + 1).last() == ls[k]);
}

proof fn lemma_len_sum_take_le(ls: Seq<Seq<char>>, k: int)
    requires
        0 <= k <= ls.len(),
    ensures
        len_sum(ls.take(k)) <= len_sum(ls),
    decreases ls.len() - k,
{
    if k < ls.len() {
        lemma_len_sum_take_succ(ls, k);
        lemma_len_sum_take_le(ls, k + 1);
    } else {
        assert(ls.take(k) =~= ls);
    }
}

proof fn lemma_lines_len_sum(s: Seq<char>, i: int)
    requires
        0 <= i <= s.len(),
    ensures
        len_sum(lines_from(s, i)) <= s.len() - i,
    decreases s.len() - i,
{
    if i < s.len() {
        lemma_line_break_bounds(s, i);
        let e = line_break(s, i);
        let first = strip_cr(s.subrange(i, e));
        assert(first.len() <= e - i);
        lemma_len_sum_single(first);
        if e < s.len() {
            lemma_lines_len_sum(s, e + 1);
            lemma_len_sum_concat(seq![first], lines_from(s, e + 1));
        }
    }
}

proof fn lemma_trim_len(l: Seq<char>)
    ensures
        trim(l).len() <= l.len(),
{
    lemma_skip_space_bounds(l, 0);
    lemma_trim_end_bounds(l, l.len() as int);
}

/// Split a text into its physical lines.
fn split_lines(cfg: &Vec<char>) -> (r: Vec<Vec<char>>)
    ensures
        lines_view(r@) == lines_from(cfg@, 0),
{
    let len = cfg.len();
    let mut out: Vec<Vec<char>> = Vec::new();
    let mut i: usize = 0;
    proof {
        assert(lines_view(out@) + lines_from(cfg@, 0) =~= lines_from(cfg@, 0));
    }
    while i < len
        invariant
            i <= len,
            len == cfg@.len(),
            lines_view(out@) + lines_from(cfg@, i as int) =~= lines_from(cfg@, 0),
        decreases len - i,
    {
        let mut e: usize = i;
        while e < len && cfg[e] != '\n'
            invariant
                i <= e <= len,
                len == cfg@.len(),
                forall|k: int| i <= k < e ==> cfg@[k] != '\n',
            decreases len - e,
        {
            e += 1;
        }
        proof {
            lemma_line_break_is(cfg@, i as int, e as int);
        }
        let mut line = crate::parser::vec_range(cfg, i, e);
        if line.len() > 0 && line[line.len() - 1] == '\r' {
            line.pop();
        }
        proof {
            assert(line@ =~= strip_cr(cfg@.subrange(i as int, e as int)));
        }
        out.push(line);
        proof {
            assert(lines_view(out@) =~= lines_view(out@.drop_last()).push(line@));
            if e >= len {
                assert(lines_from(cfg@, i as int) =~= seq![line@]);
                assert(lines_view(out@) + lines_from(cfg@, len as int) =~= lines_from(cfg@, 0));
            } else {
                assert(lines_from(cfg@, i as int) =~= seq![line@] + lines_from(cfg@, e + 1));
                assert(lines_view(out@) + lines_from(cfg@, e + 1) =~= lines_from(cfg@, 0));
            }
        }
        if e >= len {
            i = len;
        } else {
            i = e + 1;
        }
    }
    proof {
        assert(lines_view(out@) =~= lines_view(out@) + lines_from(cfg@, len as int));
    }
    out
}

/// Drop one trailing statement terminator from a copy of `t`.
fn strip_semi_vec(t: &Vec<char>) -> (r: Vec<char>)
    ensures
        r@ == strip_semi(t@),
{
    let n = t.len();
    if n > 0 && t[n - 1] == ';' {
        let r = crate::parser::vec_range(t, 0, n - 1);
        proof {
            assert(r@ =~= strip_semi(t@));
        }
        r
    } else {
        let r = crate::parser::vec_range(t, 0, n);
        proof {
            assert(r@ =~= strip_semi(t@));
        }
        r
    }
}

/// Collapse whitespace runs in `v` to single spaces and drop outer
/// whitespace.
fn collapse_vec(v: &Vec<char>) -> (r: Vec<char>)
    ensures
        r@ == collapse_ws(v@),
{
    let len = v.len();
    let ghost ws = words_from(v@, 0);
    let mut out: Vec<char> = Vec::new();
    let ghost mut k: int = 0;
    let mut first = true;
    let mut i: usize = 0;
    proof {
        assert(ws.skip(0) =~= ws);
        assert(out@ =~= join_sp(ws.take(0)));
    }
    while i < len
        invariant
            i <= len,
            len == v@.len(),
            ws == words_from(v@, 0),
            0 <= k <= ws.len(),
            words_from(v@, i as int) =~= ws.skip(k),
            out@ == join_sp(ws.take(k)),
            first == (k == 0),
        decreases len - i,
    {
        if space_char(v[i]) {
            proof {
                assert(skip_space(v@, i as int) == skip_space(v@, i + 1));
                assert(words_from(v@, i as int) == words_from(v@, i + 1));
            }
            i += 1;
        } else {
            let mut e: usize = i;
            while e < len && !space_char(v[e])
                invariant
                    i <= e <= len,
                    len == v@.len(),
                    forall|j: int| i <= j < e ==> !is_space(v@[j]),
                decreases len - e,
            {
                e += 1;
            }
            proof {
                lemma_word_end_at_is(v@, i as int, e as int);
                assert(skip_space(v@, i as int) == i as int);
                assert(words_from(v@, i as int) == seq![v@.subrange(i as int, e as int)]
                    + words_from(v@, e as int));
                assert(ws.skip(k)[0] == v@.subrange(i as int, e as int));
                assert(ws[k] == v@.subrange(i as int, e as int));
            }
            let mut w = crate::parser::vec_range(v, i, e);
            if !first {
                out.push(' ');
            }
            out.append(&mut w);
            proof {
                assert(words_from(v@, e as int) =~= ws.skip(k + 1)) by {
                    assert(ws.skip(k).drop_first() =~= ws.skip(k + 1));
                    assert((seq![v@.subrange(i as int, e as int)] + words_from(
                        v@,
                        e as int,
                    )).drop_first() =~= words_from(v@, e as int));
                }
                assert(ws.take(k + 1).drop_last() =~= ws.take(k));
                assert(ws.take(k + 1).last() == ws[k]);
                assert(out@ =~= join_sp(ws.take(k + 1)));
                k = k + 1;
            }
            first = false;
            i = e;
        }
    }
    proof {
        assert(words_from(v@, len as int) =~= Seq::<Seq<char>>::empty());
        assert(ws.skip(k).len() == 0);
        assert(ws.take(k) =~= ws);
    }
    out
}

/// Find the line that starts the directive for `name`.
fn find_directive(lines: &Vec<Vec<char>>, name: &Vec<char>) -> (r: Option<(usize, Vec<char>)>)
    ensures
        r matches Some((j, rest)) ==> {
            let lv = lines_view(lines@);
            &&& (j as int) < lv.len()
            &&& !is_comment_or_blank(trim(lv[j as int]))
            &&& dir_rest(trim(lv[j as int]), name@) == Some(rest@)
            &&& scan_directive(lv, j as int, name@) == scan_directive(lv, 0, name@)
        },
        r is None ==> scan_directive(lines_view(lines@), 0, name@) is None,
{
    let ghost lv = lines_view(lines@);
    let nl = lines.len();
    let mut j: usize = 0;
    while j < nl
        invariant
            j <= nl,
            nl == lines@.len(),
            lv == lines_view(lines@),
            scan_directive(lv, j as int, name@) == scan_directive(lv, 0, name@),
        decreases nl - j,
    {
        let t = trim_vec(&lines[j]);
        proof {
            assert(lv[j as int] == lines@[j as int]@);
            assert(t@ == trim(lv[j as int]));
        }
        if t.len() == 0 || t[0] == '#' {
            proof {
                assert(scan_directive(lv, j as int, name@) == scan_directive(lv, j + 1, name@));
            }
        } else {
            match dir_match(&t, name) {
                Some(rest) => {
                    return Some((j, rest));
                },
                None => {
                    proof {
                        assert(scan_directive(lv, j as int, name@) == scan_directive(
                            lv,
                            j + 1,
                            name@,
                        ));
                    }
                },
            }
        }
        j += 1;
    }
    None
}

/// Extract a log format from nginx configuration text.
///
/// Scans the text line by line, ignoring blank and comment lines, for the
/// `log_format` directive carrying exactly `format_name`; gathers the
/// directive's fragments until a line ends with `;` while grouping braces
/// outside of quotes are balanced; and reassembles the single-line format
/// string from them.  Fails with `NginxFormatNotFound` exactly when no line
/// starts the directive.
pub fn extract_nginx_format(nginx_config: &str, format_name: &str) -> (r: Result<String, Error>)
    ensures
        spec_extract(nginx_config@, format_name@) matches Some(f) ==> (r matches Ok(s) && s@ == f),
        spec_extract(nginx_config@, format_name@) is None ==> (r matches Err(e) && (
        e matches Error::NginxFormatNotFound { format_name: n } && n@ == format_name@)),
{
    let cfg = crate::text::str_chars(nginx_config);
    let cfg_len = cfg.len();
    let name = crate::text::str_chars(format_name);
    let lines = split_lines(&cfg);
    let ghost lv = lines_view(lines@);
    let nl = lines.len();
    proof {
        lemma_lines_len_sum(cfg@, 0);
        assert(len_sum(lv) <= cfg_len);
    }
    let found = find_directive(&lines, &name);
    match found {
        None => Err(Error::nginx_format_not_found(format_name)),
        Some((j, rest)) => {
            let ghost target = scan_directive(lv, 0, name@);
            proof {
                lemma_dir_rest_props(trim(lv[j as int]), name@);
                lemma_trim_len(lv[j as int]);
                lemma_len_sum_take_succ(lv, j as int);
                lemma_len_sum_take_le(lv, j + 1);
                lemma_len_sum_nonneg(lv.take(j as int));
            }
            let b0 = net_braces_vec(&rest);
            let rest_semi = rest[rest.len() - 1] == ';';
            let mut frags: Vec<Vec<char>> = Vec::new();
            let mut brace: i128 = b0;
            let mut done = rest_semi && b0 == 0;
            proof {
                assert(lines_view(frags@.push(rest)) =~= seq![rest@]);
            }
            frags.push(rest);
            proof {
                if done {
                    assert(target == Some(lines_view(frags@)));
                } else {
                    assert(target == Some(
                        collect_frags(lv, j + 1, lines_view(frags@), brace as int),
                    ));
                }
            }
            let mut k: usize = j + 1;
            while k < nl && !done
                invariant
                    j < nl,
                    j + 1 <= k <= nl,
                    nl == lines@.len(),
                    lv == lines_view(lines@),
                    len_sum(lv) <= cfg_len,
                    target == scan_directive(lv, 0, name@),
                    !done ==> target == Some(
                        collect_frags(lv, k as int, lines_view(frags@), brace as int),
                    ),
                    !done ==> -len_sum(lv.take(k as int)) <= brace <= len_sum(lv.take(k as int)),
                    done ==> target == Some(lines_view(frags@)),
                decreases nl - k,
            {
                let t = trim_vec(&lines[k]);
                proof {
                    assert(lv[k as int] == lines@[k as int]@);
                    assert(t@ == trim(lv[k as int]));
                    lemma_len_sum_take_succ(lv, k as int);
                    lemma_len_sum_take_le(lv, k as int);
                    lemma_len_sum_take_le(lv, k + 1);
                }
                if t.len() == 0 || t[0] == '#' {
                    proof {
                        assert(collect_frags(lv, k as int, lines_view(frags@), brace as int)
                            == collect_frags(lv, k + 1, lines_view(frags@), brace as int));
                    }
                } else {
                    let nb = net_braces_vec(&t);
                    proof {
                        lemma_trim_len(lv[k as int]);
                    }
                    let b2 = brace + nb;
                    let t_semi = t[t.len() - 1] == ';';
                    let ghost old_frags = lines_view(frags@);
                    proof {
                        assert(lines_view(frags@.push(t)) =~= old_frags.push(t@));
                    }
                    frags.push(t);
                    brace = b2;
                    if t_semi && b2 == 0 {
                        done = true;
                        proof {
                            assert(collect_frags(lv, k as int, old_frags, (b2 - nb) as int)
                                == old_frags.push(t@));
                            assert(target == Some(lines_view(frags@)));
                        }
                    } else {
                        proof {
                            assert(collect_frags(lv, k as int, old_frags, (b2 - nb) as int)
                                == collect_frags(lv, k + 1, old_frags.push(t@), b2 as int));
                        }
                    }
                }
                k += 1;
            }
            proof {
                if !done {
                    assert(collect_frags(lv, nl as int, lines_view(frags@), brace as int)
                        == lines_view(frags@));
                }
                assert(target == Some(lines_view(frags@)));
            }
            // Reassemble the fragments into the format string.
            let ghost fv = lines_view(frags@);
            let ghost cleaned = fv.map_values(|t: Seq<char>| clean_frag(t));
            let nf = frags.len();
            let mut joined: Vec<char> = Vec::new();
            let mut q: usize = 0;
            proof {
                assert(joined@ =~= join_sp(cleaned.take(0)));
            }
            while q < nf
                invariant
                    q <= nf,
                    nf == frags@.len(),
                    fv == lines_view(frags@),
                    cleaned == fv.map_values(|t: Seq<char>| clean_frag(t)),
                    joined@ == join_sp(cleaned.take(q as int)),
                decreases nf - q,
            {
                if q > 0 {
                    joined.push(' ');
                }
                let t2 = strip_semi_vec(&frags[q]);
                let mut t3 = strip_quotes_vec(&t2);
                proof {
                    assert(t3@ == clean_frag(fv[q as int]));
                    assert(cleaned[q as int] == clean_frag(fv[q as int]));
                }
                joined.append(&mut t3);
                proof {
                    assert(cleaned.take(q + 1).drop_last() =~= cleaned.take(q as int));
                    assert(cleaned.take(q + 1).last() == cleaned[q as int]);
                    assert(joined@ =~= join_sp(cleaned.take(q + 1)));
                }
                q += 1;
            }
            proof {
                assert(cleaned.take(nf as int) =~= cleaned);
            }
            let j2 = strip_semi_vec(&joined);
            let j3 = strip_quotes_vec(&j2);
            let out = collapse_vec(&j3);
            let s = crate::text::chars_to_string(&out);
            proof {
                assert(s@ == reassemble(fv));
            }
            Ok(s)
        },
    }
}

} // verus!

