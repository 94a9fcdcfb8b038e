//! Log format parsing and pattern generation.
//!
//! A format string interleaves literal text with `$name` field tokens.  It
//! is compiled into an anchored pattern for the pattern engine: each field
//! becomes a named capture group whose body is chosen from the delimiter
//! that follows the field, literal text is escaped character by character,
//! and the whole pattern is anchored at both ends.

use vstd::prelude::*;

verus! {

/// Whether `c` may appear in a field name: ASCII alphanumerics and `_`.
pub open spec fn is_word(c: char) -> bool {
    ('a' <= c && c <= 'z') || ('A' <= c && c <= 'Z') || ('0' <= c && c <= '9') || c == '_'
}

/// Decide [`is_word`] executably.
fn word_char(c: char) -> (r: bool)
    ensures
        r == is_word(c),
{
    ('a' <= c && c <= 'z') || ('A' <= c && c <= 'Z') || ('0' <= c && c <= '9') || c == '_'
}

/// Whether a field token starts at position `i` of the format: a `$`
/// followed by at least one word character.
pub open spec fn starts_field(f: Seq<char>, i: int) -> bool {
    0 <= i && i + 1 < f.len() && f[i] == '$' && is_word(f[i + 1])
}

/// The end of the word-character run starting at `j`.
pub open spec fn word_end(f: Seq<char>, j: int) -> int
    decreases f.len() - j,
    when 0 <= j <= f.len()
{
    if j < f.len() && is_word(f[j]) {
        word_end(f, j + 1)
    } else {
        j
    }
}

/// The end of the literal run starting at `i`: the next field token start,
/// or the end of the format.
pub open spec fn lit_end(f: Seq<char>, i: int) -> int
    decreases f.len() - i,
    when 0 <= i <= f.len()
{
    if i < f.len() && !starts_field(f, i) {
        lit_end(f, i + 1)
    } else {
        i
    }
}

proof fn lemma_word_end_bounds(f: Seq<char>, j: int)
    requires
        0 <= j <= f.len(),
    ensures
        j <= word_end(f, j) <= f.len(),
    decreases f.len() - j,
{
    if j < f.len() && is_word(f[j]) {
        lemma_word_end_bounds(f, j + 1);
    }
}

proof fn lemma_lit_end_bounds(f: Seq<char>, i: int)
    requires
        0 <= i <= f.len(),
    ensures
        i <= lit_end(f, i) <= f.len(),
        i < f.len() && !starts_field(f, i) ==> lit_end(f, i) >= i + 1,
    decreases f.len() - i,
{
    if i < f.len() && !starts_field(f, i) {
        lemma_lit_end_bounds(f, i + 1);
    }
}

proof fn lemma_word_end_is(f: Seq<char>, a: int, b: int)
    requires
        0 <= a <= b <= f.len(),
        forall|k: int| a <= k < b ==> is_word(f[k]),
        b == f.len() || !is_word(f[b]),
    ensures
        word_end(f, a) == b,
    decreases b - a,
{
    if a < b {
        lemma_word_end_is(f, a + 1, b);
    }
}

proof fn lemma_lit_end_is(f: Seq<char>, a: int, b: int)
    requires
        0 <= a <= b <= f.len(),
        forall|k: int| a <= k < b ==> !starts_field(f, k),
        b == f.len() || starts_field(f, b),
    ensures
        lit_end(f, a) == b,
    decreases b - a,
{
    if a < b {
        lemma_lit_end_is(f, a + 1, b);
    }
}

/// One piece of a format string: literal text, or a field reference carrying
/// the field's name.
pub enum Seg {
    Lit(Vec<char>),
    Field(Vec<char>),
}

/// The mathematical value of a [`Seg`].
pub enum GSeg {
    Lit(Seq<char>),
    Field(Seq<char>),
}

impl View for Seg {
    type V = GSeg;

    open spec fn view(&self) -> GSeg {
        match self {
            Seg::Lit(l) => GSeg::Lit(l@),
            Seg::Field(n) => GSeg::Field(n@),
        }
    }
}

/// The values of a segment sequence.
pub open spec fn segs_view(s: Seq<Seg>) -> Seq<GSeg> {
    s.map_values(|g: Seg| g@)
}

/// The segments of a format string from position `i` on: maximal literal
/// runs alternating with field references.  A `$` not followed by a word
/// character is ordinary literal text.
pub open spec fn tokenize_from(f: Seq<char>, i: int) -> Seq<GSeg>
    decreases f.len() - i,
    when 0 <= i <= f.len()
    via tokenize_from_dec
{
    if i >= f.len() {
        Seq::empty()
    } else if starts_field(f, i) {
        seq![GSeg::Field(f.subrange(i + 1, word_end(f, i + 1)))] + tokenize_from(
            f,
            word_end(f, i + 1),
        )
    } else {
        seq![GSeg::Lit(f.subrange(i, lit_end(f, i)))] + tokenize_from(f, lit_end(f, i))
    }
}

#[via_fn]
proof fn tokenize_from_dec(f: Seq<char>, i: int) {
    if 0 <= i && i < f.len() {
        if starts_field(f, i) {
            lemma_word_end_bounds(f, i + 1);
        } else {
            lemma_lit_end_bounds(f, i);
        }
    }
}

/// Whether `c` has significance in a pattern and must be escaped to be
/// matched literally.
pub open spec fn is_meta(c: char) -> bool {
    c == '\\' || c == '.' || c == '+' || c == '*' || c == '?' || c == '(' || c == ')' || c == '|'
        || c == '[' || c == ']' || c == '{' || c == '}' || c == '^' || c == '$' || c == '#'
        || c == '&' || c == '-' || c == '~'
}

/// Decide [`is_meta`] executably.
fn meta_char(c: char) -> (r: bool)
    ensures
        r == is_meta(c),
{
    c == '\\' || c == '.' || c == '+' || c == '*' || c == '?' || c == '(' || c == ')' || c == '|'
        || c == '[' || c == ']' || c == '{' || c == '}' || c == '^' || c == '$' || c == '#'
        || c == '&' || c == '-' || c == '~'
}

/// A character as it appears in a pattern that matches it literally: meta
/// characters get a backslash.
pub open spec fn esc_char(c: char) -> Seq<char> {
    if is_meta(c) {
        seq!['\\', c]
    } else {
        seq![c]
    }
}

/// The escaping of `l` from position `i` on.
pub open spec fn esc_from(l: Seq<char>, i: int) -> Seq<char>
    decreases l.len() - i,
    when 0 <= i <= l.len()
{
    if i >= l.len() {
        Seq::empty()
    } else {
        esc_char(l[i]) + esc_from(l, i + 1)
    }
}

/// Literal text as it appears in the pattern: every character escaped as
/// needed.
pub open spec fn escape_chars(l: Seq<char>) -> Seq<char> {
    esc_from(l, 0)
}

/// The field name that gets host-name syntax when adjacent to another field.
pub open spec fn host_name() -> Seq<char> {
    seq!['h', 'o', 's', 't']
}

/// The capture body for a host field adjacent to another field: one or more
/// alphanumerics, dots and hyphens.
pub open spec fn host_class() -> Seq<char> {
    seq!['[', 'a', '-', 'z', 'A', '-', 'Z', '0', '-', '9', '.', '-', ']', '+']
}

/// Whether the field at segment `i` is immediately adjacent to another
/// field.
pub open spec fn adjacent_at(segs: Seq<GSeg>, i: int) -> bool {
    i + 1 < segs.len() && segs[i + 1] is Field
}

/// The delimiter for the field at segment `i`: the first character of the
/// text that follows it, skipping over an adjacent field token to find it.
/// `None` when nothing follows, in which case the field captures to the end
/// of the line.
pub open spec fn delim_at(segs: Seq<GSeg>, i: int) -> Option<char> {
    if i + 1 >= segs.len() {
        None
    } else {
        match segs[i + 1] {
            GSeg::Lit(l) => if l.len() > 0 {
                Some(l[0])
            } else {
                None
            },
            GSeg::Field(_) => {
                if i + 2 >= segs.len() {
                    None
                } else {
                    match segs[i + 2] {
                        GSeg::Lit(l) => if l.len() > 0 {
                            Some(l[0])
                        } else {
                            None
                        },
                        GSeg::Field(_) => Some('$'),
                    }
                }
            },
        }
    }
}

/// The body of a field's capture group.  A field named `host` that is
/// adjacent to another field is constrained to host-name syntax.  Otherwise,
/// without a delimiter the field takes everything to the end of the line,
/// and with one it takes characters other than the delimiter — non-greedily
/// when another field is adjacent.
pub open spec fn group_body(name: Seq<char>, d: Option<char>, adj: bool) -> Seq<char> {
    if adj && name == host_name() {
        host_class()
    } else {
        match d {
            Option::None => seq!['.', '*'],
            Option::Some(c) => if adj {
                seq!['[', '^'] + esc_char(c) + seq![']', '*', '?']
            } else {
                seq!['[', '^'] + esc_char(c) + seq![']', '*']
            },
        }
    }
}

/// A field's named capture group.
pub open spec fn group_pattern(name: Seq<char>, d: Option<char>, adj: bool) -> Seq<char> {
    seq!['(', '?', 'P', '<'] + name + seq!['>'] + group_body(name, d, adj) + seq![')']
}

/// The pattern text that segment `i` contributes.
pub open spec fn seg_out(segs: Seq<GSeg>, i: int) -> Seq<char> {
    match segs[i] {
        GSeg::Lit(l) => escape_chars(l),
        GSeg::Field(n) => group_pattern(n, delim_at(segs, i), adjacent_at(segs, i)),
    }
}

/// The pattern text of the segments from `i` on.
pub open spec fn body_from(segs: Seq<GSeg>, i: int) -> Seq<char>
    decreases segs.len() - i,
    when 0 <= i <= segs.len()
{
    if i >= segs.len() {
        Seq::empty()
    } else {
        seg_out(segs, i) + body_from(segs, i + 1)
    }
}

/// The pattern a format string compiles to: the segments' pattern text,
/// anchored at both ends so that only a whole line can match.
pub open spec fn pattern_of(format: Seq<char>) -> Seq<char> {
    seq!['^'] + body_from(tokenize_from(format, 0), 0) + seq!['$']
}

/// Copy the range `[a, b)` of `v`.
pub(crate) fn vec_range(v: &Vec<char>, a: usize, b: usize) -> (r: Vec<char>)
    requires
        a <= b <= v@.len(),
    ensures
        r@ == v@.subrange(a as int, b as int),
{
    let mut r: Vec<char> = Vec::new();
    let mut k: usize = a;
    while k < b
        invariant
            a <= k <= b <= v@.len(),
            r@ =~= v@.subrange(a as int, k as int),
        decreases b - k,
    {
        r.push(v[k]);
        k += 1;
        proof {
            assert(r@ =~= v@.subrange(a as int, k as int));
        }
    }
    r
}

/// Append a copy of `src` to `out`.
fn append_copy(out: &mut Vec<char>, src: &Vec<char>)
    ensures
        final(out)@ == old(out)@ + src@,
{
    let mut k: usize = 0;
    while k < src.len()
        invariant
            k <= src@.len(),
            out@ =~= old(out)@ + src@.take(k as int),
        decreases src@.len() - k,
    {
        out.push(src[k]);
        k += 1;
        proof {
            assert(out@ =~= old(out)@ + src@.take(k as int));
        }
    }
    proof {
        assert(out@ =~= old(out)@ + src@);
    }
}

/// Append the escaping of `l` to `out`.
fn push_escaped(out: &mut Vec<char>, l: &Vec<char>)
    ensures
        final(out)@ == old(out)@ + escape_chars(l@),
{
    let mut k: usize = 0;
    while k < l.len()
        invariant
            k <= l@.len(),
            out@ + esc_from(l@, k as int) =~= old(out)@ + escape_chars(l@),
        decreases l@.len() - k,
    {
        let c = l[k];
        if meta_char(c) {
            out.push('\\');
        }
        out.push(c);
        k += 1;
        proof {
            assert(out@ + esc_from(l@, k as int) =~= old(out)@ + escape_chars(l@));
        }
    }
    proof {
        assert(out@ =~= out@ + esc_from(l@, l@.len() as int));
    }
}

/// Split a format string into its segments.
fn tokenize(f: &Vec<char>) -> (segs: Vec<Seg>)
    ensures
        segs_view(segs@) == tokenize_from(f@, 0),
{
    let len = f.len();
    let mut segs: Vec<Seg> = Vec::new();
    let mut i: usize = 0;
    proof {
        assert(segs_view(segs@) + tokenize_from(f@, 0) =~= tokenize_from(f@, 0));
    }
    while i < len
        invariant
            i <= len,
            len == f@.len(),
            segs_view(segs@) + tokenize_from(f@, i as int) =~= tokenize_from(f@, 0),
        decreases len - i,
    {
        if f[i] == '$' && i + 1 < len && word_char(f[i + 1]) {
            let mut j: usize = i + 1;
            while j < len && word_char(f[j])
                invariant
                    i + 1 <= j <= len,
                    len == f@.len(),
                    forall|k: int| i + 1 <= k < j ==> is_word(f@[k]),
                decreases len - j,
            {
                j += 1;
            }
            proof {
                lemma_word_end_is(f@, i + 1, j as int);
            }
            let name = vec_range(f, i + 1, j);
            segs.push(Seg::Field(name));
            proof {
                assert(starts_field(f@, i as int));
                assert(tokenize_from(f@, i as int) == seq![GSeg::Field(f@.subrange(i + 1, j as int))]
                    + tokenize_from(f@, j as int));
                assert(segs_view(segs@) =~= segs_view(segs@.drop_last()).push(
                    GSeg::Field(f@.subrange(i + 1, j as int)),
                ));
                assert(segs_view(segs@) + tokenize_from(f@, j as int) =~= tokenize_from(f@, 0));
            }
            i = j;
        } else {
            let mut j: usize = i + 1;
            proof {
                assert(!starts_field(f@, i as int));
            }
            while j < len && !(f[j] == '$' && j + 1 < len && word_char(f[j + 1]))
                invariant
                    i + 1 <= j <= len,
                    len == f@.len(),
                    forall|k: int| i <= k < j ==> !starts_field(f@, k),
                decreases len - j,
            {
                j += 1;
            }
            proof {
                lemma_lit_end_is(f@, i as int, j as int);
            }
            let lit = vec_range(f, i, j);
            segs.push(Seg::Lit(lit));
            proof {
                assert(tokenize_from(f@, i as int) == seq![GSeg::Lit(f@.subrange(i as int, j as int))]
                    + tokenize_from(f@, j as int));
                assert(segs_view(segs@) =~= segs_view(segs@.drop_last()).push(
                    GSeg::Lit(f@.subrange(i as int, j as int)),
                ));
                assert(segs_view(segs@) + tokenize_from(f@, j as int) =~= tokenize_from(f@, 0));
            }
            i = j;
        }
    }
    proof {
        assert(segs_view(segs@) =~= segs_view(segs@) + tokenize_from(f@, len as int));
    }
    segs
}

/// Append the capture group of the field named `name` to `out`.
fn push_group(out: &mut Vec<char>, name: &Vec<char>, d: Option<char>, adj: bool)
    ensures
        final(out)@ == old(out)@ + group_pattern(name@, d, adj),
{
    out.push('(');
    out.push('?');
    out.push('P');
    out.push('<');
    append_copy(out, name);
    out.push('>');
    let is_host = adj && name.len() == 4 && name[0] == 'h' && name[1] == 'o' && name[2] == 's'
        && name[3] == 't';
    proof {
        if is_host {
            assert(name@ =~= host_name());
        } else if adj {
            assert(name@ != host_name());
        }
    }
    if is_host {
        out.push('[');
        out.push('a');
        out.push('-');
        out.push('z');
        out.push('A');
        out.push('-');
        out.push('Z');
        out.push('0');
        out.push('-');
        out.push('9');
        out.push('.');
        out.push('-');
        out.push(']');
        out.push('+');
    } else {
        match d {
            Option::None => {
                out.push('.');
                out.push('*');
            },
            Option::Some(c) => {
                out.push('[');
                out.push('^');
                if meta_char(c) {
                    out.push('\\');
                }
                out.push(c);
                out.push(']');
                out.push('*');
                if adj {
                    out.push('?');
                }
            },
        }
    }
    out.push(')');
    proof {
        assert(out@ =~= old(out)@ + group_pattern(name@, d, adj));
    }
}

/// Build the unanchored pattern text of a segment sequence.
fn build_body(segs: &Vec<Seg>) -> (out: Vec<char>)
    ensures
        out@ == body_from(segs_view(segs@), 0),
{
    let ghost s = segs_view(segs@);
    let n = segs.len();
    let mut out: Vec<char> = Vec::new();
    let mut i: usize = 0;
    proof {
        assert(out@ + body_from(s, 0) =~= body_from(s, 0));
    }
    while i < n
        invariant
            i <= n,
            n == segs@.len(),
            s == segs_view(segs@),
            out@ + body_from(s, i as int) =~= body_from(s, 0),
        decreases n - i,
    {
        match &segs[i] {
            Seg::Lit(l) => {
                push_escaped(&mut out, l);
                proof {
                    assert(s[i as int] == GSeg::Lit(l@));
                    assert(seg_out(s, i as int) == escape_chars(l@));
                }
            },
            Seg::Field(name) => {
                let adj = i + 1 < n && matches!(&segs[i + 1], Seg::Field(_));
                let d: Option<char> = if i + 1 >= n {
                    Option::None
                } else {
                    match &segs[i + 1] {
                        Seg::Lit(l) => if l.len() > 0 {
                            Option::Some(l[0])
                        } else {
                            Option::None
                        },
                        Seg::Field(_) => {
                            if i + 2 >= n {
                                Option::None
                            } else {
                                match &segs[i + 2] {
                                    Seg::Lit(l) => if l.len() > 0 {
                                        Option::Some(l[0])
                                    } else {
                                        Option::None
                                    },
                                    Seg::Field(_) => Option::Some('$'),
                                }
                            }
                        },
                    }
                };
                proof {
                    assert(s[i as int] == GSeg::Field(name@));
                    assert(adj == adjacent_at(s, i as int));
                    assert(d == delim_at(s, i as int));
                }
                push_group(&mut out, name, d, adj);
                proof {
                    assert(seg_out(s, i as int) == group_pattern(name@, d, adj));
                }
            },
        }
        proof {
            assert(body_from(s, i as int) == seg_out(s, i as int) + body_from(s, i + 1));
            assert(out@ + body_from(s, i + 1) =~= body_from(s, 0));
        }
        i += 1;
    }
    proof {
        assert(out@ =~= out@ + body_from(s, n as int));
    }
    out
}

/// Compile a format string into its anchored pattern text.
fn compile_pattern(f: &Vec<char>) -> (out: Vec<char>)
    ensures
        out@ == pattern_of(f@),
{
    let segs = tokenize(f);
    let mut out: Vec<char> = Vec::new();
    out.push('^');
    let mut body = build_body(&segs);
    out.append(&mut body);
    out.push('$');
    proof {
        assert(out@ =~= pattern_of(f@));
    }
    out
}

/// The pattern engine's compiled form of a pattern, opaque here.
#[verifier::external_type_specification]
#[verifier::external_body]
pub struct ExRegex(regex::Regex);

/// The pattern text a compiled pattern was built from, the text that
/// `regex::Regex::as_str` returns.
pub uninterp spec fn regex_source(re: regex::Regex) -> Seq<char>;

/// Whether the pattern engine accepts a pattern text; `regex::Regex::new`
/// decides it from the text alone.
pub uninterp spec fn pattern_accepted(pattern: Seq<char>) -> bool;

/// The name-text pairs that matching a pattern against a line yields, in
/// capture-group order: `None` when the pattern does not match the line.
/// For a fixed pattern text and line the pattern engine's answer depends on
/// nothing else.
pub uninterp spec fn caps_of(pattern: Seq<char>, line: Seq<char>) -> Option<
    Seq<(Seq<char>, Seq<char>)>,
>;

/// Relies on `regex::Regex::new`: whether a pattern text compiles depends on
/// that text alone; on success the returned value is compiled from exactly
/// the given text.  On failure the engine diagnostic is rendered to a
/// string.
#[verifier::external_body]
fn regex_new(pattern: &str) -> (r: Result<regex::Regex, String>)
    ensures
        (r is Ok) == pattern_accepted(pattern@),
        r matches Ok(re) ==> regex_source(re) == pattern@,
{
    match regex::Regex::new(pattern) {
        Ok(re) => Ok(re),
        Err(e) => Err(format!("{}", e)),
    }
}

/// Relies on `regex::Regex::captures`, `Regex::capture_names` and
/// `Captures::name`: whether the pattern matches the line, and the text each
/// named group captures, depend on the pattern text and the line alone;
/// [`caps_of`] names the name-text pairs, in group order.  A compiled
/// pattern's group names are unique — `regex::Regex::new` rejects a
/// duplicate — so the pairs carry pairwise distinct names.
#[verifier::external_body]
fn regex_captures(re: &regex::Regex, line: &str) -> (r: Option<Vec<(String, String)>>)
    ensures
        (r is Some) == (caps_of(regex_source(*re), line@) is Some),
        r matches Some(v) ==> caps_of(regex_source(*re), line@) == Some(
            crate::entry::pairs_view(v@),
        ),
        r matches Some(v) ==> crate::entry::distinct_keys(crate::entry::pairs_view(v@)),
{
    let caps = re.captures(line)?;
    let mut out = Vec::new();
    for name in re.capture_names().flatten() {
        if let Some(m) = caps.name(name) {
            out.push((name.to_string(), m.as_str().to_string()));
        }
    }
    Some(out)
}

/// Trait for parsing log lines into entries.
pub trait StringParser {
    /// Parse a log line into an entry.
    fn parse_string(&self, line: &str) -> Result<crate::entry::Entry, crate::error::Error>;
}

/// A parser that compiles a log format string into a pattern and extracts
/// the named fields from log lines with it.
///
/// The format uses `$field_name` tokens between literal text, for example
/// `$remote_addr [$time_local] "$request"`.  A parser is built once and can
/// match any number of lines.
#[derive(Debug)]
pub struct Parser {
    format: String,
    regex: regex::Regex,
}

impl Parser {
    /// A parser's pattern is compiled from its format string.
    #[verifier::type_invariant]
    spec fn wf(self) -> bool {
        regex_source(self.regex) == pattern_of(self.format@)
    }

    /// The format string this parser was built from.
    pub closed spec fn spec_format(&self) -> Seq<char> {
        self.format@
    }

    /// Create a new parser from a format string.
    ///
    /// Succeeds exactly when the pattern engine accepts the compiled
    /// pattern; a failure carries the format string and the engine
    /// diagnostic.
    pub fn new(format: &str) -> (r: Result<Parser, crate::error::Error>)
        ensures
            (r is Ok) == pattern_accepted(pattern_of(format@)),
            r matches Ok(p) ==> p.spec_format() == format@,
            r matches Err(e) ==> (e matches crate::error::Error::InvalidFormat { format: f, .. }
                && f@ == format@),
    {
        let chars = crate::text::str_chars(format);
        let pat = compile_pattern(&chars);
        let pat_s = crate::text::chars_to_string(&pat);
        match regex_new(pat_s.as_str()) {
            Ok(re) => Ok(Parser { format: format.to_owned(), regex: re }),
            Err(detail) => Err(crate::error::Error::invalid_format(format, detail)),
        }
    }

    /// Get the original format string.
    pub fn format(&self) -> (r: &str)
        ensures
            r@ == self.spec_format(),
    {
        self.format.as_str()
    }

    /// Get the compiled pattern, built from exactly the pattern text that
    /// the format compiles to.
    pub fn regex(&self) -> (r: &regex::Regex)
        ensures
            regex_source(*r) == pattern_of(self.spec_format()),
    {
        proof {
            use_type_invariant(self);
        }
        &self.regex
    }

    /// Parse a log line into an entry.
    ///
    /// When the pattern matches the whole line, every named capture becomes
    /// one field — a capture of zero characters becomes a present field with
    /// the empty string as its value.  When it does not, the error carries
    /// the line and the format string, and no partial entry is produced.
    pub fn parse_string(&self, line: &str) -> (r: Result<
        crate::entry::Entry,
        crate::error::Error,
    >)
        ensures
            caps_of(pattern_of(self.spec_format()), line@) matches Some(pairs) ==> (r matches Ok(e)
                && e@ == crate::entry::map_of_pairs(pairs) && crate::entry::distinct_keys(pairs)),
            caps_of(pattern_of(self.spec_format()), line@) is None ==> (r matches Err(e) && (
            e matches crate::error::Error::LineFormatMismatch { line: l, format: f } && l@ == line@
                && f@ == self.spec_format())),
    {
        proof {
            use_type_invariant(self);
        }
        match regex_captures(&self.regex, line) {
            Some(pairs) => Ok(crate::entry::Entry::from_fields(pairs)),
            None => Err(crate::error::Error::line_format_mismatch(line, self.format.as_str())),
        }
    }
}

impl StringParser for Parser {
    /// Parse a log line into an entry using the compiled pattern.
    fn parse_string(&self, line: &str) -> Result<crate::entry::Entry, crate::error::Error> {
        Parser::parse_string(self, line)
    }
}

} // verus!
