//! The record type produced by parsing a log line: an unordered mapping from
//! field names to string values, with typed accessors.

use vstd::prelude::*;

use crate::error::Error;

verus! {

/// The underlying field storage: name-value pairs with pairwise distinct
/// names.  All values are stored as strings; typed interpretation happens on
/// read and is never cached.
pub type Fields = Vec<(String, String)>;

/// The character-level value of a pair sequence.
pub open spec fn pairs_view(s: Seq<(String, String)>) -> Seq<(Seq<char>, Seq<char>)> {
    s.map_values(|p: (String, String)| (p.0@, p.1@))
}

/// The mapping described by a pair sequence, a later pair overwriting an
/// earlier one with the same name.
pub open spec fn map_of_pairs(s: Seq<(Seq<char>, Seq<char>)>) -> Map<Seq<char>, Seq<char>>
    decreases s.len(),
{
    if s.len() == 0 {
        Map::empty()
    } else {
        map_of_pairs(s.drop_last()).insert(s.last().0, s.last().1)
    }
}

/// Whether the names of a pair sequence are pairwise distinct.
pub open spec fn distinct_keys(s: Seq<(Seq<char>, Seq<char>)>) -> bool {
    forall|i: int, j: int| 0 <= i < j < s.len() ==> s[i].0 != s[j].0
}

/// A name is in the mapping exactly when some pair carries it.
pub proof fn lemma_map_of_pairs_contains(s: Seq<(Seq<char>, Seq<char>)>, k: Seq<char>)
    ensures
        map_of_pairs(s).contains_key(k) <==> exists|i: int| 0 <= i < s.len() && s[i].0 == k,
    decreases s.len(),
{
    if s.len() > 0 {
        lemma_map_of_pairs_contains(s.drop_last(), k);
        if s.last().0 == k {
            assert(s[s.len() - 1].0 == k);
        } else {
            if map_of_pairs(s).contains_key(k) {
                let i = choose|i: int| 0 <= i < s.drop_last().len() && s.drop_last()[i].0 == k;
                assert(s[i].0 == k);
            }
            if exists|i: int| 0 <= i < s.len() && s[i].0 == k {
                let i = choose|i: int| 0 <= i < s.len() && s[i].0 == k;
                assert(s.drop_last()[i].0 == k);
            }
        }
    }
}

/// A pair whose name recurs in no later pair gives that name's value.
pub proof fn lemma_map_of_pairs_get(s: Seq<(Seq<char>, Seq<char>)>, i: int)
    requires
        0 <= i < s.len(),
        forall|j: int| i < j < s.len() ==> s[j].0 != s[i].0,
    ensures
        map_of_pairs(s).contains_key(s[i].0),
        map_of_pairs(s)[s[i].0] == s[i].1,
    decreases s.len(),
{
    if i == s.len() - 1 {
    } else {
        assert(s.drop_last()[i] == s[i]);
        lemma_map_of_pairs_get(s.drop_last(), i);
        assert(s.last().0 != s[i].0);
    }
}

/// With pairwise distinct names the mapping has one entry per pair.
pub proof fn lemma_map_of_pairs_len(s: Seq<(Seq<char>, Seq<char>)>)
    requires
        distinct_keys(s),
    ensures
        map_of_pairs(s).dom().len() == s.len(),
        map_of_pairs(s).dom().finite(),
    decreases s.len(),
{
    if s.len() > 0 {
        assert(distinct_keys(s.drop_last()));
        lemma_map_of_pairs_len(s.drop_last());
        lemma_map_of_pairs_contains(s.drop_last(), s.last().0);
        assert(forall|i: int| 0 <= i < s.drop_last().len() ==> s.drop_last()[i] == s[i]);
        assert(!map_of_pairs(s.drop_last()).contains_key(s.last().0));
        assert(map_of_pairs(s).dom() =~= map_of_pairs(s.drop_last()).dom().insert(s.last().0));
        vstd::set::axiom_set_insert_len(map_of_pairs(s.drop_last()).dom(), s.last().0);
    }
}

/// Appending a pair inserts its name.
pub proof fn lemma_map_of_pairs_push(s: Seq<(Seq<char>, Seq<char>)>, p: (Seq<char>, Seq<char>))
    ensures
        map_of_pairs(s.push(p)) == map_of_pairs(s).insert(p.0, p.1),
{
    assert(s.push(p).drop_last() =~= s);
    assert(s.push(p).last() == p);
}

/// Overwriting the pair that carries a name inserts the new value.
pub proof fn lemma_map_of_pairs_update(s: Seq<(Seq<char>, Seq<char>)>, i: int, v: Seq<char>)
    requires
        distinct_keys(s),
        0 <= i < s.len(),
    ensures
        map_of_pairs(s.update(i, (s[i].0, v))) == map_of_pairs(s).insert(s[i].0, v),
    decreases s.len(),
{
    let t = s.update(i, (s[i].0, v));
    if i == s.len() - 1 {
        assert(t.drop_last() =~= s.drop_last());
        assert(t.last() == (s[i].0, v));
        assert(map_of_pairs(t) == map_of_pairs(s.drop_last()).insert(s[i].0, v));
        assert(map_of_pairs(s) == map_of_pairs(s.drop_last()).insert(s[i].0, s[i].1));
        assert(map_of_pairs(s).insert(s[i].0, v)
            =~= map_of_pairs(s.drop_last()).insert(s[i].0, v));
    } else {
        assert(distinct_keys(s.drop_last()));
        assert(s.drop_last()[i] == s[i]);
        lemma_map_of_pairs_update(s.drop_last(), i, v);
        assert(t.drop_last() =~= s.drop_last().update(i, (s[i].0, v)));
        assert(t.last() == s.last());
        assert(map_of_pairs(t) == map_of_pairs(s.drop_last()).insert(s[i].0, v).insert(
            s.last().0,
            s.last().1,
        ));
        assert(s.last().0 != s[i].0);
        assert(map_of_pairs(s.drop_last()).insert(s[i].0, v).insert(s.last().0, s.last().1)
            =~= map_of_pairs(s.drop_last()).insert(s.last().0, s.last().1).insert(s[i].0, v));
    }
}

/// Whether `c` is an ASCII decimal digit.
pub open spec fn is_digit(c: char) -> bool {
    '0' <= c && c <= '9'
}

/// The numeric value of a digit character.
pub open spec fn digit_val(c: char) -> int {
    c as int - 48
}

/// Whether every character of `s` is a decimal digit.
pub open spec fn all_digits(s: Seq<char>) -> bool {
    forall|i: int| 0 <= i < s.len() ==> is_digit(s[i])
}

/// The number denoted by a digit sequence, most significant digit first.
pub open spec fn digits_val(s: Seq<char>) -> int
    decreases s.len(),
{
    if s.len() == 0 {
        0
    } else {
        digits_val(s.drop_last()) * 10 + digit_val(s.last())
    }
}

/// The digits of an integer literal: everything after an optional sign.
pub open spec fn int_body(s: Seq<char>) -> Seq<char> {
    if s.len() > 0 && (s[0] == '+' || s[0] == '-') {
        s.drop_first()
    } else {
        s
    }
}

/// Whether `s` is a decimal integer literal: an optional `+` or `-` sign
/// followed by one or more digits and nothing else.
pub open spec fn is_int_literal(s: Seq<char>) -> bool {
    int_body(s).len() > 0 && all_digits(int_body(s))
}

/// The value denoted by an integer literal.
pub open spec fn int_literal_val(s: Seq<char>) -> int {
    if s.len() > 0 && s[0] == '-' {
        -digits_val(int_body(s))
    } else {
        digits_val(int_body(s))
    }
}

/// Whether `s` denotes a value representable as an `i64`.
pub open spec fn parses_to_i64(s: Seq<char>) -> bool {
    is_int_literal(s) && i64::MIN <= int_literal_val(s) <= i64::MAX
}

/// Whether `s` denotes a value representable as an `i32`.
pub open spec fn parses_to_i32(s: Seq<char>) -> bool {
    is_int_literal(s) && i32::MIN <= int_literal_val(s) <= i32::MAX
}

/// A digit sequence denotes a nonnegative number.
proof fn lemma_digits_val_nonneg(s: Seq<char>)
    requires
        all_digits(s),
    ensures
        digits_val(s) >= 0,
    decreases s.len(),
{
    if s.len() > 0 {
        assert(all_digits(s.drop_last()));
        lemma_digits_val_nonneg(s.drop_last());
    }
}

/// A digit sequence denotes at least as much as any of its prefixes.
proof fn lemma_digits_val_prefix(s: Seq<char>, k: int)
    requires
        all_digits(s),
        0 <= k <= s.len(),
    ensures
        digits_val(s.take(k)) <= digits_val(s),
    decreases s.len(),
{
    if k < s.len() {
        assert(all_digits(s.drop_last()));
        assert(s.drop_last().take(k) =~= s.take(k));
        lemma_digits_val_prefix(s.drop_last(), k);
        lemma_digits_val_nonneg(s.drop_last());
    } else {
        assert(s.take(k) =~= s);
    }
}

/// The character for a decimal digit.
pub open spec fn digit_char(d: int) -> char {
    if d == 0 {
        '0'
    } else if d == 1 {
        '1'
    } else if d == 2 {
        '2'
    } else if d == 3 {
        '3'
    } else if d == 4 {
        '4'
    } else if d == 5 {
        '5'
    } else if d == 6 {
        '6'
    } else if d == 7 {
        '7'
    } else if d == 8 {
        '8'
    } else {
        '9'
    }
}

/// The decimal representation of a nonnegative number, without sign or
/// leading zeros.
pub open spec fn u64_dec(n: int) -> Seq<char>
    decreases n,
{
    if n < 10 {
        seq![digit_char(n)]
    } else {
        u64_dec(n / 10).push(digit_char(n % 10))
    }
}

/// A number stored in decimal reads back as itself: the rendering that
/// `set_uint_field` stores is an integer literal denoting exactly the stored
/// value, so the typed accessors recover it.
pub proof fn lemma_uint_round_trip(n: int)
    requires
        0 <= n,
    ensures
        u64_dec(n).len() > 0,
        all_digits(u64_dec(n)),
        digits_val(u64_dec(n)) == n,
        is_int_literal(u64_dec(n)),
        int_literal_val(u64_dec(n)) == n,
    decreases n,
{
    if n < 10 {
        let s = u64_dec(n);
        assert(s =~= seq![digit_char(n)]);
        assert(is_digit(digit_char(n)));
        assert(digit_val(digit_char(n)) == n);
        assert(s.len() == 1);
        assert(s.drop_last() =~= Seq::<char>::empty());
        assert(digits_val(Seq::<char>::empty()) == 0);
        assert(s.last() == digit_char(n));
        assert(digits_val(s) == digits_val(s.drop_last()) * 10 + digit_val(s.last()));
        assert(s[0] != '-' && s[0] != '+');
        assert(int_body(s) == s);
    } else {
        lemma_uint_round_trip(n / 10);
        let s = u64_dec(n);
        assert(s == u64_dec(n / 10).push(digit_char(n % 10)));
        assert(s.drop_last() =~= u64_dec(n / 10));
        assert(s.last() == digit_char(n % 10));
        assert(is_digit(digit_char(n % 10)));
        assert(digit_val(digit_char(n % 10)) == n % 10);
        assert(digits_val(s) == n);
        assert(s[0] == u64_dec(n / 10)[0]);
        assert(is_digit(s[0]));
        assert(s[0] != '-' && s[0] != '+');
        assert(int_body(s) == s);
    }
}

/// Decide [`digit_char`] executably.
fn digit_to_char(d: u64) -> (c: char)
    requires
        d < 10,
    ensures
        c == digit_char(d as int),
{
    if d == 0 {
        '0'
    } else if d == 1 {
        '1'
    } else if d == 2 {
        '2'
    } else if d == 3 {
        '3'
    } else if d == 4 {
        '4'
    } else if d == 5 {
        '5'
    } else if d == 6 {
        '6'
    } else if d == 7 {
        '7'
    } else if d == 8 {
        '8'
    } else {
        '9'
    }
}

/// Format a number in decimal.
fn u64_to_chars(n: u64) -> (v: Vec<char>)
    ensures
        v@ == u64_dec(n as int),
    decreases n,
{
    if n < 10 {
        let mut v: Vec<char> = Vec::new();
        v.push(digit_to_char(n));
        proof {
            assert(v@ =~= u64_dec(n as int));
        }
        v
    } else {
        let mut v = u64_to_chars(n / 10);
        v.push(digit_to_char(n % 10));
        v
    }
}

/// Read a decimal integer literal, as `str::parse` for `i64` does: an
/// optional sign, then one or more digits, the whole string and nothing
/// else, rejecting values outside the `i64` range.
fn parse_i64_chars(v: &Vec<char>) -> (r: Option<i64>)
    ensures
        parses_to_i64(v@) ==> (r matches Some(n) && n == int_literal_val(v@)),
        !parses_to_i64(v@) ==> r is None,
{
    let len = v.len();
    if len == 0 {
        return None;
    }
    let mut start: usize = 0;
    let mut neg = false;
    let c0 = v[0];
    if c0 == '+' {
        start = 1;
    } else if c0 == '-' {
        neg = true;
        start = 1;
    }
    if start == len {
        return None;
    }
    let ghost body = int_body(v@);
    proof {
        assert(body =~= v@.subrange(start as int, len as int));
    }
    let limit: u64 = if neg {
        9223372036854775808
    } else {
        9223372036854775807
    };
    let mut acc: u64 = 0;
    let mut i: usize = start;
    while i < len
        invariant
            start <= i <= len,
            len == v@.len(),
            len > 0,
            neg == (v@[0] == '-'),
            start == if v@[0] == '+' || v@[0] == '-' {
                1int
            } else {
                0int
            },
            body == int_body(v@),
            body =~= v@.subrange(start as int, len as int),
            limit == if neg {
                9223372036854775808u64
            } else {
                9223372036854775807u64
            },
            all_digits(v@.subrange(start as int, i as int)),
            acc == digits_val(v@.subrange(start as int, i as int)),
            acc <= limit,
        decreases len - i,
    {
        let c = v[i];
        if !('0' <= c && c <= '9') {
            proof {
                assert(body[i - start] == c);
                assert(!is_digit(c));
            }
            return None;
        }
        let d: u64 = (c as u32 - 48) as u64;
        let ghost pre = v@.subrange(start as int, i as int);
        let ghost pre1 = v@.subrange(start as int, i + 1);
        proof {
            assert(pre1.drop_last() =~= pre);
            assert(pre1.last() == c);
            assert(digits_val(pre1) == acc * 10 + d);
        }
        if acc > limit / 10 || (acc == limit / 10 && d > limit % 10) {
            proof {
                assert(acc * 10 + d > limit);
                if parses_to_i64(v@) {
                    assert(all_digits(body));
                    assert(pre1 =~= body.take(i + 1 - start));
                    lemma_digits_val_prefix(body, i + 1 - start);
                    assert(digits_val(body) > limit);
                    if neg {
                        assert(int_literal_val(v@) == -digits_val(body));
                        assert(int_literal_val(v@) < i64::MIN);
                    } else {
                        assert(int_literal_val(v@) > i64::MAX);
                    }
                    assert(false);
                }
            }
            return None;
        }
        proof {
            assert(acc * 10 + d <= limit);
        }
        acc = acc * 10 + d;
        i += 1;
        proof {
            assert(v@.subrange(start as int, i as int) == pre1);
        }
    }
    proof {
        assert(v@.subrange(start as int, len as int) =~= body);
        assert(acc == digits_val(body));
        assert(all_digits(body));
        assert(is_int_literal(v@));
    }
    if neg {
        if acc == 9223372036854775808 {
            Some(i64::MIN)
        } else {
            Some(-(acc as i64))
        }
    } else {
        Some(acc as i64)
    }
}

/// A parsed log entry: field name-value pairs.
///
/// All field values are stored as strings; conversion methods read them as
/// other types on demand.  Its mathematical value is a finite map from the
/// field name's characters to the value's characters.
#[derive(Debug, PartialEq)]
pub struct Entry {
    fields: Fields,
}

impl View for Entry {
    type V = Map<Seq<char>, Seq<char>>;

    closed spec fn view(&self) -> Map<Seq<char>, Seq<char>> {
        map_of_pairs(pairs_view(self.fields@))
    }
}

impl Entry {
    /// The names stored in an entry are pairwise distinct.
    #[verifier::type_invariant]
    spec fn wf(self) -> bool {
        distinct_keys(pairs_view(self.fields@))
    }

    /// Create a new empty entry.
    pub fn new() -> (e: Entry)
        ensures
            e@ == Map::<Seq<char>, Seq<char>>::empty(),
    {
        Entry { fields: Vec::new() }
    }

    /// Create a new entry from a pair list; a later pair overwrites an
    /// earlier one with the same name.
    pub fn from_fields(fields: Fields) -> (e: Entry)
        ensures
            e@ == map_of_pairs(pairs_view(fields@)),
    {
        let mut e = Entry::new();
        let mut i: usize = 0;
        while i < fields.len()
            invariant
                i <= fields.len(),
                e@ == map_of_pairs(pairs_view(fields@.take(i as int))),
            decreases fields.len() - i,
        {
            let name = fields[i].0.clone();
            let value = fields[i].1.clone();
            e.insert_pair(name, value);
            proof {
                assert(pairs_view(fields@.take(i + 1)).drop_last() =~= pairs_view(
                    fields@.take(i as int),
                ));
                assert(pairs_view(fields@.take(i + 1)).last() == (
                    fields@[i as int].0@,
                    fields@[i as int].1@,
                ));
            }
            i += 1;
        }
        proof {
            assert(fields@.take(fields@.len() as int) =~= fields@);
        }
        e
    }

    /// Store `value` under `name`, replacing the pair that carries the name
    /// if one does.
    fn insert_pair(&mut self, name: String, value: String)
        ensures
            final(self)@ == old(self)@.insert(name@, value@),
    {
        proof {
            use_type_invariant(&*self);
        }
        let ghost s = pairs_view(self.fields@);
        let n = self.fields.len();
        let mut i: usize = 0;
        while i < n
            invariant
                i <= n,
                n == self.fields.len(),
                *self == *old(self),
                s == pairs_view(self.fields@),
                distinct_keys(s),
                forall|j: int| 0 <= j < i ==> s[j].0 != name@,
            decreases n - i,
        {
            if self.fields[i].0 == name {
                proof {
                    let t = pairs_view(self.fields@.update(i as int, (name, value)));
                    assert(t =~= s.update(i as int, (name@, value@)));
                    assert(s[i as int].0 == name@);
                    assert(t =~= s.update(i as int, (s[i as int].0, value@)));
                    assert forall|a: int, b: int| 0 <= a < b < t.len() implies t[a].0 != t[b].0 by {
                        assert(t[a].0 == s[a].0);
                        assert(t[b].0 == s[b].0);
                    }
                    lemma_map_of_pairs_update(s, i as int, value@);
                }
                let mut v: Fields = Vec::new();
                core::mem::swap(&mut self.fields, &mut v);
                v[i] = (name, value);
                self.fields = v;
                return ;
            }
            i += 1;
        }
        let mut v: Fields = Vec::new();
        core::mem::swap(&mut self.fields, &mut v);
        v.push((name, value));
        proof {
            let t = pairs_view(v@);
            assert(t =~= s.push((name@, value@)));
            lemma_map_of_pairs_push(s, (name@, value@));
            assert forall|a: int, b: int| 0 <= a < b < t.len() implies t[a].0 != t[b].0 by {
                if b < s.len() {
                    assert(t[a].0 == s[a].0);
                    assert(t[b].0 == s[b].0);
                } else {
                    assert(t[a].0 == s[a].0);
                    assert(s[a].0 != name@);
                }
            }
        }
        self.fields = v;
    }

    /// Set a field value from a string, overwriting any previous value.
    pub fn set_field(&mut self, name: &str, value: &str)
        ensures
            final(self)@ == old(self)@.insert(name@, value@),
    {
        self.insert_pair(name.to_owned(), value.to_owned());
    }

    /// Get a field value as a string, or `FieldNotFound` if the name is
    /// absent — also when the stored value is the empty string, which is a
    /// present field like any other.
    pub fn field(&self, name: &str) -> (r: Result<&str, Error>)
        ensures
            self@.contains_key(name@) ==> (r matches Ok(v) && v@ == self@[name@]),
            !self@.contains_key(name@) ==> (r matches Err(e) && (e matches Error::FieldNotFound {
                field,
            } && field@ == name@)),
    {
        match self.lookup(name) {
            Some(v) => Ok(v.as_str()),
            None => Err(Error::field_not_found(name)),
        }
    }

    /// Get the number of fields in this entry.
    pub fn len(&self) -> (r: usize)
        ensures
            r == self@.dom().len(),
    {
        proof {
            use_type_invariant(self);
            lemma_map_of_pairs_len(pairs_view(self.fields@));
        }
        self.fields.len()
    }

    /// Check if this entry has no fields.
    pub fn is_empty(&self) -> (r: bool)
        ensures
            r == (self@ == Map::<Seq<char>, Seq<char>>::empty()),
    {
        proof {
            use_type_invariant(self);
            lemma_map_of_pairs_len(pairs_view(self.fields@));
            if self.fields@.len() == 0 {
                assert(self@ =~= Map::<Seq<char>, Seq<char>>::empty());
            } else {
                lemma_map_of_pairs_contains(pairs_view(self.fields@), pairs_view(
                    self.fields@,
                )[0].0);
                assert(self@.contains_key(pairs_view(self.fields@)[0].0));
            }
        }
        self.fields.len() == 0
    }

    /// Find the stored value for a name, if any.
    fn lookup(&self, name: &str) -> (r: Option<&String>)
        ensures
            self@.contains_key(name@) ==> (r matches Some(v) && v@ == self@[name@]),
            !self@.contains_key(name@) ==> r is None,
    {
        proof {
            use_type_invariant(self);
        }
        let ghost s = pairs_view(self.fields@);
        let owned = name.to_owned();
        let n = self.fields.len();
        let mut i: usize = 0;
        while i < n
            invariant
                i <= n,
                n == self.fields.len(),
                owned@ == name@,
                s == pairs_view(self.fields@),
                distinct_keys(s),
                forall|j: int| 0 <= j < i ==> s[j].0 != name@,
            decreases n - i,
        {
            if self.fields[i].0 == owned {
                proof {
                    lemma_map_of_pairs_get(s, i as int);
                }
                return Some(&self.fields[i].1);
            }
            i += 1;
        }
        proof {
            lemma_map_of_pairs_contains(s, name@);
        }
        None
    }

    /// Get a field value as a 64-bit integer: `FieldNotFound` if the name is
    /// absent, `FieldParseError` if the value is not a decimal integer
    /// literal in the `i64` range.
    pub fn int64_field(&self, name: &str) -> (r: Result<i64, Error>)
        ensures
            !self@.contains_key(name@) ==> (r matches Err(e) && (e matches Error::FieldNotFound {
                field,
            } && field@ == name@)),
            self@.contains_key(name@) && parses_to_i64(self@[name@]) ==> (r matches Ok(n) && n
                == int_literal_val(self@[name@])),
            self@.contains_key(name@) && !parses_to_i64(self@[name@]) ==> (r matches Err(e) && (
            e matches Error::FieldParseError { field, value, target_type } && field@ == name@
                && value@ == self@[name@] && target_type@ == "i64"@)),
    {
        match self.field(name) {
            Err(e) => Err(e),
            Ok(value) => {
                let chars = crate::text::str_chars(value);
                match parse_i64_chars(&chars) {
                    Some(n) => Ok(n),
                    None => Err(Error::field_parse_error(name, value, "i64")),
                }
            },
        }
    }

    /// Get a field value as a 32-bit integer: `FieldNotFound` if the name is
    /// absent, `FieldParseError` if the value is not a decimal integer
    /// literal in the `i32` range.
    pub fn int_field(&self, name: &str) -> (r: Result<i32, Error>)
        ensures
            !self@.contains_key(name@) ==> (r matches Err(e) && (e matches Error::FieldNotFound {
                field,
            } && field@ == name@)),
            self@.contains_key(name@) && parses_to_i32(self@[name@]) ==> (r matches Ok(n) && n
                == int_literal_val(self@[name@])),
            self@.contains_key(name@) && !parses_to_i32(self@[name@]) ==> (r matches Err(e) && (
            e matches Error::FieldParseError { field, value, target_type } && field@ == name@
                && value@ == self@[name@] && target_type@ == "i32"@)),
    {
        match self.field(name) {
            Err(e) => Err(e),
            Ok(value) => {
                let chars = crate::text::str_chars(value);
                match parse_i64_chars(&chars) {
                    Some(n) => {
                        if -2147483648 <= n && n <= 2147483647 {
                            Ok(n as i32)
                        } else {
                            Err(Error::field_parse_error(name, value, "i32"))
                        }
                    },
                    None => Err(Error::field_parse_error(name, value, "i32")),
                }
            },
        }
    }

    /// Set a field value from an unsigned integer, stored in decimal.
    pub fn set_uint_field(&mut self, name: &str, value: u64)
        ensures
            final(self)@ == old(self)@.insert(name@, u64_dec(value as int)),
    {
        let chars = u64_to_chars(value);
        let rendered = crate::text::chars_to_string(&chars);
        self.insert_pair(name.to_owned(), rendered);
    }

    /// Merge another entry into this one: the other entry's fields overwrite
    /// this entry's on a shared name.
    pub fn merge(&mut self, other: &Entry)
        ensures
            final(self)@ == old(self)@.union_prefer_right(other@),
    {
        let n = other.fields.len();
        let mut i: usize = 0;
        proof {
            assert(pairs_view(other.fields@.take(0)) =~= Seq::<(Seq<char>, Seq<char>)>::empty());
            assert(old(self)@.union_prefer_right(map_of_pairs(pairs_view(other.fields@.take(0))))
                =~= old(self)@);
        }
        while i < n
            invariant
                i <= n,
                n == other.fields.len(),
                self@ == old(self)@.union_prefer_right(
                    map_of_pairs(pairs_view(other.fields@.take(i as int))),
                ),
            decreases n - i,
        {
            let name = other.fields[i].0.clone();
            let value = other.fields[i].1.clone();
            self.insert_pair(name, value);
            proof {
                let t = pairs_view(other.fields@.take(i + 1));
                assert(t.drop_last() =~= pairs_view(other.fields@.take(i as int)));
                assert(t.last() == (other.fields@[i as int].0@, other.fields@[i as int].1@));
                assert(self@ =~= old(self)@.union_prefer_right(map_of_pairs(t)));
            }
            i += 1;
        }
        proof {
            assert(other.fields@.take(n as int) =~= other.fields@);
        }
    }

    /// Create a new entry containing exactly the given names; a name absent
    /// from this entry is carried with the empty string as its value, never
    /// as an error.
    pub fn partial(&self, field_names: &[&str]) -> (r: Entry)
        ensures
            r@ == partial_map(self@, field_names@.map_values(|n: &str| n@)),
    {
        let ghost names = field_names@.map_values(|n: &str| n@);
        let mut e = Entry::new();
        let n = field_names.len();
        let mut i: usize = 0;
        proof {
            assert(names.take(0) =~= Seq::<Seq<char>>::empty());
        }
        while i < n
            invariant
                i <= n,
                n == field_names@.len(),
                names == field_names@.map_values(|n: &str| n@),
                e@ == partial_map(self@, names.take(i as int)),
            decreases n - i,
        {
            let name: &str = field_names[i];
            match self.lookup(name) {
                Some(v) => {
                    let value = v.clone();
                    e.insert_pair(name.to_owned(), value);
                },
                None => {
                    proof {
                        reveal_strlit("");
                        assert(""@ =~= Seq::<char>::empty());
                    }
                    e.set_field(name, "");
                },
            }
            proof {
                assert(names.take(i + 1).drop_last() =~= names.take(i as int));
                assert(names.take(i + 1).last() == name@);
                assert(e@ =~= partial_map(self@, names.take(i + 1)));
            }
            i += 1;
        }
        proof {
            assert(names.take(n as int) =~= names);
        }
        e
    }

    /// Render the given names with this entry's values: `'name'=value`
    /// joined by `;`, with the token `NULL` for a name absent from the
    /// entry.  The rendering is deterministic and preserves the given order,
    /// which makes it usable as a grouping key.
    pub fn fields_hash(&self, field_names: &[&str]) -> (r: String)
        ensures
            r@ == hash_names(self@, field_names@.map_values(|n: &str| n@)),
    {
        let ghost names = field_names@.map_values(|n: &str| n@);
        let mut out: Vec<char> = Vec::new();
        let n = field_names.len();
        let mut i: usize = 0;
        proof {
            assert(names.take(0) =~= Seq::<Seq<char>>::empty());
            assert(out@ =~= hash_names(self@, names.take(0)));
        }
        while i < n
            invariant
                i <= n,
                n == field_names@.len(),
                names == field_names@.map_values(|n: &str| n@),
                out@ == hash_names(self@, names.take(i as int)),
            decreases n - i,
        {
            let name: &str = field_names[i];
            if i > 0 {
                out.push(';');
            }
            out.push('\'');
            let mut name_chars = crate::text::str_chars(name);
            out.append(&mut name_chars);
            out.push('\'');
            out.push('=');
            match self.lookup(name) {
                Some(v) => {
                    let mut value_chars = crate::text::str_chars(v.as_str());
                    out.append(&mut value_chars);
                },
                None => {
                    out.push('N');
                    out.push('U');
                    out.push('L');
                    out.push('L');
                },
            }
            proof {
                assert(names.take(i + 1).drop_last() =~= names.take(i as int));
                assert(names.take(i + 1).last() == name@);
                assert(out@ =~= hash_names(self@, names.take(i + 1)));
            }
            i += 1;
        }
        proof {
            assert(names.take(n as int) =~= names);
        }
        crate::text::chars_to_string(&out)
    }

    /// Get the stored name-value pairs; the names are pairwise distinct.
    pub fn fields(&self) -> (r: &Fields)
        ensures
            map_of_pairs(pairs_view(r@)) == self@,
            distinct_keys(pairs_view(r@)),
    {
        proof {
            use_type_invariant(self);
        }
        &self.fields
    }

    /// Get the name-value pairs for iteration; the names are pairwise
    /// distinct.
    pub fn iter(&self) -> (r: &Fields)
        ensures
            map_of_pairs(pairs_view(r@)) == self@,
            distinct_keys(pairs_view(r@)),
    {
        proof {
            use_type_invariant(self);
        }
        &self.fields
    }
}

/// The value `partial` builds: exactly the given names, each bound to the
/// source mapping's value or to the empty string where the source lacks the
/// name.
pub open spec fn partial_map(m: Map<Seq<char>, Seq<char>>, names: Seq<Seq<char>>) -> Map<
    Seq<char>,
    Seq<char>,
>
    decreases names.len(),
{
    if names.len() == 0 {
        Map::empty()
    } else {
        partial_map(m, names.drop_last()).insert(
            names.last(),
            if m.contains_key(names.last()) {
                m[names.last()]
            } else {
                Seq::empty()
            },
        )
    }
}

/// One `'name'=value` element of a grouping key, with `NULL` for an absent
/// name.
pub open spec fn hash_entry(m: Map<Seq<char>, Seq<char>>, name: Seq<char>) -> Seq<char> {
    seq!['\''] + name + seq!['\'', '='] + if m.contains_key(name) {
        m[name]
    } else {
        seq!['N', 'U', 'L', 'L']
    }
}

/// The grouping key for a name list: its elements joined by `;`.
pub open spec fn hash_names(m: Map<Seq<char>, Seq<char>>, names: Seq<Seq<char>>) -> Seq<char>
    decreases names.len(),
{
    if names.len() == 0 {
        Seq::empty()
    } else if names.len() == 1 {
        hash_entry(m, names[0])
    } else {
        hash_names(m, names.drop_last()) + seq![';'] + hash_entry(m, names.last())
    }
}

/// Matching a line and then reading each field back by name returns exactly
/// the captured value: in the mapping built from capture pairs with pairwise
/// distinct names, every name is bound to its own pair's value — also when
/// that value is empty, which stays a present, readable field distinct from
/// an absent one.
pub proof fn lemma_pairs_round_trip(s: Seq<(Seq<char>, Seq<char>)>, i: int)
    requires
        distinct_keys(s),
        0 <= i < s.len(),
    ensures
        map_of_pairs(s).contains_key(s[i].0),
        map_of_pairs(s)[s[i].0] == s[i].1,
{
    lemma_map_of_pairs_get(s, i);
}

impl Clone for Entry {
    /// A clone carries the same fields.
    fn clone(&self) -> (e: Self)
        ensures
            e@ == self@,
    {
        proof {
            use_type_invariant(self);
        }
        let mut v: Fields = Vec::new();
        let mut i: usize = 0;
        while i < self.fields.len()
            invariant
                i <= self.fields.len(),
                v@ =~= self.fields@.take(i as int),
            decreases self.fields.len() - i,
        {
            v.push((self.fields[i].0.clone(), self.fields[i].1.clone()));
            proof {
                assert(v@ =~= self.fields@.take(i + 1));
            }
            i += 1;
        }
        proof {
            assert(v@ =~= self.fields@);
        }
        Entry { fields: v }
    }
}

impl Default for Entry {
    /// The default entry is empty.
    fn default() -> (e: Entry)
        ensures
            e@ == Map::<Seq<char>, Seq<char>>::empty(),
    {
        Entry::new()
    }
}

} // verus!
