//! Character-level text helpers shared by the relationship and starboard
//! engines: whitespace collapsing, relationship-type normalization, trimming,
//! and decimal rendering of counters.

use vstd::prelude::*;

verus! {

/// ASCII whitespace: space, tab, line feed, form feed, carriage return.
pub open spec fn is_space_char(c: char) -> bool {
    c == ' ' || c == '\t' || c == '\n' || c == '\x0c' || c == '\r'
}

/// ASCII lowercasing of a single character; anything but `A`..`Z` is unchanged.
pub open spec fn lower_char(c: char) -> char {
    if 'A' <= c && c <= 'Z' {
        ((c as u8) + 32) as char
    } else {
        c
    }
}

pub open spec fn lower_seq(s: Seq<char>) -> Seq<char> {
    s.map_values(|c: char| lower_char(c))
}

/// Characters allowed in a normalized relationship type.
pub open spec fn is_type_char(c: char) -> bool {
    ('a' <= c && c <= 'z') || ('0' <= c && c <= '9') || c == '-'
}

pub open spec fn all_type_chars(s: Seq<char>) -> bool {
    forall|i: int| 0 <= i < s.len() ==> is_type_char(#[trigger] s[i])
}

/// One step of whitespace collapsing: the boolean tracks whether the previous
/// character belonged to a word, so that each interior whitespace run becomes
/// a single `joiner` and leading/trailing whitespace disappears.
pub open spec fn collapse_step(st: (bool, Seq<char>), c: char, joiner: char) -> (bool, Seq<char>) {
    if is_space_char(c) {
        (false, st.1)
    } else if st.0 || st.1.len() == 0 {
        (true, st.1.push(c))
    } else {
        (true, st.1.push(joiner).push(c))
    }
}

pub open spec fn collapse_state(s: Seq<char>, joiner: char) -> (bool, Seq<char>)
    decreases s.len(),
{
    if s.len() == 0 {
        (false, Seq::empty())
    } else {
        collapse_step(collapse_state(s.drop_last(), joiner), s.last(), joiner)
    }
}

/// `s` with every maximal whitespace run collapsed: interior runs become a
/// single `joiner`, leading and trailing runs are dropped.
pub open spec fn collapsed(s: Seq<char>, joiner: char) -> Seq<char> {
    collapse_state(s, joiner).1
}

/// Exec counterpart of [`is_space_char`].
pub fn space_char(c: char) -> (r: bool)
    ensures
        r == is_space_char(c),
{
    c == ' ' || c == '\t' || c == '\n' || c == '\x0c' || c == '\r'
}

/// Exec counterpart of [`collapsed`], optionally lowercasing first.
pub(crate) fn collapse_chars(s: &str, joiner: char, lower: bool) -> (v: Vec<char>)
    ensures
        v@ == collapsed(if lower { lower_seq(s@) } else { s@ }, joiner),
{
    let ghost t: Seq<char> = if lower { lower_seq(s@) } else { s@ };
    let n = s.unicode_len();
    let mut v: Vec<char> = Vec::new();
    let mut in_word = false;
    let mut i: usize = 0;
    while i < n
        invariant
            n == t.len(),
            t == (if lower { lower_seq(s@) } else { s@ }),
            i <= n,
            (in_word, v@) == collapse_state(t.subrange(0, i as int), joiner),
        decreases n - i,
    {
        let c0 = s.get_char(i);
        let c = if lower && 'A' <= c0 && c0 <= 'Z' {
            ((c0 as u8) + 32) as char
        } else {
            c0
        };
        assert(c == t[i as int]);
        if c == ' ' || c == '\t' || c == '\n' || c == '\x0c' || c == '\r' {
            in_word = false;
        } else if in_word || v.len() == 0 {
            v.push(c);
            in_word = true;
        } else {
            v.push(joiner);
            v.push(c);
            in_word = true;
        }
        i = i + 1;
        assert(t.subrange(0, i as int).drop_last() =~= t.subrange(0, i - 1));
        assert(t.subrange(0, i as int).last() == t[i - 1]);
    }
    assert(t.subrange(0, n as int) =~= t);
    v
}

/// Character-wise string equality.
pub fn str_eq(a: &str, b: &str) -> (r: bool)
    ensures
        r == (a@ == b@),
{
    let na = a.unicode_len();
    let nb = b.unicode_len();
    if na != nb {
        return false;
    }
    let mut i: usize = 0;
    while i < na
        invariant
            na == a@.len(),
            na == b@.len(),
            i <= na,
            forall|j: int| 0 <= j < i ==> a@[j] == b@[j],
        decreases na - i,
    {
        if a.get_char(i) != b.get_char(i) {
            return false;
        }
        i = i + 1;
    }
    proof {
        assert(a@ =~= b@);
    }
    true
}

/// Lexicographic order on character sequences.
pub open spec fn seq_lex_le(a: Seq<char>, b: Seq<char>) -> bool
    decreases a.len(),
{
    if a.len() == 0 {
        true
    } else if b.len() == 0 {
        false
    } else if a[0] != b[0] {
        a[0] < b[0]
    } else {
        seq_lex_le(a.drop_first(), b.drop_first())
    }
}

/// The order is total.
pub proof fn lemma_lex_total(a: Seq<char>, b: Seq<char>)
    ensures
        seq_lex_le(a, b) || seq_lex_le(b, a),
    decreases a.len(),
{
    if a.len() > 0 && b.len() > 0 && a[0] == b[0] {
        lemma_lex_total(a.drop_first(), b.drop_first());
    }
}

/// The order is antisymmetric.
pub proof fn lemma_lex_antisymmetric(a: Seq<char>, b: Seq<char>)
    requires
        seq_lex_le(a, b),
        seq_lex_le(b, a),
    ensures
        a == b,
    decreases a.len(),
{
    if a.len() == 0 {
        assert(b.len() == 0);
        assert(a =~= b);
    } else {
        assert(a[0] == b[0]);
        lemma_lex_antisymmetric(a.drop_first(), b.drop_first());
        assert forall|j: int| 0 <= j < a.len() implies a[j] == b[j] by {
            if j > 0 {
                assert(a.drop_first()[j - 1] == b.drop_first()[j - 1]);
            }
        }
        assert(a =~= b);
    }
}

/// The order is transitive.
pub proof fn lemma_lex_transitive(a: Seq<char>, b: Seq<char>, c: Seq<char>)
    requires
        seq_lex_le(a, b),
        seq_lex_le(b, c),
    ensures
        seq_lex_le(a, c),
    decreases a.len(),
{
    if a.len() > 0 {
        if a[0] == b[0] && b[0] == c[0] {
            lemma_lex_transitive(a.drop_first(), b.drop_first(), c.drop_first());
        }
    }
}

proof fn lemma_lex_skip(a: Seq<char>, b: Seq<char>, i: int)
    requires
        0 <= i <= a.len(),
        i <= b.len(),
        forall|j: int| 0 <= j < i ==> a[j] == b[j],
        i == a.len() || i == b.len() || a[i] != b[i],
    ensures
        seq_lex_le(a, b) == if i == a.len() {
            true
        } else if i == b.len() {
            false
        } else {
            a[i] < b[i]
        },
    decreases i,
{
    if i > 0 {
        let a1 = a.drop_first();
        let b1 = b.drop_first();
        assert(a[0] == b[0]);
        assert forall|j: int| 0 <= j < i - 1 implies a1[j] == b1[j] by {
            assert(a[j + 1] == b[j + 1]);
        }
        lemma_lex_skip(a1, b1, i - 1);
    }
}

/// Exec counterpart of [`seq_lex_le`].
pub fn str_le(a: &str, b: &str) -> (r: bool)
    ensures
        r == seq_lex_le(a@, b@),
{
    let na = a.unicode_len();
    let nb = b.unicode_len();
    let mut i: usize = 0;
    while i < na && i < nb && a.get_char(i) == b.get_char(i)
        invariant
            na == a@.len(),
            nb == b@.len(),
            i <= na,
            i <= nb,
            forall|j: int| 0 <= j < i ==> a@[j] == b@[j],
        decreases na - i,
    {
        i = i + 1;
    }
    proof {
        lemma_lex_skip(a@, b@, i as int);
    }
    if i == na {
        true
    } else if i == nb {
        false
    } else {
        a.get_char(i) < b.get_char(i)
    }
}

/// Relies on `String: FromIterator<char>`: collecting the characters of `v`
/// yields the string made of exactly those characters, in order.
#[verifier::external_body]
pub(crate) fn chars_to_string(v: &Vec<char>) -> (r: String)
    ensures
        r@ == v@,
{
    v.iter().collect()
}

pub open spec fn drop_leading_spaces(s: Seq<char>) -> Seq<char>
    decreases s.len(),
{
    if s.len() > 0 && is_space_char(s[0]) {
        drop_leading_spaces(s.drop_first())
    } else {
        s
    }
}

pub open spec fn drop_trailing_spaces(s: Seq<char>) -> Seq<char>
    decreases s.len(),
{
    if s.len() > 0 && is_space_char(s.last()) {
        drop_trailing_spaces(s.drop_last())
    } else {
        s
    }
}

/// `s` without leading and trailing whitespace.
pub open spec fn trimmed(s: Seq<char>) -> Seq<char> {
    drop_trailing_spaces(drop_leading_spaces(s))
}

proof fn lemma_drop_leading_spaces(s: Seq<char>, a: int)
    requires
        0 <= a <= s.len(),
        forall|j: int| 0 <= j < a ==> is_space_char(#[trigger] s[j]),
        a == s.len() || !is_space_char(s[a]),
    ensures
        drop_leading_spaces(s) == s.subrange(a, s.len() as int),
    decreases a,
{
    if a == 0 {
        assert(s.subrange(0, s.len() as int) =~= s);
    } else {
        let t = s.drop_first();
        assert(forall|j: int| 0 <= j < a - 1 ==> is_space_char(#[trigger] t[j]));
        lemma_drop_leading_spaces(t, a - 1);
        assert(t.subrange(a - 1, t.len() as int) =~= s.subrange(a, s.len() as int));
    }
}

proof fn lemma_drop_trailing_spaces(s: Seq<char>, b: int)
    requires
        0 <= b <= s.len(),
        forall|j: int| b <= j < s.len() ==> is_space_char(#[trigger] s[j]),
        b == 0 || !is_space_char(s[b - 1]),
    ensures
        drop_trailing_spaces(s) == s.subrange(0, b),
    decreases s.len() - b,
{
    if b == s.len() {
        if s.len() > 0 {
            assert(!is_space_char(s.last()));
        }
        assert(s.subrange(0, s.len() as int) =~= s);
    } else {
        let t = s.drop_last();
        assert(is_space_char(s.last()));
        lemma_drop_trailing_spaces(t, b);
        assert(t.subrange(0, b) =~= s.subrange(0, b));
    }
}

/// `s` without leading and trailing whitespace, as a fresh string.
pub fn trim_str(s: &str) -> (r: String)
    ensures
        r@ == trimmed(s@),
{
    let n = s.unicode_len();
    let mut a: usize = 0;
    while a < n && space_char(s.get_char(a))
        invariant
            n == s@.len(),
            a <= n,
            forall|j: int| 0 <= j < a ==> is_space_char(#[trigger] s@[j]),
        decreases n - a,
    {
        a = a + 1;
    }
    proof {
        lemma_drop_leading_spaces(s@, a as int);
    }
    if a == n {
        assert(trimmed(s@) =~= Seq::<char>::empty());
        return String::new();
    }
    let mut b: usize = n;
    while b > a + 1 && space_char(s.get_char(b - 1))
        invariant
            n == s@.len(),
            a < b <= n,
            forall|j: int| b <= j < n ==> is_space_char(#[trigger] s@[j]),
        decreases b,
    {
        b = b - 1;
    }
    proof {
        let t = s@.subrange(a as int, n as int);
        assert(!is_space_char(t[(b - 1 - a) as int]));
        assert(forall|j: int| b - a <= j < t.len() ==> is_space_char(#[trigger] t[j]));
        lemma_drop_trailing_spaces(t, b - a);
        assert(t.subrange(0, b - a) =~= s@.subrange(a as int, b as int));
    }
    let piece = s.substring_char(a, b);
    String::from_str(piece)
}

/// Trims an optional free-text field; an absent or whitespace-only value
/// becomes `None`.
pub fn trim_optional_text(input: Option<String>) -> (r: Option<String>)
    ensures
        match input {
            None => r is None,
            Some(s) => if trimmed(s@).len() == 0 {
                r is None
            } else {
                r matches Some(v) && v@ == trimmed(s@)
            },
        },
{
    match input {
        None => None,
        Some(s) => {
            let t = trim_str(s.as_str());
            if t.as_str().unicode_len() == 0 {
                None
            } else {
                Some(t)
            }
        },
    }
}

/// The decimal digit character for `n` in `0 .. 10`.
pub open spec fn dec_digit(n: int) -> char {
    ((48 + n) as u8) as char
}

/// The decimal rendering of a non-negative number, most significant digit
/// first.
pub open spec fn dec_seq(n: int) -> Seq<char>
    decreases n,
{
    if n < 10 {
        seq![dec_digit(n)]
    } else {
        dec_seq(n / 10).push(dec_digit(n % 10))
    }
}

/// Renders a counter in decimal.
pub fn u64_to_string(n: u64) -> (r: String)
    ensures
        r@ == dec_seq(n as int),
{
    if n == 0 {
        let zero: Vec<char> = vec!['0'];
        assert(dec_seq(0) =~= zero@);
        return chars_to_string(&zero);
    }
    let mut digits: Vec<char> = Vec::new();
    let mut m = n;
    proof {
        assert(dec_seq(n as int) =~= dec_seq(n as int) + digits@.reverse());
    }
    while m > 0
        invariant
            dec_seq(n as int) == if m > 0 {
                dec_seq(m as int) + digits@.reverse()
            } else {
                digits@.reverse()
            },
        decreases m,
    {
        let d: u8 = (m % 10) as u8;
        let c = (48 + d) as char;
        assert(c == dec_digit(m as int % 10));
        let ghost before = digits@;
        digits.push(c);
        assert(digits@.reverse() =~= seq![c] + before.reverse());
        let ghost m0 = m as int;
        m = m / 10;
        proof {
            if m > 0 {
                assert(dec_seq(m0) =~= dec_seq(m0 / 10).push(dec_digit(m0 % 10)));
                assert(dec_seq(m0) + before.reverse() =~= dec_seq(m as int) + digits@.reverse());
            } else {
                assert(m0 < 10);
                assert(dec_seq(m0) =~= seq![dec_digit(m0)]);
                assert(dec_seq(m0) + before.reverse() =~= digits@.reverse());
            }
        }
    }
    let mut out: Vec<char> = Vec::new();
    let k = digits.len();
    let mut i: usize = 0;
    while i < k
        invariant
            k == digits@.len(),
            i <= k,
            out@ =~= digits@.reverse().subrange(0, i as int),
        decreases k - i,
    {
        let c = digits[k - 1 - i];
        out.push(c);
        assert(out@ =~= digits@.reverse().subrange(0, i + 1));
        i = i + 1;
    }
    assert(out@ =~= digits@.reverse());
    chars_to_string(&out)
}

/// Why a relationship-type string was rejected.
#[derive(Clone, Copy, Debug, PartialEq, Eq, Structural)]
pub enum TypeError {
    /// Nothing left after trimming whitespace.
    Empty,
    /// The collapsed form is shorter than 2 or longer than 32 characters.
    Length,
    /// The collapsed form holds a character outside `a`..`z`, `0`..`9`, `-`.
    Charset,
}

/// What [`normalize_relationship_type`] returns, at the level of character
/// sequences: lowercase, collapse whitespace runs to single dashes, then
/// validate length and character set.
pub open spec fn normalize_spec(s: Seq<char>) -> Result<Seq<char>, TypeError> {
    let c = collapsed(lower_seq(s), '-');
    if c.len() == 0 {
        Err(TypeError::Empty)
    } else if c.len() < 2 || c.len() > 32 {
        Err(TypeError::Length)
    } else if !all_type_chars(c) {
        Err(TypeError::Charset)
    } else {
        Ok(c)
    }
}

/// Normalizes a user-supplied relationship type so that variants such as
/// `"Best  Friend"` and `"best-friend"` collide to one canonical string.
pub fn normalize_relationship_type(raw: &str) -> (r: Result<String, TypeError>)
    ensures
        match (r, normalize_spec(raw@)) {
            (Ok(v), Ok(c)) => v@ == c,
            (Err(e), Err(se)) => e == se,
            _ => false,
        },
{
    let v = collapse_chars(raw, '-', true);
    if v.len() == 0 {
        return Err(TypeError::Empty);
    }
    if v.len() < 2 || v.len() > 32 {
        return Err(TypeError::Length);
    }
    let mut i: usize = 0;
    while i < v.len()
        invariant
            i <= v@.len(),
            2 <= v@.len() <= 32,
            v@ == collapsed(lower_seq(raw@), '-'),
            forall|j: int| 0 <= j < i ==> is_type_char(#[trigger] v@[j]),
        decreases v@.len() - i,
    {
        let c = v[i];
        if !(('a' <= c && c <= 'z') || ('0' <= c && c <= '9') || c == '-') {
            assert(!is_type_char(v@[i as int]));
            assert(!all_type_chars(v@));
            return Err(TypeError::Charset);
        }
        i = i + 1;
    }
    Ok(chars_to_string(&v))
}

} // verus!
