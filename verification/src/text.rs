//! Verified text utilities: decimal formatting, substring search, case
//! folding (Unicode for searches, ASCII for configuration strings), format
//! escaping with proved reversibility, and path handling on `/`-separated
//! path strings.

use vstd::prelude::*;

verus! {

/// Relies on `String::push` from std: appends the given character to the end
/// of the string.
#[verifier::external_body]
pub fn push_char(s: &mut String, c: char)
    ensures
        final(s)@ == old(s)@ + seq![c],
{
    s.push(c);
}

// ---------------------------------------------------------------------------
// Decimal formatting
// ---------------------------------------------------------------------------

/// The decimal digit character for a value below ten.
pub open spec fn spec_dec_digit(d: int) -> char {
    if d == 0 {
        '0'
    } else if d == 1 {
        '1'
    } else if d == 2 {
        '2'
    } else if d == 3 {
        '3'
    } else if d == 4 {
        '4'
    } else if d == 5 {
        '5'
    } else if d == 6 {
        '6'
    } else if d == 7 {
        '7'
    } else if d == 8 {
        '8'
    } else {
        '9'
    }
}

/// The decimal notation of a non-negative integer, most significant digit
/// first, with no leading zeros (a single `'0'` for zero).
pub open spec fn spec_dec(n: int) -> Seq<char>
    decreases n,
{
    if n < 10 {
        seq![spec_dec_digit(n)]
    } else {
        spec_dec(n / 10) + seq![spec_dec_digit(n % 10)]
    }
}

fn dec_digit_char(d: u32) -> (c: char)
    requires
        d < 10,
    ensures
        c == spec_dec_digit(d as int),
{
    match d {
        0u32 => '0',
        1u32 => '1',
        2u32 => '2',
        3u32 => '3',
        4u32 => '4',
        5u32 => '5',
        6u32 => '6',
        7u32 => '7',
        8u32 => '8',
        _ => '9',
    }
}

/// Appends the decimal notation of `n` to `out`.
pub fn push_u32_dec(out: &mut String, n: u32)
    ensures
        final(out)@ == old(out)@ + spec_dec(n as int),
    decreases n,
{
    if n >= 10 {
        push_u32_dec(out, n / 10);
        let d = dec_digit_char(n % 10);
        push_char(out, d);
        proof {
            assert(final(out)@ =~= old(out)@ + spec_dec(n as int));
        }
    } else {
        let d = dec_digit_char(n);
        push_char(out, d);
    }
}

/// Appends the decimal notation of `n` to `out`.
pub fn push_usize_dec(out: &mut String, n: usize)
    ensures
        final(out)@ == old(out)@ + spec_dec(n as int),
    decreases n,
{
    if n >= 10 {
        push_usize_dec(out, n / 10);
        let d = dec_digit_char((n % 10) as u32);
        push_char(out, d);
        proof {
            assert(final(out)@ =~= old(out)@ + spec_dec(n as int));
        }
    } else {
        let d = dec_digit_char(n as u32);
        push_char(out, d);
    }
}

/// The decimal notation of `n`, as a fresh string.
pub fn u32_string(n: u32) -> (r: String)
    ensures
        r@ == spec_dec(n as int),
{
    let mut out = String::new();
    push_u32_dec(&mut out, n);
    proof {
        assert(out@ =~= spec_dec(n as int));
    }
    out
}

// ---------------------------------------------------------------------------
// Character-level comparisons
// ---------------------------------------------------------------------------

/// Decides whether two string slices hold the same characters.
pub fn str_eq_str(a: &str, b: &str) -> (r: bool)
    ensures
        r == (a@ == b@),
{
    let a_len = a.unicode_len();
    let b_len = b.unicode_len();
    if a_len != b_len {
        return false;
    }
    let mut i: usize = 0;
    while i < a_len
        invariant
            i <= a_len,
            a_len == a@.len(),
            b_len == b@.len(),
            a_len == b_len,
            forall|j: int| 0 <= j < i ==> a@[j] == b@[j],
        decreases a_len - i,
    {
        if a.get_char(i) != b.get_char(i) {
            return false;
        }
        i = i + 1;
    }
    proof {
        assert(a@ =~= b@);
    }
    true
}

/// True when `s` ends with the characters of `suffix`.
pub open spec fn spec_ends_with(s: Seq<char>, suffix: Seq<char>) -> bool {
    s.len() >= suffix.len() && s.subrange(s.len() - suffix.len(), s.len() as int) == suffix
}

/// Decides whether `s` ends with `suffix`.
pub fn str_ends_with(s: &str, suffix: &str) -> (r: bool)
    ensures
        r == spec_ends_with(s@, suffix@),
{
    let s_len = s.unicode_len();
    let suf_len = suffix.unicode_len();
    if suf_len > s_len {
        return false;
    }
    let off = s_len - suf_len;
    let mut i: usize = 0;
    while i < suf_len
        invariant
            i <= suf_len,
            suf_len <= s_len,
            off == s_len - suf_len,
            s_len == s@.len(),
            suf_len == suffix@.len(),
            forall|j: int| 0 <= j < i ==> tail_of(s@, suffix@)[j] == suffix@[j],
        decreases suf_len - i,
    {
        if s.get_char(off + i) != suffix.get_char(i) {
            proof {
                assert(tail_of(s@, suffix@)[i as int] == s@[off + i]);
            }
            return false;
        }
        i = i + 1;
        proof {
            assert(tail_of(s@, suffix@)[i - 1] == s@[off + i - 1]);
        }
    }
    proof {
        assert(tail_of(s@, suffix@) =~= suffix@);
    }
    true
}

/// The trailing part of `s` of the length of `suffix`.
pub open spec fn tail_of(s: Seq<char>, suffix: Seq<char>) -> Seq<char> {
    s.subrange(s.len() - suffix.len(), s.len() as int)
}

/// True when `needle` occurs as a contiguous run inside `hay`.
pub open spec fn spec_contains_sub(hay: Seq<char>, needle: Seq<char>) -> bool {
    exists|i: int|
        0 <= i && i + needle.len() <= hay.len() && #[trigger] hay.subrange(i, i + needle.len())
            == needle
}

fn match_at(hay: &str, needle: &str, at: usize) -> (r: bool)
    requires
        at + needle@.len() <= hay@.len(),
        hay@.len() <= usize::MAX,
    ensures
        r == (hay@.subrange(at as int, at + needle@.len()) == needle@),
{
    let n_len = needle.unicode_len();
    let mut j: usize = 0;
    while j < n_len
        invariant
            j <= n_len,
            n_len == needle@.len(),
            at + n_len <= hay@.len(),
            hay@.len() <= usize::MAX,
            forall|k: int| 0 <= k < j ==> hay@[at + k] == needle@[k],
        decreases n_len - j,
    {
        if hay.get_char(at + j) != needle.get_char(j) {
            proof {
                assert(hay@.subrange(at as int, at + needle@.len())[j as int] == hay@[at + j]);
            }
            return false;
        }
        j = j + 1;
    }
    proof {
        assert(hay@.subrange(at as int, at + needle@.len()) =~= needle@);
    }
    true
}

/// Decides whether `needle` occurs inside `hay`.
pub fn str_contains(hay: &str, needle: &str) -> (r: bool)
    ensures
        r == spec_contains_sub(hay@, needle@),
{
    let h_len = hay.unicode_len();
    let n_len = needle.unicode_len();
    if n_len > h_len {
        return false;
    }
    if n_len == 0 {
        proof {
            assert(hay@.subrange(0, 0 + needle@.len() as int) =~= needle@);
            assert(spec_contains_sub(hay@, needle@));
        }
        return true;
    }
    let last = h_len - n_len;
    let mut i: usize = 0;
    while i <= last
        invariant
            i <= last + 1,
            last == h_len - n_len,
            0 < n_len <= h_len,
            h_len == hay@.len(),
            n_len == needle@.len(),
            forall|k: int| 0 <= k < i ==> #[trigger] hay@.subrange(k, k + needle@.len()) != needle@,
        decreases last + 1 - i,
    {
        if match_at(hay, needle, i) {
            return true;
        }
        i = i + 1;
    }
    false
}

// ---------------------------------------------------------------------------
// ASCII case folding
// ---------------------------------------------------------------------------

/// The Unicode lower-case image of a character sequence, as
/// `str::to_lowercase` computes it: a function of the characters alone.
pub uninterp spec fn lower_of(s: Seq<char>) -> Seq<char>;

/// Relies on `str::to_lowercase` from std: the Unicode lower-case mapping of
/// the string, depending on its characters alone.
#[verifier::external_body]
pub fn to_lowercase(s: &str) -> (r: String)
    ensures
        r@ == lower_of(s@),
{
    s.to_lowercase()
}

/// ASCII case folding of a single character: upper-case ASCII letters become
/// lower case, every other character is unchanged.  This folding serves the
/// comparison of configuration strings, whose known values are ASCII; text
/// searches fold with the Unicode mapping above instead.
pub open spec fn spec_lower_char(c: char) -> char {
    if c == 'A' {
        'a'
    } else if c == 'B' {
        'b'
    } else if c == 'C' {
        'c'
    } else if c == 'D' {
        'd'
    } else if c == 'E' {
        'e'
    } else if c == 'F' {
        'f'
    } else if c == 'G' {
        'g'
    } else if c == 'H' {
        'h'
    } else if c == 'I' {
        'i'
    } else if c == 'J' {
        'j'
    } else if c == 'K' {
        'k'
    } else if c == 'L' {
        'l'
    } else if c == 'M' {
        'm'
    } else if c == 'N' {
        'n'
    } else if c == 'O' {
        'o'
    } else if c == 'P' {
        'p'
    } else if c == 'Q' {
        'q'
    } else if c == 'R' {
        'r'
    } else if c == 'S' {
        's'
    } else if c == 'T' {
        't'
    } else if c == 'U' {
        'u'
    } else if c == 'V' {
        'v'
    } else if c == 'W' {
        'w'
    } else if c == 'X' {
        'x'
    } else if c == 'Y' {
        'y'
    } else if c == 'Z' {
        'z'
    } else {
        c
    }
}

/// ASCII case folding of a character sequence.
pub open spec fn spec_lower(s: Seq<char>) -> Seq<char> {
    s.map_values(|c: char| spec_lower_char(c))
}

fn lower_char(c: char) -> (r: char)
    ensures
        r == spec_lower_char(c),
{
    match c {
        'A' => 'a',
        'B' => 'b',
        'C' => 'c',
        'D' => 'd',
        'E' => 'e',
        'F' => 'f',
        'G' => 'g',
        'H' => 'h',
        'I' => 'i',
        'J' => 'j',
        'K' => 'k',
        'L' => 'l',
        'M' => 'm',
        'N' => 'n',
        'O' => 'o',
        'P' => 'p',
        'Q' => 'q',
        'R' => 'r',
        'S' => 's',
        'T' => 't',
        'U' => 'u',
        'V' => 'v',
        'W' => 'w',
        'X' => 'x',
        'Y' => 'y',
        'Z' => 'z',
        _ => c,
    }
}

/// The ASCII-lower-cased copy of a string slice.
pub fn str_to_lower(s: &str) -> (r: String)
    ensures
        r@ == spec_lower(s@),
{
    let len = s.unicode_len();
    let mut out = String::new();
    let mut i: usize = 0;
    while i < len
        invariant
            i <= len,
            len == s@.len(),
            out@ == spec_lower(s@.take(i as int)),
        decreases len - i,
    {
        let c = lower_char(s.get_char(i));
        push_char(&mut out, c);
        i = i + 1;
        proof {
            assert(s@.take(i as int).map_values(|c: char| spec_lower_char(c)) =~= s@.take(
                i - 1,
            ).map_values(|c: char| spec_lower_char(c)) + seq![spec_lower_char(s@[i - 1])]);
        }
    }
    proof {
        assert(s@.take(len as int) =~= s@);
    }
    out
}

// ---------------------------------------------------------------------------
// Escaping
// ---------------------------------------------------------------------------

/// The image of a character sequence under a per-character escaping rule.
pub open spec fn spec_escape_by(f: spec_fn(char) -> Seq<char>, s: Seq<char>) -> Seq<char>
    decreases s.len(),
{
    if s.len() == 0 {
        Seq::empty()
    } else {
        f(s[0]) + spec_escape_by(f, s.skip(1))
    }
}

/// Escaping distributes over appending one character at the end.
pub proof fn lemma_escape_by_push(f: spec_fn(char) -> Seq<char>, s: Seq<char>, c: char)
    ensures
        spec_escape_by(f, s.push(c)) == spec_escape_by(f, s) + f(c),
    decreases s.len(),
{
    assert(s.push(c)[s.len() as int] == c);
    if s.len() == 0 {
        assert(s.push(c)[0] == c);
        assert(s.push(c).skip(1) =~= Seq::<char>::empty());
        assert(spec_escape_by(f, s.push(c)) == f(c) + spec_escape_by(f, Seq::<char>::empty()));
        assert(spec_escape_by(f, s.push(c)) =~= spec_escape_by(f, s) + f(c));
    } else {
        assert(s.push(c)[0] == s[0]);
        assert(s.push(c).skip(1) =~= s.skip(1).push(c));
        lemma_escape_by_push(f, s.skip(1), c);
        assert(spec_escape_by(f, s.push(c)) == f(s[0]) + (spec_escape_by(f, s.skip(1)) + f(c)));
        assert(spec_escape_by(f, s.push(c)) =~= spec_escape_by(f, s) + f(c));
    }
}

/// The escaped form of one character under the HTML rule used by the DOT
/// table renderer.
pub open spec fn esc_html_char(c: char) -> Seq<char> {
    if c == '&' {
        seq!['&', 'a', 'm', 'p', ';']
    } else if c == '"' {
        seq!['&', 'q', 'u', 'o', 't', ';']
    } else if c == '<' {
        seq!['&', 'l', 't', ';']
    } else if c == '>' {
        seq!['&', 'g', 't', ';']
    } else {
        seq![c]
    }
}

/// The HTML-escaped image of a character sequence.
pub open spec fn spec_escape_html(s: Seq<char>) -> Seq<char> {
    spec_escape_by(|c: char| esc_html_char(c), s)
}

/// HTML-escapes the reserved characters `&`, `"`, `<` and `>`.
pub fn escape_html(s: &str) -> (r: String)
    ensures
        r@ == spec_escape_html(s@),
{
    let len = s.unicode_len();
    let mut out = String::new();
    let mut i: usize = 0;
    while i < len
        invariant
            i <= len,
            len == s@.len(),
            out@ == spec_escape_html(s@.take(i as int)),
        decreases len - i,
    {
        let c = s.get_char(i);
        if c == '&' {
            out.append("&amp;");
        } else if c == '"' {
            out.append("&quot;");
        } else if c == '<' {
            out.append("&lt;");
        } else if c == '>' {
            out.append("&gt;");
        } else {
            push_char(&mut out, c);
        }
        proof {
            reveal_strlit("&amp;");
            reveal_strlit("&quot;");
            reveal_strlit("&lt;");
            reveal_strlit("&gt;");
            assert(s@.take(i + 1) =~= s@.take(i as int).push(s@[i as int]));
            lemma_escape_by_push(|c: char| esc_html_char(c), s@.take(i as int), s@[i as int]);
            assert(out@ =~= spec_escape_html(s@.take(i + 1)));
        }
        i = i + 1;
    }
    proof {
        assert(s@.take(len as int) =~= s@);
    }
    out
}

/// The inverse reading of the HTML escaping rule: entities introduced by the
/// rule are folded back into their source characters, anything else is copied.
pub open spec fn spec_unescape_html(s: Seq<char>) -> Seq<char>
    decreases s.len(),
{
    if s.len() == 0 {
        Seq::empty()
    } else if s[0] == '&' {
        if s.len() >= 5 && s.subrange(0, 5) == seq!['&', 'a', 'm', 'p', ';'] {
            seq!['&'] + spec_unescape_html(s.skip(5))
        } else if s.len() >= 6 && s.subrange(0, 6) == seq!['&', 'q', 'u', 'o', 't', ';'] {
            seq!['"'] + spec_unescape_html(s.skip(6))
        } else if s.len() >= 4 && s.subrange(0, 4) == seq!['&', 'l', 't', ';'] {
            seq!['<'] + spec_unescape_html(s.skip(4))
        } else if s.len() >= 4 && s.subrange(0, 4) == seq!['&', 'g', 't', ';'] {
            seq!['>'] + spec_unescape_html(s.skip(4))
        } else {
            seq![s[0]] + spec_unescape_html(s.skip(1))
        }
    } else {
        seq![s[0]] + spec_unescape_html(s.skip(1))
    }
}

/// HTML escaping loses nothing: reading the escaped text back with the
/// inverse rule restores the original character sequence, for every input.
pub proof fn lemma_escape_html_round_trip(s: Seq<char>)
    ensures
        spec_unescape_html(spec_escape_html(s)) == s,
    decreases s.len(),
{
    let f = |c: char| esc_html_char(c);
    if s.len() == 0 {
        assert(spec_unescape_html(spec_escape_html(s)) =~= s);
    } else {
        let c = s[0];
        let rest = s.skip(1);
        let e = spec_escape_by(f, s);
        let et = spec_escape_by(f, rest);
        assert(e == f(c) + et);
        lemma_escape_html_round_trip(rest);
        if c == '&' {
            assert(e.subrange(0, 5) =~= seq!['&', 'a', 'm', 'p', ';']);
            assert(e.skip(5) =~= et);
            assert(spec_unescape_html(e) =~= s);
        } else if c == '"' {
            assert(e.subrange(0, 5)[1] == 'q');
            assert(e.subrange(0, 6) =~= seq!['&', 'q', 'u', 'o', 't', ';']);
            assert(e.skip(6) =~= et);
            assert(spec_unescape_html(e) =~= s);
        } else if c == '<' {
            if e.len() >= 5 {
                assert(e.subrange(0, 5)[1] == 'l');
            }
            if e.len() >= 6 {
                assert(e.subrange(0, 6)[1] == 'l');
            }
            assert(e.subrange(0, 4) =~= seq!['&', 'l', 't', ';']);
            assert(e.skip(4) =~= et);
            assert(spec_unescape_html(e) =~= s);
        } else if c == '>' {
            if e.len() >= 5 {
                assert(e.subrange(0, 5)[1] == 'g');
            }
            if e.len() >= 6 {
                assert(e.subrange(0, 6)[1] == 'g');
            }
            assert(e.subrange(0, 4)[1] == 'g');
            assert(e.subrange(0, 4) != seq!['&', 'l', 't', ';']);
            assert(e.subrange(0, 4) =~= seq!['&', 'g', 't', ';']);
            assert(e.skip(4) =~= et);
            assert(spec_unescape_html(e) =~= s);
        } else {
            assert(e[0] == c);
            assert(e.skip(1) =~= et);
            assert(spec_unescape_html(e) =~= s);
        }
    }
}

/// The escaped form of one character under the Mermaid rule: quotes and
/// square brackets are protected by a backslash.
pub open spec fn esc_mermaid_char(c: char) -> Seq<char> {
    if c == '"' {
        seq!['\\', '"']
    } else if c == '[' {
        seq!['\\', '[']
    } else if c == ']' {
        seq!['\\', ']']
    } else {
        seq![c]
    }
}

/// The Mermaid-escaped image of a character sequence.
pub open spec fn spec_escape_mermaid(s: Seq<char>) -> Seq<char> {
    spec_escape_by(|c: char| esc_mermaid_char(c), s)
}

/// Escapes quote and bracket characters for a Mermaid node title.
pub fn escape_mermaid(s: &str) -> (r: String)
    ensures
        r@ == spec_escape_mermaid(s@),
{
    let len = s.unicode_len();
    let mut out = String::new();
    let mut i: usize = 0;
    while i < len
        invariant
            i <= len,
            len == s@.len(),
            out@ == spec_escape_mermaid(s@.take(i as int)),
        decreases len - i,
    {
        let c = s.get_char(i);
        if c == '"' || c == '[' || c == ']' {
            push_char(&mut out, '\\');
        }
        push_char(&mut out, c);
        proof {
            assert(s@.take(i + 1) =~= s@.take(i as int).push(s@[i as int]));
            lemma_escape_by_push(|c: char| esc_mermaid_char(c), s@.take(i as int), s@[i as int]);
            assert(out@ =~= spec_escape_mermaid(s@.take(i + 1)));
        }
        i = i + 1;
    }
    proof {
        assert(s@.take(len as int) =~= s@);
    }
    out
}

/// The inverse reading of the Mermaid escaping rule: a backslash makes the
/// following character literal, anything else is copied.
pub open spec fn spec_unescape_mermaid(s: Seq<char>) -> Seq<char>
    decreases s.len(),
{
    if s.len() == 0 {
        Seq::empty()
    } else if s[0] == '\\' && s.len() >= 2 {
        seq![s[1]] + spec_unescape_mermaid(s.skip(2))
    } else {
        seq![s[0]] + spec_unescape_mermaid(s.skip(1))
    }
}

/// Mermaid escaping loses nothing on inputs free of backslashes: reading the
/// escaped text back restores the original character sequence.  (A backslash
/// in the input is emitted unprotected, so it would be read back as an escape
/// of its successor.)
pub proof fn lemma_escape_mermaid_round_trip(s: Seq<char>)
    requires
        forall|i: int| 0 <= i < s.len() ==> s[i] != '\\',
    ensures
        spec_unescape_mermaid(spec_escape_mermaid(s)) == s,
    decreases s.len(),
{
    let f = |c: char| esc_mermaid_char(c);
    if s.len() == 0 {
        assert(spec_unescape_mermaid(spec_escape_mermaid(s)) =~= s);
    } else {
        let c = s[0];
        let rest = s.skip(1);
        let e = spec_escape_by(f, s);
        let et = spec_escape_by(f, rest);
        assert(e == f(c) + et);
        lemma_escape_mermaid_round_trip(rest);
        if c == '"' || c == '[' || c == ']' {
            assert(e[0] == '\\');
            assert(e[1] == c);
            assert(e.skip(2) =~= et);
            assert(spec_unescape_mermaid(e) =~= s);
        } else {
            assert(e[0] == c);
            assert(e.skip(1) =~= et);
            assert(spec_unescape_mermaid(e) =~= s);
        }
    }
}

// ---------------------------------------------------------------------------
// Path handling on `/`-separated path strings
// ---------------------------------------------------------------------------

/// The index of the last `/` in `s`, or `-1` when there is none.
pub open spec fn last_slash(s: Seq<char>) -> int
    decreases s.len(),
{
    if s.len() == 0 {
        -1
    } else if s.last() == '/' {
        s.len() - 1
    } else {
        last_slash(s.drop_last())
    }
}

/// The parent directory of a path: everything before the last `/`, or the
/// empty path when the path has no separator.
pub open spec fn spec_parent_dir(s: Seq<char>) -> Seq<char> {
    if last_slash(s) < 0 {
        Seq::empty()
    } else {
        s.take(last_slash(s))
    }
}

/// The file name of a path: everything after the last `/`.
pub open spec fn spec_file_name(s: Seq<char>) -> Seq<char> {
    s.skip(last_slash(s) + 1)
}

proof fn lemma_last_slash_at(s: Seq<char>, j: int)
    requires
        0 <= j < s.len(),
        s[j] == '/',
        forall|k: int| j < k < s.len() ==> s[k] != '/',
    ensures
        last_slash(s) == j,
    decreases s.len(),
{
    if j == s.len() - 1 {
    } else {
        assert(s.last() != '/');
        assert(s.drop_last()[j] == '/');
        lemma_last_slash_at(s.drop_last(), j);
    }
}

proof fn lemma_last_slash_none(s: Seq<char>)
    requires
        forall|k: int| 0 <= k < s.len() ==> s[k] != '/',
    ensures
        last_slash(s) == -1,
    decreases s.len(),
{
    if s.len() > 0 {
        lemma_last_slash_none(s.drop_last());
    }
}

/// Finds the index just past the last `/` of `s`, or zero when none occurs.
fn find_after_last_slash(s: &str) -> (r: usize)
    ensures
        r == last_slash(s@) + 1,
        r <= s@.len(),
{
    let len = s.unicode_len();
    let mut i: usize = len;
    while i > 0
        invariant
            i <= len,
            len == s@.len(),
            forall|k: int| i <= k < len ==> s@[k] != '/',
        decreases i,
    {
        if s.get_char(i - 1) == '/' {
            proof {
                lemma_last_slash_at(s@, i - 1);
            }
            return i;
        }
        i = i - 1;
    }
    proof {
        lemma_last_slash_none(s@);
    }
    0
}

/// The parent directory of a `/`-separated path string.
pub fn parent_dir(s: &str) -> (r: String)
    ensures
        r@ == spec_parent_dir(s@),
{
    let after = find_after_last_slash(s);
    if after == 0 {
        let r = String::new();
        proof {
            assert(r@ =~= spec_parent_dir(s@));
        }
        r
    } else {
        let sub = s.substring_char(0, after - 1);
        String::from_str(sub)
    }
}

/// The file name of a `/`-separated path string.
pub fn file_name(s: &str) -> (r: String)
    ensures
        r@ == spec_file_name(s@),
{
    let after = find_after_last_slash(s);
    let len = s.unicode_len();
    let sub = s.substring_char(after, len);
    String::from_str(sub)
}

/// Component-wise path prefix: an empty prefix precedes every path, and a
/// non-empty prefix must be the whole path or be followed by a separator.
pub open spec fn spec_path_starts_with(p: Seq<char>, pre: Seq<char>) -> bool {
    ||| pre.len() == 0
    ||| p == pre
    ||| (p.len() > pre.len() && p.take(pre.len() as int) == pre && p[pre.len() as int] == '/')
}

/// Decides the component-wise path prefix relation.
pub fn path_starts_with(p: &str, pre: &str) -> (r: bool)
    ensures
        r == spec_path_starts_with(p@, pre@),
{
    let p_len = p.unicode_len();
    let pre_len = pre.unicode_len();
    if pre_len == 0 {
        return true;
    }
    if p_len < pre_len {
        proof {
            assert(p@ != pre@) by {
                if p@ == pre@ {
                    assert(p@.len() == pre@.len());
                }
            }
        }
        return false;
    }
    if !match_at(p, pre, 0) {
        proof {
            if p@ == pre@ {
                assert(p@.subrange(0, 0 + pre@.len() as int) =~= pre@);
            }
        }
        return false;
    }
    if p_len == pre_len {
        proof {
            assert(p@.subrange(0, 0 + pre@.len() as int) =~= p@);
        }
        return true;
    }
    let r = p.get_char(pre_len) == '/';
    proof {
        if p@ == pre@ {
            assert(p@.len() == pre@.len());
        }
        assert(p@.take(pre@.len() as int) =~= p@.subrange(0, 0 + pre@.len() as int));
    }
    r
}

/// The rest of `p` after removing the component prefix `pre`: the whole path
/// for an empty prefix, the empty path when they are equal, and the part
/// after the separator otherwise.
pub open spec fn spec_strip_prefix(p: Seq<char>, pre: Seq<char>) -> Seq<char> {
    if pre.len() == 0 {
        p
    } else if p == pre {
        Seq::empty()
    } else {
        p.skip(pre.len() + 1 as int)
    }
}

/// Removes the component prefix `pre` from `p` when it is one; hands `p`
/// back unchanged otherwise.
pub fn strip_prefix_or(p: &str, pre: &str) -> (r: String)
    ensures
        spec_path_starts_with(p@, pre@) ==> r@ == spec_strip_prefix(p@, pre@),
        !spec_path_starts_with(p@, pre@) ==> r@ == p@,
{
    if !path_starts_with(p, pre) {
        return String::from_str(p);
    }
    let p_len = p.unicode_len();
    let pre_len = pre.unicode_len();
    if pre_len == 0 {
        return String::from_str(p);
    }
    if p_len == pre_len {
        proof {
            if p@ != pre@ {
                assert(p@.len() > pre@.len());
            }
        }
        return String::new();
    }
    proof {
        if p@ == pre@ {
            assert(p@.len() == pre@.len());
        }
    }
    let sub = s_skip(p, pre_len + 1, p_len);
    sub
}

/// Copies the characters of `s` from `from` up to `to` into a fresh string.
fn s_skip(s: &str, from: usize, to: usize) -> (r: String)
    requires
        from <= to <= s@.len(),
    ensures
        r@ == s@.subrange(from as int, to as int),
{
    let sub = s.substring_char(from, to);
    String::from_str(sub)
}

// ---------------------------------------------------------------------------
// Lexicographic order on character sequences
// ---------------------------------------------------------------------------

/// Lexicographic order on character sequences, comparing scalar values.
pub open spec fn seq_char_le(a: Seq<char>, b: Seq<char>) -> bool
    decreases a.len(),
{
    if a.len() == 0 {
        true
    } else if b.len() == 0 {
        false
    } else if (a[0] as u32) < (b[0] as u32) {
        true
    } else if a[0] != b[0] {
        false
    } else {
        seq_char_le(a.skip(1), b.skip(1))
    }
}

/// Decides the lexicographic order on two string slices.
pub fn str_le(a: &str, b: &str) -> (r: bool)
    ensures
        r == seq_char_le(a@, b@),
    decreases a@.len(),
{
    let a_len = a.unicode_len();
    let b_len = b.unicode_len();
    proof {
        assert(a@.skip(0) =~= a@);
        assert(b@.skip(0) =~= b@);
    }
    let mut i: usize = 0;
    while i < a_len && i < b_len
        invariant
            i <= a_len,
            i <= b_len,
            a_len == a@.len(),
            b_len == b@.len(),
            forall|k: int| 0 <= k < i ==> a@[k] == b@[k],
            seq_char_le(a@, b@) == seq_char_le(a@.skip(i as int), b@.skip(i as int)),
        decreases a_len - i,
    {
        let ca = a.get_char(i);
        let cb = b.get_char(i);
        if (ca as u32) < (cb as u32) {
            proof {
                assert(a@.skip(i as int)[0] == ca);
                assert(b@.skip(i as int)[0] == cb);
            }
            return true;
        }
        if ca != cb {
            proof {
                assert(a@.skip(i as int)[0] == ca);
                assert(b@.skip(i as int)[0] == cb);
                assert((ca as u32) >= (cb as u32));
                assert((ca as u32) != (cb as u32)) by {
                    if (ca as u32) == (cb as u32) {
                        assert(ca == cb);
                    }
                }
            }
            return false;
        }
        i = i + 1;
        proof {
            assert(a@.skip(i - 1)[0] == ca);
            assert(b@.skip(i - 1)[0] == cb);
            assert(a@.skip(i - 1).skip(1) =~= a@.skip(i as int));
            assert(b@.skip(i - 1).skip(1) =~= b@.skip(i as int));
        }
    }
    let r = a_len <= b_len;
    proof {
        if i >= a_len {
            assert(a@.skip(i as int).len() == 0);
        } else {
            assert(b@.skip(i as int).len() == 0);
            assert(a@.skip(i as int).len() > 0);
        }
    }
    r
}

} // verus!
