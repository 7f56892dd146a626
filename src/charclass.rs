use vstd::prelude::*;
use vstd::string::*;

verus! {

/// An ASCII letter.
pub open spec fn alpha_char(c: char) -> bool {
    ('a' <= c && c <= 'z') || ('A' <= c && c <= 'Z')
}

/// An ASCII digit.
pub open spec fn digit_char(c: char) -> bool {
    '0' <= c && c <= '9'
}

pub open spec fn alnum_char(c: char) -> bool {
    alpha_char(c) || digit_char(c)
}

pub open spec fn all_alpha(s: Seq<char>) -> bool {
    forall|i: int| 0 <= i < s.len() ==> alpha_char(#[trigger] s[i])
}

pub open spec fn all_digit(s: Seq<char>) -> bool {
    forall|i: int| 0 <= i < s.len() ==> digit_char(#[trigger] s[i])
}

pub open spec fn all_alnum(s: Seq<char>) -> bool {
    forall|i: int| 0 <= i < s.len() ==> alnum_char(#[trigger] s[i])
}

pub open spec fn all_alnum_or_dash(s: Seq<char>) -> bool {
    forall|i: int| 0 <= i < s.len() ==> alnum_char(#[trigger] s[i]) || s[i] == '-'
}

/// ASCII lower case of one character; other characters are kept.
pub open spec fn lower_char(c: char) -> char {
    if 'A' <= c && c <= 'Z' {
        ((c as u32) + 32) as char
    } else {
        c
    }
}

/// ASCII upper case of one character; other characters are kept.
pub open spec fn upper_char(c: char) -> char {
    if 'a' <= c && c <= 'z' {
        ((c as u32) - 32) as char
    } else {
        c
    }
}

pub open spec fn lower(s: Seq<char>) -> Seq<char> {
    s.map_values(|c: char| lower_char(c))
}

pub open spec fn upper(s: Seq<char>) -> Seq<char> {
    s.map_values(|c: char| upper_char(c))
}

/// First character upper case, the rest lower case (the form of a script).
pub open spec fn title(s: Seq<char>) -> Seq<char> {
    if s.len() == 0 {
        s
    } else {
        seq![upper_char(s[0])] + lower(s.skip(1))
    }
}

pub(crate) fn is_alphabetic(s: &[char]) -> (r: bool)
    ensures
        r == all_alpha(s@),
{
    let n = s.len();
    let mut i: usize = 0;
    while i < n
        invariant
            n == s@.len(),
            i <= n,
            all_alpha(s@.take(i as int)),
        decreases n - i,
    {
        let c = s[i];
        if !(('a' <= c && c <= 'z') || ('A' <= c && c <= 'Z')) {
            return false;
        }
        assert(s@.take(i + 1) == s@.take(i as int).push(c));
        i += 1;
    }
    assert(s@.take(n as int) == s@);
    true
}

pub(crate) fn ascii_lower(c: char) -> (r: char)
    ensures
        r == lower_char(c),
{
    if 'A' <= c && c <= 'Z' {
        ((c as u8) + 32) as char
    } else {
        c
    }
}


/// Relies on `String::push`, which appends the given character to the end of
/// the string.
pub assume_specification[ String::push ](s: &mut String, ch: char)
    ensures
        final(s)@ == old(s)@.push(ch),
;

/// Relies on `Hash for String`, which feeds the text of the string to the
/// hasher; nothing is promised of the hasher's state.
pub assume_specification<H: std::hash::Hasher>[ <String as std::hash::Hash>::hash::<H> ](
    s: &String,
    state: &mut H,
);

pub(crate) fn is_numeric(s: &[char]) -> (r: bool)
    ensures
        r == all_digit(s@),
{
    let n = s.len();
    let mut i: usize = 0;
    while i < n
        invariant
            n == s@.len(),
            i <= n,
            all_digit(s@.take(i as int)),
        decreases n - i,
    {
        let c = s[i];
        if !('0' <= c && c <= '9') {
            return false;
        }
        assert(s@.take(i + 1) == s@.take(i as int).push(c));
        i += 1;
    }
    assert(s@.take(n as int) == s@);
    true
}

pub(crate) fn is_alphanumeric(s: &[char]) -> (r: bool)
    ensures
        r == all_alnum(s@),
{
    let n = s.len();
    let mut i: usize = 0;
    while i < n
        invariant
            n == s@.len(),
            i <= n,
            all_alnum(s@.take(i as int)),
        decreases n - i,
    {
        let c = s[i];
        if !(('a' <= c && c <= 'z') || ('A' <= c && c <= 'Z') || ('0' <= c && c <= '9')) {
            return false;
        }
        assert(s@.take(i + 1) == s@.take(i as int).push(c));
        i += 1;
    }
    assert(s@.take(n as int) == s@);
    true
}

pub(crate) fn is_alphanumeric_or_dash(s: &[char]) -> (r: bool)
    ensures
        r == all_alnum_or_dash(s@),
{
    let n = s.len();
    let mut i: usize = 0;
    while i < n
        invariant
            n == s@.len(),
            i <= n,
            all_alnum_or_dash(s@.take(i as int)),
        decreases n - i,
    {
        let c = s[i];
        if !(('a' <= c && c <= 'z') || ('A' <= c && c <= 'Z') || ('0' <= c && c <= '9') || c
            == '-') {
            return false;
        }
        assert(s@.take(i + 1) == s@.take(i as int).push(c));
        i += 1;
    }
    assert(s@.take(n as int) == s@);
    true
}

pub(crate) fn ascii_upper(c: char) -> (r: char)
    ensures
        r == upper_char(c),
{
    if 'a' <= c && c <= 'z' {
        ((c as u8) - 32) as char
    } else {
        c
    }
}

/// Appends `s` in lower case to `out`.
pub(crate) fn to_lowercase(out: &mut String, s: &[char])
    ensures
        final(out)@ == old(out)@ + lower(s@),
{
    let n = s.len();
    let mut i: usize = 0;
    while i < n
        invariant
            n == s@.len(),
            i <= n,
            out@ == old(out)@ + lower(s@.take(i as int)),
        decreases n - i,
    {
        let c = s[i];
        out.push(ascii_lower(c));
        assert(lower(s@.take(i + 1)) == lower(s@.take(i as int)).push(lower_char(c)));
        i += 1;
    }
    assert(s@.take(n as int) == s@);
}

/// Appends `s` in upper case to `out`.
pub(crate) fn to_uppercase(out: &mut String, s: &[char])
    ensures
        final(out)@ == old(out)@ + upper(s@),
{
    let n = s.len();
    let mut i: usize = 0;
    while i < n
        invariant
            n == s@.len(),
            i <= n,
            out@ == old(out)@ + upper(s@.take(i as int)),
        decreases n - i,
    {
        let c = s[i];
        out.push(ascii_upper(c));
        assert(upper(s@.take(i + 1)) == upper(s@.take(i as int)).push(upper_char(c)));
        i += 1;
    }
    assert(s@.take(n as int) == s@);
}

/// Appends `s` to `out` with its first character in upper case and the rest in
/// lower case.
pub(crate) fn to_uppercase_first(out: &mut String, s: &[char])
    ensures
        final(out)@ == old(out)@ + title(s@),
{
    let n = s.len();
    let mut i: usize = 0;
    while i < n
        invariant
            n == s@.len(),
            i <= n,
            i == 0 ==> out@ == old(out)@,
            i > 0 ==> out@ == old(out)@ + seq![upper_char(s@[0])] + lower(
                s@.subrange(1, i as int),
            ),
        decreases n - i,
    {
        let c = s[i];
        if i == 0 {
            out.push(ascii_upper(c));
        } else {
            out.push(ascii_lower(c));
            assert(lower(s@.subrange(1, i + 1)) == lower(s@.subrange(1, i as int)).push(
                lower_char(c),
            ));
        }
        i += 1;
    }
    if n > 0 {
        assert(s@.subrange(1, n as int) == s@.skip(1));
    }
}

/// Position of an ASCII character `c1` counted from `c2`.
pub(crate) fn char_sub(c1: char, c2: char) -> (r: usize)
    requires
        c2 <= c1,
    ensures
        r == c1 as u32 - c2 as u32,
{
    (c1 as u32 - c2 as u32) as usize
}


/// Equal up to ASCII case.
pub open spec fn eq_ignore_case(a: Seq<char>, b: Seq<char>) -> bool {
    a.len() == b.len() && forall|i: int| 0 <= i < a.len() ==> lower_char(#[trigger] a[i]) == lower_char(b[i])
}

pub(crate) fn slice_eq(a: &[char], b: &str) -> (r: bool)
    ensures
        r == (a@ == b@),
{
    let n = a.len();
    if n != b.unicode_len() {
        return false;
    }
    let mut i: usize = 0;
    while i < n
        invariant
            n == a@.len() == b@.len(),
            i <= n,
            a@.take(i as int) == b@.take(i as int),
        decreases n - i,
    {
        let c = a[i];
        let d = b.get_char(i);
        if c != d {
            assert(a@[i as int] != b@[i as int]);
            return false;
        }
        assert(a@.take(i + 1) == a@.take(i as int).push(c));
        assert(b@.take(i + 1) == b@.take(i as int).push(d));
        i += 1;
    }
    assert(a@.take(n as int) == a@);
    assert(b@.take(n as int) == b@);
    true
}

pub(crate) fn slice_eq_ignore_case(a: &[char], b: &str) -> (r: bool)
    ensures
        r == eq_ignore_case(a@, b@),
{
    let n = a.len();
    if n != b.unicode_len() {
        return false;
    }
    let mut i: usize = 0;
    while i < n
        invariant
            n == a@.len() == b@.len(),
            i <= n,
            forall|j: int| 0 <= j < i ==> lower_char(#[trigger] a@[j]) == lower_char(b@[j]),
        decreases n - i,
    {
        if ascii_lower(a[i]) != ascii_lower(b.get_char(i)) {
            return false;
        }
        i += 1;
    }
    true
}

/// The characters of `s`, read once from its start.
pub(crate) fn chars_of(s: &str) -> (r: Vec<char>)
    ensures
        r@ == s@,
{
    broadcast use vstd::string::group_string_axioms;

    let mut r: Vec<char> = Vec::new();
    for c in it: s.chars()
        invariant
            r@ == it.seq().take(it.index() as int),
    {
        r.push(c);
    }
    r
}

pub(crate) fn str_eq(a: &str, b: &str) -> (r: bool)
    ensures
        r == (a@ == b@),
{
    let x = chars_of(a);
    let y = chars_of(b);
    let n = x.len();
    if n != y.len() {
        return false;
    }
    let mut i: usize = 0;
    while i < n
        invariant
            x@ == a@,
            y@ == b@,
            n == a@.len() == b@.len(),
            i <= n,
            forall|k: int| 0 <= k < i ==> a@[k] == b@[k],
        decreases n - i,
    {
        if x[i] != y[i] {
            return false;
        }
        i += 1;
    }
    assert(a@ =~= b@);
    true
}

} // verus!
