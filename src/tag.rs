use vstd::prelude::*;
use vstd::string::*;

use crate::charclass::{
    all_alnum_or_dash, alnum_char, char_sub, chars_of, is_alphanumeric_or_dash, lower, str_eq,
    to_lowercase,
};
use crate::error::{ParseError, ValidationError};
use crate::grammar::{
    dashed, lemma_alnum_or_dash_concat, parse_language_tag, scan_tag, wf_model, TagModel,
};
use crate::tables::{
    deprecated_language, deprecated_region, find_deprecated_language, find_deprecated_region,
    find_grandfathered, find_grandfathered_replacement, grandfathered_match, grandfathered_replacement,
};
use crate::subtags::{
    bounds_view, contiguous, extension_pairs, leading_nonempty, lemma_bounds_below, split_bounds,
    split_dash, subtag_list,
};

verus! {

/// A language tag as described in RFC 5646.
///
/// Language tags are used to help identify languages, whether spoken,
/// written, signed, or otherwise signaled, for the purpose of
/// communication.  This includes constructed and artificial languages
/// but excludes languages not intended primarily for human
/// communication, such as programming languages.
#[derive(Debug)]
pub struct LanguageTag {
    serialization: String,
    language_end: usize,
    extlang_end: usize,
    script_end: usize,
    region_end: usize,
    variant_end: usize,
    extension_end: usize,
}

/// A tag that is one component: the whole text, with every component end at
/// its end.
pub open spec fn whole(text: Seq<char>) -> TagModel {
    TagModel {
        text,
        language_end: text.len() as int,
        extlang_end: text.len() as int,
        script_end: text.len() as int,
        region_end: text.len() as int,
        variant_end: text.len() as int,
        extension_end: text.len() as int,
    }
}

/// The text between two component ends, absent when they are equal; the dash
/// after `from` is left out.
pub open spec fn part(m: TagModel, from: int, to: int) -> Option<Seq<char>> {
    if from == to {
        None
    } else {
        Some(m.text.subrange(from + 1, to))
    }
}

pub open spec fn primary_language_of(m: TagModel) -> Seq<char> {
    m.text.take(m.language_end)
}

pub open spec fn extended_language_of(m: TagModel) -> Option<Seq<char>> {
    part(m, m.language_end, m.extlang_end)
}

pub open spec fn full_language_of(m: TagModel) -> Seq<char> {
    m.text.take(m.extlang_end)
}

pub open spec fn script_of(m: TagModel) -> Option<Seq<char>> {
    part(m, m.extlang_end, m.script_end)
}

pub open spec fn region_of(m: TagModel) -> Option<Seq<char>> {
    part(m, m.script_end, m.region_end)
}

pub open spec fn variant_of(m: TagModel) -> Option<Seq<char>> {
    part(m, m.region_end, m.variant_end)
}

pub open spec fn extension_of(m: TagModel) -> Option<Seq<char>> {
    part(m, m.variant_end, m.extension_end)
}

pub open spec fn starts_with_x_dash(s: Seq<char>) -> bool {
    s.len() >= 2 && s[0] == 'x' && s[1] == '-'
}

/// The private-use part: the whole tag when it starts with `x-`, else what
/// follows the extensions.
pub open spec fn private_use_of(m: TagModel) -> Option<Seq<char>> {
    if starts_with_x_dash(m.text) {
        Some(m.text)
    } else if m.extension_end == m.text.len() {
        None
    } else {
        Some(m.text.subrange(m.extension_end + 1, m.text.len() as int))
    }
}

pub open spec fn list_of(o: Option<Seq<char>>) -> Seq<Seq<char>> {
    match o {
        Some(p) => subtag_list(p),
        None => Seq::empty(),
    }
}

pub open spec fn extended_language_subtags_of(m: TagModel) -> Seq<Seq<char>> {
    list_of(extended_language_of(m))
}

pub open spec fn variant_subtags_of(m: TagModel) -> Seq<Seq<char>> {
    list_of(variant_of(m))
}

pub open spec fn extension_subtags_of(m: TagModel) -> Seq<(char, Seq<char>)> {
    match extension_of(m) {
        Some(p) => extension_pairs(split_dash(p), None),
        None => Seq::empty(),
    }
}

pub open spec fn private_use_subtags_of(m: TagModel) -> Seq<Seq<char>> {
    match private_use_of(m) {
        Some(p) => subtag_list(p.skip(2)),
        None => Seq::empty(),
    }
}

pub open spec fn str_seq_view(v: Seq<&str>) -> Seq<Seq<char>> {
    v.map_values(|t: &str| t@)
}

pub open spec fn pair_seq_view(v: Seq<(char, &str)>) -> Seq<(char, Seq<char>)> {
    v.map_values(|p: (char, &str)| (p.0, p.1@))
}

pub open spec fn tag_result(r: Result<LanguageTag, ParseError>) -> Result<TagModel, ParseError> {
    match r {
        Ok(t) => Ok(t@),
        Err(e) => Err(e),
    }
}

pub open spec fn opt_str_view(o: Option<&str>) -> Option<Seq<char>> {
    match o {
        Some(t) => Some(t@),
        None => None,
    }
}

/// A text that starts with the private-use singleton, in either case, and a
/// dash.
pub open spec fn is_private_use_text(s: Seq<char>) -> bool {
    s.len() >= 2 && (s[0] == 'x' || s[0] == 'X') && s[1] == '-'
}

/// The tag that a text parses to, or the error that it fails with.
///
/// A grandfathered tag, matched without regard to case, is kept whole in the
/// table's spelling. A text that starts with `x-` is private use throughout:
/// it may hold only letters, digits and dashes and is kept whole in lower
/// case. Any other text is read subtag by subtag.
pub open spec fn parse_model(s: Seq<char>) -> Result<TagModel, ParseError> {
    match grandfathered_match(s) {
        Some(g) => Ok(whole(g)),
        None => if is_private_use_text(s) {
            if !all_alnum_or_dash(s) {
                Err(ParseError::ForbiddenChar)
            } else if s.len() == 2 {
                Err(ParseError::EmptyPrivateUse)
            } else {
                Ok(whole(lower(s)))
            }
        } else {
            scan_tag(split_dash(s))
        },
    }
}

/// Builds a tag that is one component: its primary language.
fn tag_from_primary_language(serialization: String, end: usize) -> (r: LanguageTag)
    requires
        all_alnum_or_dash(serialization@),
        end == serialization@.len(),
    ensures
        r@ == whole(serialization@),
{
    LanguageTag::from_parts(serialization, end, end, end, end, end, end)
}

/// Letters, digits and dashes are ASCII.
pub proof fn lemma_alnum_or_dash_ascii(s: Seq<char>)
    requires
        all_alnum_or_dash(s),
    ensures
        vstd::utf8::is_ascii_chars(s),
{
    assert forall|i: int| 0 <= i < s.len() implies '\0' <= #[trigger] s[i] <= '\u{7f}' by {
        assert(alnum_char(s[i]) || s[i] == '-');
    }
}

/// The subtags of a dash-separated list of letters, digits and dashes, read up
/// to the first empty one.
fn subtags_of<'a>(p: &'a str) -> (r: Vec<&'a str>)
    requires
        all_alnum_or_dash(p@),
    ensures
        str_seq_view(r@) == subtag_list(p@),
        forall|i: int| 0 <= i < r@.len() ==> all_alnum_or_dash(#[trigger] r@[i]@),
{
    proof {
        lemma_alnum_or_dash_ascii(p@);
    }
    let chars = chars_of(p);
    let bounds = split_bounds(chars.as_slice());
    let ghost ps = split_dash(p@);
    let mut r: Vec<&'a str> = Vec::new();
    let mut j: usize = 0;
    proof {
        assert(ps.skip(0) =~= ps);
        assert(str_seq_view(r@) + leading_nonempty(ps) =~= leading_nonempty(ps));
    }
    while j < bounds.len()
        invariant
            vstd::utf8::is_ascii_chars(p@),
            chars@ == p@,
            ps == split_dash(p@),
            bounds_view(p@, bounds@) == ps,
            contiguous(bounds@),
            bounds@.len() > 0 && bounds@.last().1 == p@.len(),
            j <= bounds@.len(),
            leading_nonempty(ps) == str_seq_view(r@) + leading_nonempty(ps.skip(j as int)),
            all_alnum_or_dash(p@),
            forall|i: int| 0 <= i < r@.len() ==> all_alnum_or_dash(#[trigger] r@[i]@),
        decreases bounds.len() - j,
    {
        let (a, b) = bounds[j];
        proof {
            assert(bounds@[j as int].0 <= bounds@[j as int].1);
            lemma_bounds_below(bounds@, j as int);
            assert(ps[j as int] == p@.subrange(a as int, b as int));
            assert(ps.skip(j as int)[0] == ps[j as int]);
            assert(ps.skip(j as int).skip(1) =~= ps.skip(j + 1));
        }
        if a == b {
            proof {
                assert(leading_nonempty(ps.skip(j as int)) =~= Seq::<Seq<char>>::empty());
                assert(str_seq_view(r@) + Seq::<Seq<char>>::empty() =~= str_seq_view(r@));
            }
            return r;
        }
        let piece = p.substring_ascii(a, b);
        proof {
            assert forall|i: int| 0 <= i < piece@.len() implies alnum_char(#[trigger] piece@[i]) || piece@[i] == '-' by {
                assert(piece@[i] == p@[a + i]);
            }
        }
        let ghost before = r@;
        r.push(piece);
        proof {
            assert(str_seq_view(r@) =~= str_seq_view(before).push(piece@));
            assert(str_seq_view(before) + leading_nonempty(ps.skip(j as int)) =~= str_seq_view(r@)
                + leading_nonempty(ps.skip(j + 1)));
        }
        j += 1;
    }
    proof {
        assert(ps.skip(j as int) =~= Seq::<Seq<char>>::empty());
        assert(str_seq_view(r@) + Seq::<Seq<char>>::empty() =~= str_seq_view(r@));
    }
    r
}

/// Each extension value with the singleton that last came before it, read up
/// to the first empty subtag.
fn extension_pairs_of<'a>(p: &'a str) -> (r: Vec<(char, &'a str)>)
    requires
        all_alnum_or_dash(p@),
    ensures
        pair_seq_view(r@) == extension_pairs(split_dash(p@), None),
{
    proof {
        lemma_alnum_or_dash_ascii(p@);
    }
    let chars = chars_of(p);
    let bounds = split_bounds(chars.as_slice());
    let ghost ps = split_dash(p@);
    let mut r: Vec<(char, &'a str)> = Vec::new();
    let mut singleton: Option<char> = None;
    let mut j: usize = 0;
    proof {
        assert(ps.skip(0) =~= ps);
        assert(pair_seq_view(r@) + extension_pairs(ps, None) =~= extension_pairs(ps, None));
    }
    while j < bounds.len()
        invariant
            vstd::utf8::is_ascii_chars(p@),
            chars@ == p@,
            ps == split_dash(p@),
            bounds_view(p@, bounds@) == ps,
            contiguous(bounds@),
            bounds@.len() > 0 && bounds@.last().1 == p@.len(),
            j <= bounds@.len(),
            extension_pairs(ps, None) == pair_seq_view(r@) + extension_pairs(ps.skip(j as int), singleton),
        decreases bounds.len() - j,
    {
        let (a, b) = bounds[j];
        proof {
            assert(bounds@[j as int].0 <= bounds@[j as int].1);
            lemma_bounds_below(bounds@, j as int);
            assert(ps[j as int] == p@.subrange(a as int, b as int));
            assert(ps.skip(j as int)[0] == ps[j as int]);
            assert(ps.skip(j as int).skip(1) =~= ps.skip(j + 1));
        }
        if a == b {
            proof {
                assert(extension_pairs(ps.skip(j as int), singleton) =~= Seq::<(char, Seq<char>)>::empty());
                assert(pair_seq_view(r@) + Seq::<(char, Seq<char>)>::empty() =~= pair_seq_view(r@));
            }
            return r;
        }
        if b - a == 1 {
            singleton = Some(chars[a]);
            proof {
                assert(ps[j as int][0] == chars@[a as int]);
            }
        } else if let Some(k) = singleton {
            let piece = p.substring_ascii(a, b);
            let ghost before = r@;
            r.push((k, piece));
            proof {
                assert(pair_seq_view(r@) =~= pair_seq_view(before).push((k, piece@)));
                assert(pair_seq_view(before) + extension_pairs(ps.skip(j as int), singleton) =~= pair_seq_view(r@)
                    + extension_pairs(ps.skip(j + 1), singleton));
            }
        }
        j += 1;
    }
    proof {
        assert(ps.skip(j as int) =~= Seq::<Seq<char>>::empty());
        assert(pair_seq_view(r@) + Seq::<(char, Seq<char>)>::empty() =~= pair_seq_view(r@));
    }
    r
}

/// A component of a range matches that of a tag when the range leaves it out
/// or both hold the same text.
pub open spec fn option_matches(a: Option<Seq<char>>, b: Option<Seq<char>>) -> bool {
    match (a, b) {
        (Some(x), Some(y)) => x == y,
        (None, _) => true,
        (_, None) => false,
    }
}

/// The two lists agree at each place that both have.
pub open spec fn zip_matches(a: Seq<Seq<char>>, b: Seq<Seq<char>>) -> bool {
    forall|i: int| 0 <= i < a.len() && 0 <= i < b.len() ==> a[i] == b[i]
}

/// A language range has no extension and no private use part.
pub open spec fn is_range(m: TagModel) -> bool {
    extension_of(m) is None && private_use_of(m) is None
}

/// Basic filtering of a tag by a range: the same full language, and script,
/// region and variants as far as the range gives them.
pub open spec fn matches_model(range: TagModel, tag: TagModel) -> bool {
    &&& full_language_of(range) == full_language_of(tag)
    &&& option_matches(script_of(range), script_of(tag))
    &&& option_matches(region_of(range), region_of(tag))
    &&& zip_matches(variant_subtags_of(range), variant_subtags_of(tag))
}

/// A variant as it stands in a canonical tag.
pub open spec fn renamed_variant(v: Seq<char>) -> Seq<char> {
    if v == "heploc"@ {
        "alalc97"@
    } else {
        v
    }
}

/// The text `t` followed by each variant, renamed, after a dash.
pub open spec fn append_variants(t: Seq<char>, vs: Seq<Seq<char>>) -> Seq<char>
    decreases vs.len(),
{
    if vs.len() == 0 {
        t
    } else {
        dashed(append_variants(t, vs.drop_last()), renamed_variant(vs.last()))
    }
}

pub open spec fn with_part(t: Seq<char>, p: Option<Seq<char>>) -> Seq<char> {
    match p {
        Some(x) => dashed(t, x),
        None => t,
    }
}

pub open spec fn or_else(a: Option<Seq<char>>, b: Seq<char>) -> Seq<char> {
    match a {
        Some(x) => x,
        None => b,
    }
}

/// The canonical language of a tag that is not replaced whole: the extended
/// language if there is one, else the primary language, and then its
/// replacement if it is deprecated.
pub open spec fn canonical_language(m: TagModel) -> Seq<char> {
    let l = or_else(extended_language_of(m), primary_language_of(m));
    or_else(deprecated_language(l), l)
}

pub open spec fn canonical_region(m: TagModel) -> Option<Seq<char>> {
    match region_of(m) {
        Some(r) => Some(or_else(deprecated_region(r), r)),
        None => None,
    }
}

/// The canonical form of a tag: a tag that is private use throughout is kept
/// as it is; a grandfathered primary language with a replacement gives the
/// replacement alone; otherwise the language is promoted and replaced, the
/// region replaced, `heploc` renamed, and the rest copied.
pub open spec fn canonical_model(m: TagModel) -> TagModel {
    if starts_with_x_dash(m.text) {
        whole(m.text)
    } else {
        canonical_model_of_language_tag(m)
    }
}

/// The canonical form of a tag that does not start with `x-`.
pub open spec fn canonical_model_of_language_tag(m: TagModel) -> TagModel {
    match grandfathered_replacement(primary_language_of(m)) {
        Some(rep) => whole(rep),
        None => {
            let t1 = canonical_language(m);
            let t2 = with_part(t1, script_of(m));
            let t3 = with_part(t2, canonical_region(m));
            let t4 = append_variants(t3, variant_subtags_of(m));
            let t5 = with_part(t4, extension_of(m));
            let t6 = with_part(t5, private_use_of(m));
            TagModel {
                text: t6,
                language_end: t1.len() as int,
                extlang_end: t1.len() as int,
                script_end: t2.len() as int,
                region_end: t3.len() as int,
                variant_end: t4.len() as int,
                extension_end: t5.len() as int,
            }
        },
    }
}

pub proof fn lemma_append_variants_grows(t: Seq<char>, vs: Seq<Seq<char>>, k: int)
    requires
        0 <= k <= vs.len(),
    ensures
        append_variants(t, vs.take(k)).len() <= append_variants(t, vs).len(),
        t.len() <= append_variants(t, vs).len(),
    decreases vs.len(),
{
    if vs.len() > 0 {
        if k < vs.len() {
            assert(vs.drop_last().take(k) =~= vs.take(k));
            lemma_append_variants_grows(t, vs.drop_last(), k);
        } else {
            assert(vs.take(k) =~= vs);
            lemma_append_variants_grows(t, vs.drop_last(), 0);
        }
    } else {
        assert(vs.take(k) =~= vs);
    }
}

/// Appends `s` to `out`; returns the number of characters appended.
fn append(out: &mut String, s: &str) -> (n: usize)
    ensures
        final(out)@ == old(out)@ + s@,
        n == s@.len(),
{
    let chars = chars_of(s);
    let n = chars.len();
    let mut i: usize = 0;
    while i < n
        invariant
            chars@ == s@,
            n == s@.len(),
            i <= n,
            out@ == old(out)@ + s@.take(i as int),
        decreases n - i,
    {
        out.push(chars[i]);
        assert(s@.take(i + 1) =~= s@.take(i as int).push(chars@[i as int]));
        i += 1;
    }
    assert(s@.take(n as int) =~= s@);
    n
}

/// Appends a dash and `p` to `out`; returns the number of characters appended.
fn push_part(out: &mut String, p: &str) -> (n: usize)
    requires
        old(out)@.len() + 1 + p@.len() <= usize::MAX,
        all_alnum_or_dash(old(out)@),
        all_alnum_or_dash(p@),
    ensures
        final(out)@ == dashed(old(out)@, p@),
        all_alnum_or_dash(final(out)@),
        n == p@.len() + 1,
{
    let ghost before = out@;
    out.push('-');
    let n = append(out, p);
    proof {
        assert(all_alnum_or_dash(seq!['-'])) by {
            assert(seq!['-'][0] == '-');
        }
        lemma_alnum_or_dash_concat(before, seq!['-']);
        lemma_alnum_or_dash_concat(before + seq!['-'], p@);
        assert(out@ =~= dashed(before, p@));
    }
    n + 1
}

/// Some subtag occurs twice, at two different places.
pub open spec fn has_duplicate(vs: Seq<Seq<char>>) -> bool {
    exists|i: int, j: int| 0 <= i < vs.len() && 0 <= j < vs.len() && i != j && vs[i] == vs[j]
}

/// The slot of a letter or digit among the 36 extension singletons; upper and
/// lower case share a slot.
pub open spec fn singleton_key(c: char) -> Option<int> {
    if '0' <= c && c <= '9' {
        Some(c as int - '0' as int)
    } else if 'a' <= c && c <= 'z' {
        Some(10 + c as int - 'a' as int)
    } else if 'A' <= c && c <= 'Z' {
        Some(10 + c as int - 'A' as int)
    } else {
        None
    }
}

/// Piece `i` is a one-character subtag with the singleton slot `k`.
pub open spec fn singleton_at(ps: Seq<Seq<char>>, i: int, k: int) -> bool {
    0 <= i < ps.len() && ps[i].len() == 1 && singleton_key(ps[i][0]) == Some(k)
}

/// Two of the first `n` pieces are singletons of the same slot.
pub open spec fn duplicate_singleton_before(ps: Seq<Seq<char>>, n: int) -> bool {
    exists|i: int, j: int, k: int| 0 <= i < j < n && singleton_at(ps, i, k) && singleton_at(ps, j, k)
}

/// The outcome of validation: no variant twice, no extension singleton twice,
/// at most one extended language subtag; checked in that order.
pub open spec fn validation_of(m: TagModel) -> Result<(), ValidationError> {
    if has_duplicate(variant_subtags_of(m)) {
        Err(ValidationError::DuplicateVariant)
    } else if (match extension_of(m) {
        Some(e) => duplicate_singleton_before(split_dash(e), split_dash(e).len() as int),
        None => false,
    }) {
        Err(ValidationError::DuplicateExtension)
    } else if (match extended_language_of(m) {
        Some(e) => e.contains('-'),
        None => false,
    }) {
        Err(ValidationError::MultipleExtendedLanguageSubtags)
    } else {
        Ok(())
    }
}

/// A set of extension singletons, one slot for each letter, whatever its
/// case, and each digit.
struct AlphanumericLowerCharSet {
    alphabetic_set: [bool; 26],
    numeric_set: [bool; 10],
}

impl AlphanumericLowerCharSet {
    spec fn has(&self, k: int) -> bool {
        if k < 10 {
            self.numeric_set@[k]
        } else {
            self.alphabetic_set@[k - 10]
        }
    }

    fn new() -> (r: Self)
        ensures
            forall|k: int| 0 <= k < 36 ==> !#[trigger] r.has(k),
    {
        let r = AlphanumericLowerCharSet { alphabetic_set: [false; 26], numeric_set: [false; 10] };
        assert forall|k: int| 0 <= k < 36 implies !#[trigger] r.has(k) by {
            if k < 10 {
                assert(r.numeric_set@[k] == false);
            } else {
                assert(r.alphabetic_set@[k - 10] == false);
            }
        }
        r
    }

    fn contains(&self, c: char) -> (r: bool)
        ensures
            r == (singleton_key(c) matches Some(k) && self.has(k)),
    {
        if '0' <= c && c <= '9' {
            self.numeric_set[char_sub(c, '0')]
        } else if 'a' <= c && c <= 'z' {
            self.alphabetic_set[char_sub(c, 'a')]
        } else if 'A' <= c && c <= 'Z' {
            self.alphabetic_set[char_sub(c, 'A')]
        } else {
            false
        }
    }

    fn insert(&mut self, c: char)
        ensures
            forall|k: int| 0 <= k < 36 ==> #[trigger] final(self).has(k) == (old(self).has(k) || singleton_key(c) == Some(k)),
    {
        if '0' <= c && c <= '9' {
            self.numeric_set[char_sub(c, '0')] = true;
        } else if 'a' <= c && c <= 'z' {
            self.alphabetic_set[char_sub(c, 'a')] = true;
        } else if 'A' <= c && c <= 'Z' {
            self.alphabetic_set[char_sub(c, 'A')] = true;
        }
    }
}

/// Some subtag of the list occurs twice.
fn find_duplicate(vs: &Vec<&str>) -> (r: bool)
    ensures
        r == has_duplicate(str_seq_view(vs@)),
{
    let ghost v = str_seq_view(vs@);
    let n = vs.len();
    let mut i: usize = 0;
    while i < n
        invariant
            n == vs@.len() == v.len(),
            v == str_seq_view(vs@),
            i <= n,
            forall|a: int, b: int| 0 <= a < i && 0 <= b < n && a != b ==> v[a] != v[b],
        decreases n - i,
    {
        let mut j: usize = 0;
        while j < n
            invariant
                n == vs@.len() == v.len(),
                v == str_seq_view(vs@),
                i < n,
                j <= n,
                forall|a: int, b: int| 0 <= a < i && 0 <= b < n && a != b ==> v[a] != v[b],
                forall|b: int| 0 <= b < j && b != i ==> v[i as int] != v[b],
            decreases n - j,
        {
            if i != j && str_eq(vs[i], vs[j]) {
                assert(v[i as int] == v[j as int]);
                return true;
            }
            j += 1;
        }
        i += 1;
    }
    false
}

/// Two singletons of one slot among the subtags of an extension list.
fn find_duplicate_singleton(ext: &str) -> (r: bool)
    ensures
        r == duplicate_singleton_before(split_dash(ext@), split_dash(ext@).len() as int),
{
    let chars = chars_of(ext);
    let bounds = split_bounds(chars.as_slice());
    let ghost ps = split_dash(ext@);
    let mut seen = AlphanumericLowerCharSet::new();
    let mut j: usize = 0;
    while j < bounds.len()
        invariant
            chars@ == ext@,
            ps == split_dash(ext@),
            bounds_view(ext@, bounds@) == ps,
            contiguous(bounds@),
            bounds@.len() > 0 && bounds@.last().1 == ext@.len(),
            j <= bounds@.len(),
            forall|k: int| 0 <= k < 36 ==> (#[trigger] seen.has(k) <==> exists|i: int| 0 <= i < j && singleton_at(ps, i, k)),
            !duplicate_singleton_before(ps, j as int),
        decreases bounds.len() - j,
    {
        let (a, b) = bounds[j];
        proof {
            assert(bounds@[j as int].0 <= bounds@[j as int].1);
            lemma_bounds_below(bounds@, j as int);
            assert(ps[j as int] == ext@.subrange(a as int, b as int));
        }
        if b - a == 1 {
            let c = chars[a];
            proof {
                assert(ps[j as int][0] == c);
            }
            if seen.contains(c) {
                proof {
                    let k = singleton_key(c)->Some_0;
                    assert(0 <= k < 36);
                    let i = choose|i: int| 0 <= i < j && singleton_at(ps, i, k);
                    assert(singleton_at(ps, i, k) && singleton_at(ps, j as int, k));
                    assert(duplicate_singleton_before(ps, ps.len() as int));
                }
                return true;
            }
            let ghost old_seen = seen;
            seen.insert(c);
            proof {
                assert forall|k: int| 0 <= k < 36 implies (#[trigger] seen.has(k) <==> exists|i: int|
                    0 <= i < j + 1 && singleton_at(ps, i, k)) by {
                    if singleton_key(c) == Some(k) {
                        assert(singleton_at(ps, j as int, k));
                    }
                    if exists|i: int| 0 <= i < j + 1 && singleton_at(ps, i, k) {
                        let i = choose|i: int| 0 <= i < j + 1 && singleton_at(ps, i, k);
                        if i < j {
                            assert(old_seen.has(k));
                        }
                    }
                }
                assert(!duplicate_singleton_before(ps, j + 1)) by {
                    if duplicate_singleton_before(ps, j + 1) {
                        let (i1, i2, k) = choose|i1: int, i2: int, k: int| 0 <= i1 < i2 < j + 1 && singleton_at(ps, i1, k) && singleton_at(ps, i2, k);
                        if i2 < j {
                            assert(duplicate_singleton_before(ps, j as int));
                        } else {
                            assert(0 <= k < 36);
                            assert(old_seen.has(k));
                        }
                    }
                }
            }
        } else {
            proof {
                assert forall|k: int| 0 <= k < 36 implies (#[trigger] seen.has(k) <==> exists|i: int|
                    0 <= i < j + 1 && singleton_at(ps, i, k)) by {
                    if exists|i: int| 0 <= i < j + 1 && singleton_at(ps, i, k) {
                        let i = choose|i: int| 0 <= i < j + 1 && singleton_at(ps, i, k);
                        assert(i < j);
                    }
                }
                assert(!duplicate_singleton_before(ps, j + 1)) by {
                    if duplicate_singleton_before(ps, j + 1) {
                        let (i1, i2, k) = choose|i1: int, i2: int, k: int| 0 <= i1 < i2 < j + 1 && singleton_at(ps, i1, k) && singleton_at(ps, i2, k);
                        assert(i2 < j);
                        assert(duplicate_singleton_before(ps, j as int));
                    }
                }
            }
        }
        j += 1;
    }
    false
}

/// The text holds a dash.
fn contains_dash(s: &str) -> (r: bool)
    ensures
        r == s@.contains('-'),
{
    let chars = chars_of(s);
    let n = chars.len();
    let mut i: usize = 0;
    while i < n
        invariant
            chars@ == s@,
            n == s@.len(),
            i <= n,
            forall|k: int| 0 <= k < i ==> s@[k] != '-',
        decreases n - i,
    {
        if chars[i] == '-' {
            assert(s@[i as int] == '-');
            return true;
        }
        i += 1;
    }
    false
}

impl View for LanguageTag {
    type V = TagModel;

    closed spec fn view(&self) -> TagModel {
        TagModel {
            text: self.serialization@,
            language_end: self.language_end as int,
            extlang_end: self.extlang_end as int,
            script_end: self.script_end as int,
            region_end: self.region_end as int,
            variant_end: self.variant_end as int,
            extension_end: self.extension_end as int,
        }
    }
}

/// Two tags are equal when their normalized texts are equal.
impl PartialEq for LanguageTag {
    fn eq(&self, other: &LanguageTag) -> (r: bool)
        ensures
            r == (self@.text == other@.text),
    {
        self.serialization == other.serialization
    }
}

impl vstd::std_specs::cmp::PartialEqSpecImpl for LanguageTag {
    open spec fn obeys_eq_spec() -> bool {
        true
    }

    open spec fn eq_spec(&self, other: &LanguageTag) -> bool {
        self@.text == other@.text
    }
}

impl Eq for LanguageTag {

}

/// A tag hashes as its normalized text, so that equal tags hash alike.
impl std::hash::Hash for LanguageTag {
    fn hash<H: std::hash::Hasher>(&self, state: &mut H) {
        self.serialization.hash(state);
    }
}

impl std::str::FromStr for LanguageTag {
    type Err = ParseError;

    fn from_str(input: &str) -> Result<LanguageTag, ParseError> {
        LanguageTag::parse(input)
    }
}

impl Clone for LanguageTag {
    fn clone(&self) -> (r: Self)
        ensures
            r@ == self@,
    {
        proof {
            use_type_invariant(self);
        }
        LanguageTag {
            serialization: self.serialization.clone(),
            language_end: self.language_end,
            extlang_end: self.extlang_end,
            script_end: self.script_end,
            region_end: self.region_end,
            variant_end: self.variant_end,
            extension_end: self.extension_end,
        }
    }
}

impl LanguageTag {
    #[verifier::type_invariant]
    spec fn well_formed(&self) -> bool {
        wf_model(self@) && all_alnum_or_dash(self@.text) && self@.text.len() <= usize::MAX
    }

    pub(crate) fn from_parts(
        serialization: String,
        language_end: usize,
        extlang_end: usize,
        script_end: usize,
        region_end: usize,
        variant_end: usize,
        extension_end: usize,
    ) -> (r: LanguageTag)
        requires
            wf_model(
                TagModel {
                    text: serialization@,
                    language_end: language_end as int,
                    extlang_end: extlang_end as int,
                    script_end: script_end as int,
                    region_end: region_end as int,
                    variant_end: variant_end as int,
                    extension_end: extension_end as int,
                },
            ),
            all_alnum_or_dash(serialization@),
            serialization@.len() <= usize::MAX,
        ensures
            r@ == (TagModel {
                text: serialization@,
                language_end: language_end as int,
                extlang_end: extlang_end as int,
                script_end: script_end as int,
                region_end: region_end as int,
                variant_end: variant_end as int,
                extension_end: extension_end as int,
            }),
    {
        LanguageTag {
            serialization,
            language_end,
            extlang_end,
            script_end,
            region_end,
            variant_end,
            extension_end,
        }
    }

    /// Create a `LanguageTag` from its serialization.
    ///
    /// This parser accepts the language tags that are "well-formed" according
    /// to RFC 5646. Full validation could be done with the `validate` method.
    pub fn parse(input: &str) -> (r: Result<LanguageTag, ParseError>)
        ensures
            tag_result(r) == parse_model(input@),
    {
        let chars = chars_of(input);
        let text = chars.as_slice();
        if let Some(tag) = find_grandfathered(text) {
            let g = chars_of(tag);
            let serialization = tag.to_owned();
            Ok(tag_from_primary_language(serialization, g.len()))
        } else if text.len() >= 2 && (text[0] == 'x' || text[0] == 'X') && text[1] == '-' {
            if !is_alphanumeric_or_dash(text) {
                Err(ParseError::ForbiddenChar)
            } else if text.len() == 2 {
                Err(ParseError::EmptyPrivateUse)
            } else {
                let mut serialization = String::new();
                to_lowercase(&mut serialization, text);
                proof {
                    crate::grammar::lemma_case_keeps_alnum_or_dash(text@);
                }
                Ok(tag_from_primary_language(serialization, text.len()))
            }
        } else {
            parse_language_tag(text)
        }
    }

    /// Return the serialization of this language tag.
    pub fn as_str(&self) -> (r: &str)
        ensures
            r@ == self@.text,
    {
        self.serialization.as_str()
    }

    /// Return the serialization of this language tag, consuming the tag.
    pub fn into_string(self) -> (r: String)
        ensures
            r@ == self@.text,
    {
        self.serialization
    }

    /// The text from `from` to `to`, which are offsets into an ASCII text.
    fn slice(&self, from: usize, to: usize) -> (r: &str)
        requires
            from <= to <= self@.text.len(),
        ensures
            r@ == self@.text.subrange(from as int, to as int),
            all_alnum_or_dash(r@),
    {
        proof {
            use_type_invariant(self);
            lemma_alnum_or_dash_ascii(self@.text);
        }
        let s = self.serialization.as_str();
        let r = s.substring_ascii(from, to);
        assert(all_alnum_or_dash(r@)) by {
            assert forall|i: int| 0 <= i < r@.len() implies alnum_char(#[trigger] r@[i]) || r@[i] == '-' by {
                assert(r@[i] == self@.text[from + i]);
            }
        }
        r
    }

    /// The component between two ends; absent when they are equal.
    fn component(&self, from: usize, to: usize) -> (r: Option<&str>)
        requires
            from <= to <= self@.text.len(),
        ensures
            opt_str_view(r) == part(self@, from as int, to as int),
            r matches Some(t) ==> all_alnum_or_dash(t@),
    {
        if from == to {
            None
        } else {
            Some(self.slice(from + 1, to))
        }
    }

    /// Return the primary language subtag.
    pub fn primary_language(&self) -> (r: &str)
        ensures
            r@ == primary_language_of(self@),
    {
        proof {
            use_type_invariant(self);
        }
        self.slice(0, self.language_end)
    }

    /// Return the extended language subtags. Valid language tags have at most
    /// one extended language.
    pub fn extended_language(&self) -> (r: Option<&str>)
        ensures
            opt_str_view(r) == extended_language_of(self@),
    {
        proof {
            use_type_invariant(self);
        }
        self.component(self.language_end, self.extlang_end)
    }

    /// Return the primary language subtag and its extended language subtags.
    pub fn full_language(&self) -> (r: &str)
        ensures
            r@ == full_language_of(self@),
    {
        proof {
            use_type_invariant(self);
        }
        self.slice(0, self.extlang_end)
    }

    /// Return the script subtag.
    pub fn script(&self) -> (r: Option<&str>)
        ensures
            opt_str_view(r) == script_of(self@),
    {
        proof {
            use_type_invariant(self);
        }
        self.component(self.extlang_end, self.script_end)
    }

    /// Return the region subtag.
    pub fn region(&self) -> (r: Option<&str>)
        ensures
            opt_str_view(r) == region_of(self@),
    {
        proof {
            use_type_invariant(self);
        }
        self.component(self.script_end, self.region_end)
    }

    /// Return the variant subtags, joined by dashes.
    pub fn variant(&self) -> (r: Option<&str>)
        ensures
            opt_str_view(r) == variant_of(self@),
    {
        proof {
            use_type_invariant(self);
        }
        self.component(self.region_end, self.variant_end)
    }

    /// The extended language subtags, in order. Valid language tags have at
    /// most one extended language.
    pub fn extended_language_subtags(&self) -> (r: Vec<&str>)
        ensures
            str_seq_view(r@) == extended_language_subtags_of(self@),
    {
        proof {
            use_type_invariant(self);
        }
        match self.component(self.language_end, self.extlang_end) {
            Some(parts) => subtags_of(parts),
            None => Vec::new(),
        }
    }

    /// The variant subtags, in order.
    pub fn variant_subtags(&self) -> (r: Vec<&str>)
        ensures
            str_seq_view(r@) == variant_subtags_of(self@),
    {
        proof {
            use_type_invariant(self);
        }
        match self.component(self.region_end, self.variant_end) {
            Some(parts) => subtags_of(parts),
            None => Vec::new(),
        }
    }

    /// Return the extension subtags, joined by dashes.
    pub fn extension(&self) -> (r: Option<&str>)
        ensures
            opt_str_view(r) == extension_of(self@),
    {
        proof {
            use_type_invariant(self);
        }
        self.component(self.variant_end, self.extension_end)
    }

    /// The extension values in order, each with the singleton of its extension.
    pub fn extension_subtags(&self) -> (r: Vec<(char, &str)>)
        ensures
            pair_seq_view(r@) == extension_subtags_of(self@),
    {
        proof {
            use_type_invariant(self);
        }
        match self.component(self.variant_end, self.extension_end) {
            Some(parts) => extension_pairs_of(parts),
            None => Vec::new(),
        }
    }

    /// The length of the text.
    fn text_len(&self) -> (n: usize)
        ensures
            n == self@.text.len(),
    {
        proof {
            use_type_invariant(self);
            lemma_alnum_or_dash_ascii(self@.text);
        }
        let s = self.serialization.as_str();
        proof {
            vstd::string::is_ascii_spec_bytes(s);
            assert(s.spec_bytes().len() == s@.len());
        }
        s.len()
    }

    /// The text starts with `x-`: the tag is private use throughout.
    fn starts_with_x_dash(&self) -> (r: bool)
        ensures
            r == starts_with_x_dash(self@.text),
    {
        let n = self.text_len();
        let s = self.serialization.as_str();
        n >= 2 && s.get_char(0) == 'x' && s.get_char(1) == '-'
    }

    /// Return the private use subtags, with the leading `x`.
    pub fn private_use(&self) -> (r: Option<&str>)
        ensures
            opt_str_view(r) == private_use_of(self@),
            r matches Some(p) ==> 2 <= p@.len() <= usize::MAX && all_alnum_or_dash(p@),
    {
        proof {
            use_type_invariant(self);
        }
        let n = self.text_len();
        if self.starts_with_x_dash() {
            Some(self.serialization.as_str())
        } else if self.extension_end == n {
            None
        } else {
            Some(self.slice(self.extension_end + 1, n))
        }
    }

    /// The private use subtags, in order, without the leading `x`.
    pub fn private_use_subtags(&self) -> (r: Vec<&str>)
        ensures
            str_seq_view(r@) == private_use_subtags_of(self@),
    {
        match self.private_use() {
            Some(parts) => {
                proof {
                    lemma_alnum_or_dash_ascii(parts@);
                }
                proof {
                    use_type_invariant(self);
                    vstd::string::is_ascii_spec_bytes(parts);
                    assert(parts.spec_bytes().len() == parts@.len());
                }
                let rest = parts.substring_ascii(2, parts.len());
                proof {
                    assert(rest@ =~= parts@.skip(2));
                    assert(all_alnum_or_dash(rest@)) by {
                        assert forall|i: int| 0 <= i < rest@.len() implies alnum_char(#[trigger] rest@[i]) || rest@[i] == '-' by {
                            assert(rest@[i] == parts@[i + 2]);
                        }
                    }
                }
                subtags_of(rest)
            },
            None => Vec::new(),
        }
    }

    /// Checks if it is a language range, meaning that there are no extension
    /// and private use subtags.
    pub fn is_language_range(&self) -> (r: bool)
        ensures
            r == is_range(self@),
    {
        self.extension().is_none() && self.private_use().is_none()
    }

    /// Check if the language tag is "valid" according to RFC 5646, but for
    /// the registry of subtags: no variant occurs twice, no extension
    /// singleton occurs twice, and there is at most one extended language
    /// subtag.
    pub fn validate(&self) -> (r: Result<(), ValidationError>)
        ensures
            r == validation_of(self@),
    {
        proof {
            use_type_invariant(self);
        }
        let variants = self.variant_subtags();
        if find_duplicate(&variants) {
            return Err(ValidationError::DuplicateVariant);
        }
        if let Some(extension) = self.component(self.variant_end, self.extension_end) {
            if find_duplicate_singleton(extension) {
                return Err(ValidationError::DuplicateExtension);
            }
        }
        if let Some(extended_language) = self.component(self.language_end, self.extlang_end) {
            if contains_dash(extended_language) {
                return Err(ValidationError::MultipleExtendedLanguageSubtags);
            }
        }
        Ok(())
    }

    /// Check if the language tag is valid according to RFC 5646.
    pub fn is_valid(&self) -> (r: bool)
        ensures
            r == (validation_of(self@) is Ok),
    {
        self.validate().is_ok()
    }

    /// Matches language tags. The first language acts as a language range, the
    /// second one is used as a normal language tag. Fields left out of the
    /// range are ignored; variants are compared place by place as far as both
    /// lists reach. Matches are case-insensitive, since both tags are
    /// normalized.
    pub fn matches(&self, other: &LanguageTag) -> (r: bool)
        requires
            is_range(self@),
        ensures
            r == matches_model(self@, other@),
    {
        if !str_eq(self.full_language(), other.full_language()) {
            return false;
        }
        let ok = match (self.script(), other.script()) {
            (Some(a), Some(b)) => str_eq(a, b),
            (None, _) => true,
            (_, None) => false,
        };
        if !ok {
            return false;
        }
        let ok = match (self.region(), other.region()) {
            (Some(a), Some(b)) => str_eq(a, b),
            (None, _) => true,
            (_, None) => false,
        };
        if !ok {
            return false;
        }
        let a = self.variant_subtags();
        let b = other.variant_subtags();
        let ghost va = str_seq_view(a@);
        let ghost vb = str_seq_view(b@);
        let mut i: usize = 0;
        while i < a.len() && i < b.len()
            invariant
                va == str_seq_view(a@),
                vb == str_seq_view(b@),
                va == variant_subtags_of(self@),
                vb == variant_subtags_of(other@),
                i <= a@.len(),
                i <= b@.len(),
                forall|k: int| 0 <= k < i ==> va[k] == vb[k],
            decreases a.len() - i,
        {
            if !str_eq(a[i], b[i]) {
                assert(va[i as int] != vb[i as int]);
                assert(!zip_matches(va, vb));
                return false;
            }
            i += 1;
        }
        true
    }

    /// Returns the canonical version of the language tag: grandfathered tags
    /// are replaced where a replacement is known, an extended language is
    /// promoted to primary language, deprecated languages and regions are
    /// replaced, and the `heploc` variant becomes `alalc97`.
    ///
    /// The returned tag may not be completely canonical and is not validated.
    #[verifier::rlimit(40)]
    pub fn canonicalize(&self) -> (r: LanguageTag)
        requires
            canonical_model(self@).text.len() <= usize::MAX,
        ensures
            r@ == canonical_model(self@),
    {
        proof {
            use_type_invariant(self);
        }
        if self.starts_with_x_dash() {
            let n = self.text_len();
            return tag_from_primary_language(self.serialization.clone(), n);
        }
        let m = Ghost(self@);
        proof {
            assert(canonical_model(m@) == canonical_model_of_language_tag(m@));
        }
        let primary = self.slice(0, self.language_end);
        let primary_chars = chars_of(primary);
        if let Some(tag) = find_grandfathered_replacement(primary_chars.as_slice()) {
            let n = chars_of(tag).len();
            return tag_from_primary_language(tag.to_owned(), n);
        }
        proof {
            assert(all_alnum_or_dash(primary@));
        }
        let mut language = primary;
        if let Some(extended_language) = self.component(self.language_end, self.extlang_end) {
            language = extended_language;
        }
        let language_chars = chars_of(language);
        if let Some(replacement) = find_deprecated_language(language_chars.as_slice()) {
            language = replacement;
        }
        let ghost t1 = canonical_language(m@);
        let ghost t2 = with_part(t1, script_of(m@));
        let ghost t3 = with_part(t2, canonical_region(m@));
        let ghost vs = variant_subtags_of(m@);
        let ghost t4 = append_variants(t3, vs);
        let ghost t5 = with_part(t4, extension_of(m@));
        let ghost t6 = with_part(t5, private_use_of(m@));
        proof {
            assert(canonical_model_of_language_tag(m@).text == t6);
            lemma_append_variants_grows(t3, vs, 0);
            assert(t1.len() <= t2.len() <= t3.len() <= t4.len() <= t5.len() <= t6.len());
        }
        let mut serialization = String::new();
        let mut len = append(&mut serialization, language);
        assert(serialization@ =~= t1);
        let language_end = len;
        if let Some(script) = self.component(self.extlang_end, self.script_end) {
            len = len + push_part(&mut serialization, script);
        }
        assert(serialization@ == t2);
        let script_end = len;
        if let Some(region) = self.component(self.script_end, self.region_end) {
            let region_chars = chars_of(region);
            let canonical = match find_deprecated_region(region_chars.as_slice()) {
                Some(replacement) => replacement,
                None => region,
            };
            len = len + push_part(&mut serialization, canonical);
        }
        assert(serialization@ == t3);
        let region_end = len;
        let variants = match self.component(self.region_end, self.variant_end) {
            Some(parts) => subtags_of(parts),
            None => Vec::new(),
        };
        let mut j: usize = 0;
        proof {
            assert(vs.take(0) =~= Seq::<Seq<char>>::empty());
        }
        while j < variants.len()
            invariant
                vs == str_seq_view(variants@),
                forall|i: int| 0 <= i < variants@.len() ==> all_alnum_or_dash(#[trigger] variants@[i]@),
                j <= variants@.len(),
                serialization@ == append_variants(t3, vs.take(j as int)),
                all_alnum_or_dash(serialization@),
                len == serialization@.len(),
                t4.len() <= usize::MAX,
                t4 == append_variants(t3, vs),
            decreases variants.len() - j,
        {
            let variant = variants[j];
            let renamed = if str_eq(variant, "heploc") {
                proof {
                    reveal_strlit("alalc97");
                }
                "alalc97"
            } else {
                variant
            };
            proof {
                assert(vs.take(j + 1).drop_last() =~= vs.take(j as int));
                assert(vs[j as int] == variant@);
                lemma_append_variants_grows(t3, vs, j + 1);
            }
            len = len + push_part(&mut serialization, renamed);
            j += 1;
        }
        proof {
            assert(vs.take(j as int) =~= vs);
        }
        let variant_end = len;
        if let Some(extension) = self.component(self.variant_end, self.extension_end) {
            len = len + push_part(&mut serialization, extension);
        }
        assert(serialization@ == t5);
        let extension_end = len;
        if let Some(private_use) = self.private_use() {
            len = len + push_part(&mut serialization, private_use);
        }
        assert(serialization@ == t6);
        LanguageTag::from_parts(
            serialization,
            language_end,
            language_end,
            script_end,
            region_end,
            variant_end,
            extension_end,
        )
    }
}

} // verus!
