use vstd::prelude::*;

use crate::charclass::{
    all_alnum, all_alnum_or_dash, all_alpha, all_digit, alnum_char, alpha_char, ascii_lower,
    digit_char, is_alphabetic, is_alphanumeric, is_numeric, lower, lower_char, title, to_lowercase,
    to_uppercase, to_uppercase_first, upper, upper_char,
};
use crate::error::ParseError;
use crate::subtags::{bounds_view, contiguous, lemma_bounds_below, split_bounds, split_dash};
use crate::tag::{tag_result, LanguageTag};

verus! {

/// Where the scan of a tag stands: which component may come next.
#[derive(Debug, Clone, Copy, PartialEq, Eq, Structural)]
pub enum State {
    Start,
    AfterLanguage,
    AfterExtLang,
    AfterScript,
    AfterRegion,
    InExtension { expected: bool },
    InPrivateUse { expected: bool },
}

/// What the scan has built so far: the normalized text and the end of each
/// component seen in it (zero where none has been seen).
pub struct Scan {
    pub state: State,
    pub out: Seq<char>,
    pub language_end: int,
    pub extlang_end: int,
    pub script_end: int,
    pub region_end: int,
    pub variant_end: int,
    pub extension_end: int,
    pub extlangs: int,
}

/// A tag as text and the offsets where its components end.
pub struct TagModel {
    pub text: Seq<char>,
    pub language_end: int,
    pub extlang_end: int,
    pub script_end: int,
    pub region_end: int,
    pub variant_end: int,
    pub extension_end: int,
}

pub open spec fn initial_scan() -> Scan {
    Scan {
        state: State::Start,
        out: Seq::empty(),
        language_end: 0,
        extlang_end: 0,
        script_end: 0,
        region_end: 0,
        variant_end: 0,
        extension_end: 0,
        extlangs: 0,
    }
}

pub open spec fn dashed(out: Seq<char>, t: Seq<char>) -> Seq<char> {
    out + seq!['-'] + t
}

pub open spec fn is_singleton_x(t: Seq<char>) -> bool {
    t =~= seq!['x'] || t =~= seq!['X']
}

pub open spec fn is_variant(t: Seq<char>) -> bool {
    all_alnum(t) && ((t.len() >= 5 && alpha_char(t[0])) || (t.len() >= 4 && digit_char(t[0])))
}

pub open spec fn is_region(t: Seq<char>) -> bool {
    (t.len() == 2 && all_alpha(t)) || (t.len() == 3 && all_digit(t))
}

/// One subtag read in the given scan state.
pub open spec fn step(st: Scan, t: Seq<char>) -> Result<Scan, ParseError> {
    if t.len() == 0 {
        Err(ParseError::EmptySubtag)
    } else if t.len() > 8 {
        Err(ParseError::SubtagTooLong)
    } else if st.state == State::Start {
        if t.len() < 2 || !all_alpha(t) {
            Err(ParseError::InvalidLanguage)
        } else {
            let out = st.out + lower(t);
            Ok(
                Scan {
                    state: if t.len() < 4 {
                        State::AfterLanguage
                    } else {
                        State::AfterExtLang
                    },
                    out,
                    language_end: out.len() as int,
                    ..st
                },
            )
        }
    } else if st.state is InPrivateUse {
        if !all_alnum(t) {
            Err(ParseError::InvalidSubtag)
        } else {
            Ok(Scan { state: State::InPrivateUse { expected: false }, out: dashed(st.out, lower(t)), ..st })
        }
    } else if is_singleton_x(t) {
        if st.state == (State::InExtension { expected: true }) {
            Err(ParseError::EmptyExtension)
        } else {
            Ok(Scan { state: State::InPrivateUse { expected: true }, out: dashed(st.out, seq!['x']), ..st })
        }
    } else if t.len() == 1 && all_alnum(t) {
        if st.state == (State::InExtension { expected: true }) {
            Err(ParseError::EmptyExtension)
        } else {
            Ok(
                Scan {
                    state: State::InExtension { expected: true },
                    out: dashed(st.out, seq![lower_char(t[0])]),
                    ..st
                },
            )
        }
    } else if st.state is InExtension {
        if !all_alnum(t) {
            Err(ParseError::InvalidSubtag)
        } else {
            let out = dashed(st.out, lower(t));
            Ok(
                Scan {
                    state: State::InExtension { expected: false },
                    out,
                    extension_end: out.len() as int,
                    ..st
                },
            )
        }
    } else if st.state == State::AfterLanguage && t.len() == 3 && all_alpha(t) {
        if st.extlangs + 1 > 3 {
            Err(ParseError::TooManyExtlangs)
        } else {
            let out = dashed(st.out, lower(t));
            Ok(Scan { out, extlang_end: out.len() as int, extlangs: st.extlangs + 1, ..st })
        }
    } else if (st.state == State::AfterLanguage || st.state == State::AfterExtLang) && t.len() == 4
        && all_alpha(t) {
        let out = dashed(st.out, title(t));
        Ok(Scan { state: State::AfterScript, out, script_end: out.len() as int, ..st })
    } else if (st.state == State::AfterLanguage || st.state == State::AfterExtLang || st.state
        == State::AfterScript) && is_region(t) {
        let out = dashed(st.out, upper(t));
        Ok(Scan { state: State::AfterRegion, out, region_end: out.len() as int, ..st })
    } else if (st.state == State::AfterLanguage || st.state == State::AfterExtLang || st.state
        == State::AfterScript || st.state == State::AfterRegion) && is_variant(t) {
        let out = dashed(st.out, lower(t));
        Ok(Scan { state: State::AfterRegion, out, variant_end: out.len() as int, ..st })
    } else {
        Err(ParseError::InvalidSubtag)
    }
}

/// The subtags read in order from the initial state; the first error stops it.
pub open spec fn scan(ps: Seq<Seq<char>>) -> Result<Scan, ParseError>
    decreases ps.len(),
{
    if ps.len() == 0 {
        Ok(initial_scan())
    } else {
        match scan(ps.drop_last()) {
            Ok(st) => step(st, ps.last()),
            Err(e) => Err(e),
        }
    }
}

pub open spec fn max(a: int, b: int) -> int {
    if a < b {
        b
    } else {
        a
    }
}

/// The end of the input: a singleton must have had a value, and the end of a
/// missing component is that of the one before it.
pub open spec fn finish(st: Scan) -> Result<TagModel, ParseError> {
    if st.state == (State::InExtension { expected: true }) {
        Err(ParseError::EmptyExtension)
    } else if st.state == (State::InPrivateUse { expected: true }) {
        Err(ParseError::EmptyPrivateUse)
    } else {
        let l = st.language_end;
        let e = max(st.extlang_end, l);
        let s = max(st.script_end, e);
        let r = max(st.region_end, s);
        let v = max(st.variant_end, r);
        let x = max(st.extension_end, v);
        Ok(
            TagModel {
                text: st.out,
                language_end: l,
                extlang_end: e,
                script_end: s,
                region_end: r,
                variant_end: v,
                extension_end: x,
            },
        )
    }
}

/// The tag read from the dash-separated pieces of a text.
pub open spec fn scan_tag(ps: Seq<Seq<char>>) -> Result<TagModel, ParseError> {
    match scan(ps) {
        Ok(st) => finish(st),
        Err(e) => Err(e),
    }
}

/// The components of a well-formed tag end in order, and text after the last
/// extension holds at least a private-use singleton and one subtag.
pub open spec fn wf_model(m: TagModel) -> bool {
    &&& 0 <= m.language_end <= m.extlang_end <= m.script_end <= m.region_end <= m.variant_end
        <= m.extension_end <= m.text.len()
    &&& m.extension_end < m.text.len() ==> m.extension_end + 3 <= m.text.len()
}

pub open spec fn max_end(st: Scan) -> int {
    max(
        max(max(st.language_end, st.extlang_end), max(st.script_end, st.region_end)),
        max(st.variant_end, st.extension_end),
    )
}

/// How the text built so far relates to the component ends, by state.
pub open spec fn scan_shape(st: Scan) -> bool {
    &&& 0 <= st.language_end && 0 <= st.extlang_end && 0 <= st.script_end && 0 <= st.region_end
        && 0 <= st.variant_end && 0 <= st.extension_end
    &&& 0 <= st.extlangs <= 3
    &&& all_alnum_or_dash(st.out)
    &&& match st.state {
        State::Start => st.out.len() == 0 && max_end(st) == 0,
        State::InExtension { expected: true } => max_end(st) + 2 == st.out.len(),
        State::InPrivateUse { expected: true } => max_end(st) + 2 == st.out.len(),
        State::InPrivateUse { expected: false } => max_end(st) + 3 <= st.out.len(),
        _ => max_end(st) == st.out.len(),
    }
}

pub proof fn lemma_scan_shape(ps: Seq<Seq<char>>)
    ensures
        scan(ps) is Ok ==> scan_shape(scan(ps)->Ok_0),
        scan_tag(ps) is Ok ==> wf_model(scan_tag(ps)->Ok_0) && all_alnum_or_dash(
            scan_tag(ps)->Ok_0.text,
        ),
    decreases ps.len(),
{
    if ps.len() > 0 {
        let prev = ps.drop_last();
        let t = ps.last();
        lemma_scan_shape(prev);
        if scan(prev) is Ok && all_alnum(t) {
            let st = scan(prev)->Ok_0;
            lemma_case_keeps_alnum(t);
            let d = seq!['-'];
            assert(all_alnum_or_dash(d));
            lemma_alnum_or_dash_concat(st.out, lower(t));
            lemma_alnum_or_dash_concat(st.out, d);
            lemma_alnum_or_dash_concat(st.out + d, lower(t));
            lemma_alnum_or_dash_concat(st.out + d, upper(t));
            lemma_alnum_or_dash_concat(st.out + d, title(t));
            lemma_alnum_or_dash_concat(st.out + d, seq!['x']);
            if t.len() > 0 {
                let k = seq![lower_char(t[0])];
                assert(all_alnum_or_dash(k)) by {
                    assert(k[0] == lower_char(t[0]));
                }
                lemma_alnum_or_dash_concat(st.out + d, k);
            }
        }
    }
}

pub proof fn lemma_alnum_or_dash_concat(a: Seq<char>, b: Seq<char>)
    requires
        all_alnum_or_dash(a),
        all_alnum_or_dash(b),
    ensures
        all_alnum_or_dash(a + b),
{
    assert forall|i: int| 0 <= i < (a + b).len() implies alnum_char(#[trigger] (a + b)[i]) || (a + b)[i]
        == '-' by {
        if i < a.len() {
            assert((a + b)[i] == a[i]);
        } else {
            assert((a + b)[i] == b[i - a.len()]);
        }
    }
}

/// Lower case keeps letters, digits and dashes.
pub proof fn lemma_case_keeps_alnum_or_dash(t: Seq<char>)
    requires
        all_alnum_or_dash(t),
    ensures
        all_alnum_or_dash(lower(t)),
{
    assert forall|i: int| 0 <= i < lower(t).len() implies alnum_char(#[trigger] lower(t)[i]) || lower(
        t,
    )[i] == '-' by {
        assert(alnum_char(t[i]) || t[i] == '-');
    }
}

/// Changing the case of letters and digits gives letters and digits.
pub proof fn lemma_case_keeps_alnum(t: Seq<char>)
    requires
        all_alnum(t),
    ensures
        all_alnum_or_dash(lower(t)),
        all_alnum_or_dash(upper(t)),
        all_alnum_or_dash(title(t)),
        t.len() > 0 ==> alnum_char(lower_char(t[0])),
{
    assert forall|i: int| 0 <= i < lower(t).len() implies alnum_char(#[trigger] lower(t)[i]) by {
        assert(alnum_char(t[i]));
    }
    assert forall|i: int| 0 <= i < upper(t).len() implies alnum_char(#[trigger] upper(t)[i]) by {
        assert(alnum_char(t[i]));
    }
    if t.len() > 0 {
        assert(alnum_char(t[0]));
        let r = t.skip(1);
        assert forall|i: int| 0 <= i < lower(r).len() implies alnum_char(#[trigger] lower(r)[i]) by {
            assert(alnum_char(t[i + 1]));
        }
        lemma_alnum_or_dash_concat(seq![upper_char(t[0])], lower(r));
    }
}

/// The scan in progress: the state, the text built so far and the component
/// ends seen in it.
struct Scanner {
    state: State,
    serialization: String,
    language_end: usize,
    extlang_end: usize,
    script_end: usize,
    region_end: usize,
    variant_end: usize,
    extension_end: usize,
    extlangs_count: usize,
}

impl View for Scanner {
    type V = Scan;

    closed spec fn view(&self) -> Scan {
        Scan {
            state: self.state,
            out: self.serialization@,
            language_end: self.language_end as int,
            extlang_end: self.extlang_end as int,
            script_end: self.script_end as int,
            region_end: self.region_end as int,
            variant_end: self.variant_end as int,
            extension_end: self.extension_end as int,
            extlangs: self.extlangs_count as int,
        }
    }
}

/// Where a subtag read in the state `st` ends in the text: after the text so
/// far and, but for the first subtag, a dash.
pub open spec fn end_after(st: Scan, t: Seq<char>) -> int {
    if st.state == State::Start {
        (st.out.len() + t.len()) as int
    } else {
        (st.out.len() + 1 + t.len()) as int
    }
}

/// Reads one subtag, which ends at `end`.
fn read_subtag(sc: &mut Scanner, subtag: &[char], end: usize) -> (r: Result<(), ParseError>)
    requires
        scan_shape(old(sc)@),
        end == end_after(old(sc)@, subtag@),
    ensures
        match step(old(sc)@, subtag@) {
            Ok(next) => r is Ok && final(sc)@ == next,
            Err(e) => r == Err::<(), ParseError>(e),
        },
{
    let ghost st = sc@;
    let n = subtag.len();
    if n == 0 {
        return Err(ParseError::EmptySubtag);
    }
    if n > 8 {
        return Err(ParseError::SubtagTooLong);
    }
    if sc.state == State::Start {
        if n < 2 || !is_alphabetic(subtag) {
            return Err(ParseError::InvalidLanguage);
        }
        sc.language_end = end;
        to_lowercase(&mut sc.serialization, subtag);
        if n < 4 {
            sc.state = State::AfterLanguage;
        } else {
            sc.state = State::AfterExtLang;
        }
    } else if let State::InPrivateUse { .. } = sc.state {
        if !is_alphanumeric(subtag) {
            return Err(ParseError::InvalidSubtag);
        }
        sc.serialization.push('-');
        to_lowercase(&mut sc.serialization, subtag);
        proof {
            assert(sc.serialization@ =~= dashed(st.out, lower(subtag@)));
        }
        sc.state = State::InPrivateUse { expected: false };
    } else if n == 1 && (subtag[0] == 'x' || subtag[0] == 'X') {
        proof {
            assert(subtag@ =~= seq!['x'] || subtag@ =~= seq!['X']);
        }
        if sc.state == (State::InExtension { expected: true }) {
            return Err(ParseError::EmptyExtension);
        }
        sc.serialization.push('-');
        sc.serialization.push('x');
        proof {
            assert(sc.serialization@ =~= dashed(st.out, seq!['x']));
        }
        sc.state = State::InPrivateUse { expected: true };
    } else if n == 1 && is_alphanumeric(subtag) {
        proof {
            assert(!is_singleton_x(subtag@));
        }
        if sc.state == (State::InExtension { expected: true }) {
            return Err(ParseError::EmptyExtension);
        }
        let c = ascii_lower(subtag[0]);
        sc.serialization.push('-');
        sc.serialization.push(c);
        proof {
            assert(sc.serialization@ =~= dashed(st.out, seq![c]));
        }
        sc.state = State::InExtension { expected: true };
    } else if let State::InExtension { .. } = sc.state {
        proof {
            assert(!is_singleton_x(subtag@));
        }
        if !is_alphanumeric(subtag) {
            return Err(ParseError::InvalidSubtag);
        }
        sc.extension_end = end;
        sc.serialization.push('-');
        to_lowercase(&mut sc.serialization, subtag);
        proof {
            assert(sc.serialization@ =~= dashed(st.out, lower(subtag@)));
        }
        sc.state = State::InExtension { expected: false };
    } else if sc.state == State::AfterLanguage && n == 3 && is_alphabetic(subtag) {
        proof {
            assert(!is_singleton_x(subtag@));
        }
        if sc.extlangs_count + 1 > 3 {
            return Err(ParseError::TooManyExtlangs);
        }
        sc.extlangs_count += 1;
        sc.extlang_end = end;
        sc.serialization.push('-');
        to_lowercase(&mut sc.serialization, subtag);
        proof {
            assert(sc.serialization@ =~= dashed(st.out, lower(subtag@)));
        }
    } else if (sc.state == State::AfterLanguage || sc.state == State::AfterExtLang) && n == 4
        && is_alphabetic(subtag) {
        proof {
            assert(!is_singleton_x(subtag@));
        }
        sc.script_end = end;
        sc.serialization.push('-');
        to_uppercase_first(&mut sc.serialization, subtag);
        proof {
            assert(sc.serialization@ =~= dashed(st.out, title(subtag@)));
        }
        sc.state = State::AfterScript;
    } else if (sc.state == State::AfterLanguage || sc.state == State::AfterExtLang || sc.state
        == State::AfterScript) && ((n == 2 && is_alphabetic(subtag)) || (n == 3 && is_numeric(
        subtag,
    ))) {
        proof {
            assert(!is_singleton_x(subtag@));
        }
        sc.region_end = end;
        sc.serialization.push('-');
        to_uppercase(&mut sc.serialization, subtag);
        proof {
            assert(sc.serialization@ =~= dashed(st.out, upper(subtag@)));
        }
        sc.state = State::AfterRegion;
    } else if (sc.state == State::AfterLanguage || sc.state == State::AfterExtLang || sc.state
        == State::AfterScript || sc.state == State::AfterRegion) && is_alphanumeric(subtag) && ((n
        >= 5 && is_alpha(subtag[0])) || (n >= 4 && is_digit(subtag[0]))) {
        proof {
            assert(!is_singleton_x(subtag@));
        }
        sc.variant_end = end;
        sc.serialization.push('-');
        to_lowercase(&mut sc.serialization, subtag);
        proof {
            assert(sc.serialization@ =~= dashed(st.out, lower(subtag@)));
        }
        sc.state = State::AfterRegion;
    } else {
        proof {
            assert(!is_singleton_x(subtag@));
        }
        return Err(ParseError::InvalidSubtag);
    }
    Ok(())
}

/// Reads a tag that is neither grandfathered nor private use, subtag by subtag.
pub(crate) fn parse_language_tag(input: &[char]) -> (r: Result<LanguageTag, ParseError>)
    ensures
        tag_result(r) == scan_tag(split_dash(input@)),
{
    let bounds = split_bounds(input);
    let ghost ps = split_dash(input@);
    let mut sc = Scanner {
        state: State::Start,
        serialization: String::new(),
        language_end: 0,
        extlang_end: 0,
        script_end: 0,
        region_end: 0,
        variant_end: 0,
        extension_end: 0,
        extlangs_count: 0,
    };
    let mut j: usize = 0;
    proof {
        assert(ps.take(0) =~= Seq::<Seq<char>>::empty());
        assert(sc@ == initial_scan());
    }
    while j < bounds.len()
        invariant
            ps == split_dash(input@),
            bounds_view(input@, bounds@) == ps,
            contiguous(bounds@),
            bounds@.len() > 0 && bounds@.last().1 == input@.len(),
            ps.len() == bounds@.len(),
            j <= bounds@.len(),
            scan(ps.take(j as int)) == Ok::<Scan, ParseError>(sc@),
            j == 0 ==> sc@.out.len() == 0,
            j > 0 ==> sc@.out.len() == bounds@[j - 1].1,
        decreases bounds.len() - j,
    {
        let (a, b) = bounds[j];
        proof {
            assert(bounds@[j as int].0 <= bounds@[j as int].1);
            lemma_bounds_below(bounds@, j as int);
        }
        let subtag = &input[a..b];
        proof {
            assert(ps.take(j + 1).drop_last() =~= ps.take(j as int));
            assert(subtag@ == ps[j as int]);
            lemma_scan_shape(ps.take(j as int));
            lemma_scan_error_stays(ps, j + 1);
            assert(scan(ps.take(j + 1)) == step(sc@, subtag@));
            if j > 0 {
                let k = j - 1;
                assert(bounds@[k + 1].0 == bounds@[k].1 + 1);
                assert(sc@.state != State::Start) by {
                    lemma_scan_leaves_start(ps.take(j as int));
                }
            } else {
                assert(sc@ == initial_scan());
            }
        }
        let ghost before = sc@;
        match read_subtag(&mut sc, subtag, b) {
            Ok(()) => {},
            Err(e) => {
                proof {
                    assert(scan(ps.take(j + 1)) == Err::<Scan, ParseError>(e));
                    assert(scan(ps) == Err::<Scan, ParseError>(e));
                }
                return Err(e);
            },
        }
        j += 1;
    }
    proof {
        assert(ps.take(bounds@.len() as int) =~= ps);
        lemma_scan_shape(ps);
    }
    assert(sc@.out.len() <= usize::MAX) by {
        assert(sc@.out.len() == input@.len());
    }
    if sc.state == (State::InExtension { expected: true }) {
        return Err(ParseError::EmptyExtension);
    }
    if sc.state == (State::InPrivateUse { expected: true }) {
        return Err(ParseError::EmptyPrivateUse);
    }
    let language_end = sc.language_end;
    let extlang_end = if sc.extlang_end < language_end {
        language_end
    } else {
        sc.extlang_end
    };
    let script_end = if sc.script_end < extlang_end {
        extlang_end
    } else {
        sc.script_end
    };
    let region_end = if sc.region_end < script_end {
        script_end
    } else {
        sc.region_end
    };
    let variant_end = if sc.variant_end < region_end {
        region_end
    } else {
        sc.variant_end
    };
    let extension_end = if sc.extension_end < variant_end {
        variant_end
    } else {
        sc.extension_end
    };
    Ok(
        LanguageTag::from_parts(
            sc.serialization,
            language_end,
            extlang_end,
            script_end,
            region_end,
            variant_end,
            extension_end,
        ),
    )
}

/// After its first subtag a scan that has not failed has left the start.
pub proof fn lemma_scan_leaves_start(ps: Seq<Seq<char>>)
    requires
        ps.len() > 0,
        scan(ps) is Ok,
    ensures
        scan(ps)->Ok_0.state != State::Start,
    decreases ps.len(),
{
    if ps.len() > 1 {
        lemma_scan_leaves_start(ps.drop_last());
    }
}

fn is_alpha(c: char) -> (r: bool)
    ensures
        r == alpha_char(c),
{
    ('a' <= c && c <= 'z') || ('A' <= c && c <= 'Z')
}

fn is_digit(c: char) -> (r: bool)
    ensures
        r == digit_char(c),
{
    '0' <= c && c <= '9'
}

/// Once the scan of a prefix fails, the scan of the whole fails the same way.
pub proof fn lemma_scan_error_stays(ps: Seq<Seq<char>>, k: int)
    requires
        0 <= k <= ps.len(),
    ensures
        scan(ps.take(k)) is Err ==> scan(ps) == scan(ps.take(k)),
    decreases ps.len() - k,
{
    if k < ps.len() {
        assert(ps.take(k + 1).drop_last() =~= ps.take(k));
        lemma_scan_error_stays(ps, k + 1);
    } else {
        assert(ps.take(k) =~= ps);
    }
}


} // verus!
