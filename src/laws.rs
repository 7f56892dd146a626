use vstd::prelude::*;

use crate::charclass::{
    all_alnum, all_alnum_or_dash, all_alpha, all_digit, alnum_char, alpha_char, digit_char, lower,
    lower_char, title, upper, upper_char,
};
use crate::error::ParseError;
use crate::grammar::{
    dashed, initial_scan, is_region, is_singleton_x, is_variant, lemma_case_keeps_alnum_or_dash,
    lemma_scan_error_stays, lemma_scan_leaves_start, lemma_scan_shape, max, scan, scan_shape,
    scan_tag, step, Scan, State,
};
use crate::subtags::{lemma_split_dash_len, split_dash};
use crate::tables::{
    eq_ignore_case_is_lower_eq, grandfathered_entry, grandfathered_match, grandfathered_match_from,
    lemma_grandfathered_shape, GRANDFATHERED_LEN,
};
use crate::tag::{
    extended_language_of, extension_of, is_private_use_text, parse_model, primary_language_of,
    private_use_of, region_of, script_of, variant_of, whole,
};

verus! {

/// Changing the case of a character keeps its class, and doing it twice is
/// doing it once.
proof fn lemma_char_case(c: char)
    ensures
        alpha_char(lower_char(c)) == alpha_char(c),
        alpha_char(upper_char(c)) == alpha_char(c),
        digit_char(lower_char(c)) == digit_char(c),
        digit_char(upper_char(c)) == digit_char(c),
        lower_char(lower_char(c)) == lower_char(c),
        upper_char(upper_char(c)) == upper_char(c),
        lower_char(upper_char(c)) == lower_char(c),
        (lower_char(c) == '-') == (c == '-'),
        (lower_char(c) == 'x') == (c == 'x' || c == 'X'),
{
}


/// Changing the case of a subtag keeps the class of each character, and the
/// changes undo nothing of one another once applied.
proof fn lemma_seq_case(t: Seq<char>)
    ensures
        lower(t).len() == t.len() && upper(t).len() == t.len() && title(t).len() == t.len(),
        all_alpha(lower(t)) == all_alpha(t) && all_alpha(upper(t)) == all_alpha(t) && all_alpha(
            title(t),
        ) == all_alpha(t),
        all_digit(lower(t)) == all_digit(t) && all_digit(upper(t)) == all_digit(t) && all_digit(
            title(t),
        ) == all_digit(t),
        all_alnum(lower(t)) == all_alnum(t) && all_alnum(upper(t)) == all_alnum(t) && all_alnum(
            title(t),
        ) == all_alnum(t),
        t.len() > 0 ==> alpha_char(lower(t)[0]) == alpha_char(t[0]) && digit_char(lower(t)[0])
            == digit_char(t[0]),
        lower(lower(t)) == lower(t),
        upper(upper(t)) == upper(t),
        title(title(t)) == title(t),
        lower(upper(t)) == lower(t),
        lower(title(t)) == lower(t),
        is_singleton_x(lower(t)) == is_singleton_x(t),
{
    assert forall|i: int| 0 <= i < t.len() implies #[trigger] lower(t)[i] == lower_char(t[i]) && upper(t)[i]
        == upper_char(t[i]) by {
        lemma_char_case(t[i]);
    }
    assert(all_alpha(lower(t)) == all_alpha(t)) by {
        if all_alpha(t) {
            assert forall|i: int| 0 <= i < lower(t).len() implies alpha_char(#[trigger] lower(t)[i]) by {
                lemma_char_case(t[i]);
            }
        }
        if all_alpha(lower(t)) {
            assert forall|i: int| 0 <= i < t.len() implies alpha_char(#[trigger] t[i]) by {
                lemma_char_case(t[i]);
                assert(alpha_char(lower(t)[i]));
            }
        }
    }
    assert(all_alpha(upper(t)) == all_alpha(t)) by {
        if all_alpha(t) {
            assert forall|i: int| 0 <= i < upper(t).len() implies alpha_char(#[trigger] upper(t)[i]) by {
                lemma_char_case(t[i]);
            }
        }
        if all_alpha(upper(t)) {
            assert forall|i: int| 0 <= i < t.len() implies alpha_char(#[trigger] t[i]) by {
                lemma_char_case(t[i]);
                assert(alpha_char(upper(t)[i]));
            }
        }
    }
    assert(all_digit(lower(t)) == all_digit(t)) by {
        if all_digit(t) {
            assert forall|i: int| 0 <= i < lower(t).len() implies digit_char(#[trigger] lower(t)[i]) by {
                lemma_char_case(t[i]);
            }
        }
        if all_digit(lower(t)) {
            assert forall|i: int| 0 <= i < t.len() implies digit_char(#[trigger] t[i]) by {
                lemma_char_case(t[i]);
                assert(digit_char(lower(t)[i]));
            }
        }
    }
    assert(all_digit(upper(t)) == all_digit(t)) by {
        if all_digit(t) {
            assert forall|i: int| 0 <= i < upper(t).len() implies digit_char(#[trigger] upper(t)[i]) by {
                lemma_char_case(t[i]);
            }
        }
        if all_digit(upper(t)) {
            assert forall|i: int| 0 <= i < t.len() implies digit_char(#[trigger] t[i]) by {
                lemma_char_case(t[i]);
                assert(digit_char(upper(t)[i]));
            }
        }
    }
    assert(all_alnum(lower(t)) == all_alnum(t)) by {
        if all_alnum(t) {
            assert forall|i: int| 0 <= i < lower(t).len() implies alnum_char(#[trigger] lower(t)[i]) by {
                lemma_char_case(t[i]);
            }
        }
        if all_alnum(lower(t)) {
            assert forall|i: int| 0 <= i < t.len() implies alnum_char(#[trigger] t[i]) by {
                lemma_char_case(t[i]);
                assert(alnum_char(lower(t)[i]));
            }
        }
    }
    assert(all_alnum(upper(t)) == all_alnum(t)) by {
        if all_alnum(t) {
            assert forall|i: int| 0 <= i < upper(t).len() implies alnum_char(#[trigger] upper(t)[i]) by {
                lemma_char_case(t[i]);
            }
        }
        if all_alnum(upper(t)) {
            assert forall|i: int| 0 <= i < t.len() implies alnum_char(#[trigger] t[i]) by {
                lemma_char_case(t[i]);
                assert(alnum_char(upper(t)[i]));
            }
        }
    }
    assert(lower(lower(t)) =~= lower(t)) by {
        assert forall|i: int| 0 <= i < t.len() implies lower(lower(t))[i] == lower(t)[i] by {
            lemma_char_case(t[i]);
        }
    }
    assert(upper(upper(t)) =~= upper(t)) by {
        assert forall|i: int| 0 <= i < t.len() implies upper(upper(t))[i] == upper(t)[i] by {
            lemma_char_case(t[i]);
        }
    }
    assert(lower(upper(t)) =~= lower(t)) by {
        assert forall|i: int| 0 <= i < t.len() implies lower(upper(t))[i] == lower(t)[i] by {
            lemma_char_case(t[i]);
        }
    }
    if t.len() > 0 {
        let r = t.skip(1);
        let tt = title(t);
        assert(tt.len() == t.len());
        assert forall|i: int| 0 <= i < t.len() implies #[trigger] tt[i] == (if i == 0 {
            upper_char(t[0])
        } else {
            lower_char(t[i])
        }) by {
            if i > 0 {
                assert(tt[i] == lower(r)[i - 1]);
                assert(r[i - 1] == t[i]);
            }
        }
        assert(title(tt) =~= tt) by {
            let r2 = tt.skip(1);
            assert forall|i: int| 0 <= i < t.len() implies title(tt)[i] == tt[i] by {
                lemma_char_case(t[i]);
                if i > 0 {
                    assert(title(tt)[i] == lower(r2)[i - 1]);
                    assert(r2[i - 1] == tt[i]);
                }
            }
        }
        assert(lower(tt) =~= lower(t)) by {
            assert forall|i: int| 0 <= i < t.len() implies lower(tt)[i] == lower(t)[i] by {
                lemma_char_case(t[i]);
            }
        }
        assert(all_alpha(tt) == all_alpha(t)) by {
            if all_alpha(t) {
                assert forall|i: int| 0 <= i < tt.len() implies alpha_char(#[trigger] tt[i]) by {
                    lemma_char_case(t[i]);
                }
            }
            if all_alpha(tt) {
                assert forall|i: int| 0 <= i < t.len() implies alpha_char(#[trigger] t[i]) by {
                    lemma_char_case(t[i]);
                    assert(alpha_char(tt[i]));
                }
            }
        }
        assert(all_digit(tt) == all_digit(t)) by {
            if all_digit(t) {
                assert forall|i: int| 0 <= i < tt.len() implies digit_char(#[trigger] tt[i]) by {
                    lemma_char_case(t[i]);
                }
            }
            if all_digit(tt) {
                assert forall|i: int| 0 <= i < t.len() implies digit_char(#[trigger] t[i]) by {
                    lemma_char_case(t[i]);
                    assert(digit_char(tt[i]));
                }
            }
        }
        assert(all_alnum(tt) == all_alnum(t)) by {
            if all_alnum(t) {
                assert forall|i: int| 0 <= i < tt.len() implies alnum_char(#[trigger] tt[i]) by {
                    lemma_char_case(t[i]);
                }
            }
            if all_alnum(tt) {
                assert forall|i: int| 0 <= i < t.len() implies alnum_char(#[trigger] t[i]) by {
                    lemma_char_case(t[i]);
                    assert(alnum_char(tt[i]));
                }
            }
        }
        lemma_char_case(t[0]);
    } else {
        assert(title(t) =~= t);
        assert(title(title(t)) =~= title(t));
        assert(lower(title(t)) =~= lower(t));
    }
    assert(is_singleton_x(lower(t)) == is_singleton_x(t)) by {
        if t.len() == 1 {
            lemma_char_case(t[0]);
            assert(lower(t)[0] == lower_char(t[0]));
            if is_singleton_x(t) {
                assert(lower(t) =~= seq!['x']);
            }
            if lower(t) =~= seq!['x'] || lower(t) =~= seq!['X'] {
                assert(lower(t)[0] == 'x' || lower(t)[0] == 'X');
                if t[0] == 'x' {
                    assert(t =~= seq!['x']);
                } else {
                    assert(t =~= seq!['X']);
                }
            }
        }
    }
}


/// The text that the scan writes for subtag `t` read in state `st`: a script
/// in title case, a region in upper case, anything else in lower case.
pub open spec fn emitted(st: Scan, t: Seq<char>) -> Seq<char> {
    if (st.state == State::AfterLanguage || st.state == State::AfterExtLang) && t.len() == 4
        && all_alpha(t) {
        title(t)
    } else if (st.state == State::AfterLanguage || st.state == State::AfterExtLang || st.state
        == State::AfterScript) && is_region(t) {
        upper(t)
    } else {
        lower(t)
    }
}

/// The text before a subtag: nothing before the first, a dash before the
/// others.
pub open spec fn lead(st: Scan) -> Seq<char> {
    if st.state == State::Start {
        st.out
    } else {
        st.out.push('-')
    }
}

/// A step that succeeds writes the subtag in its case, and reading that text
/// in place of the subtag takes the same step.
proof fn lemma_step_emitted(st: Scan, t: Seq<char>)
    requires
        step(st, t) is Ok,
    ensures
        step(st, t)->Ok_0.out == lead(st) + emitted(st, t),
        step(st, emitted(st, t)) == step(st, t),
        lower(emitted(st, t)) == lower(t),
        emitted(st, t).len() == t.len(),
        all_alnum(emitted(st, t)),
        t.len() > 0,
{
    lemma_seq_case(t);
    let e = emitted(st, t);
    let st2 = step(st, t)->Ok_0;
    assert(all_alnum(t) || st.state == State::Start);
    if st.state == State::Start {
        assert(all_alpha(t));
        assert(all_alnum(t));
    }
    assert(all_alnum(t));
    if t.len() == 1 {
        assert(lower(t) =~= seq![lower_char(t[0])]);
        if is_singleton_x(t) {
            assert(lower(t) =~= seq!['x']);
        }
    }
    if (st.state == State::AfterLanguage || st.state == State::AfterExtLang) && t.len() == 4
        && all_alpha(t) {
        assert(e == title(t));
    } else if (st.state == State::AfterLanguage || st.state == State::AfterExtLang || st.state
        == State::AfterScript) && is_region(t) {
        assert(e == upper(t));
        assert(is_region(e));
    } else {
        assert(e == lower(t));
        assert(is_variant(t) ==> is_variant(e));
        assert(is_region(e) == is_region(t));
    }
    assert(emitted(st, e) == e);
    assert(st2.out =~= lead(st) + e);
}


/// Pieces joined with a dash between each two.
pub open spec fn join_dash(qs: Seq<Seq<char>>) -> Seq<char>
    decreases qs.len(),
{
    if qs.len() == 0 {
        Seq::empty()
    } else if qs.len() == 1 {
        qs[0]
    } else {
        dashed(join_dash(qs.drop_last()), qs.last())
    }
}

pub open spec fn dash_free(t: Seq<char>) -> bool {
    forall|i: int| 0 <= i < t.len() ==> t[i] != '-'
}

/// Text without a dash extends the last piece.
proof fn lemma_split_dash_append(a: Seq<char>, b: Seq<char>)
    requires
        dash_free(b),
    ensures
        split_dash(a + b) == split_dash(a).update(
            split_dash(a).len() - 1,
            split_dash(a).last() + b,
        ),
    decreases b.len(),
{
    lemma_split_dash_len(a);
    if b.len() == 0 {
        assert(a + b =~= a);
        assert(split_dash(a).last() + b =~= split_dash(a).last());
        assert(split_dash(a).update(split_dash(a).len() - 1, split_dash(a).last()) =~= split_dash(a));
    } else {
        let b0 = b.drop_last();
        lemma_split_dash_append(a, b0);
        assert((a + b).drop_last() =~= a + b0);
        assert((a + b).last() == b.last());
        let p = split_dash(a);
        let q = p.update(p.len() - 1, p.last() + b0);
        assert(split_dash(a + b) == q.update(q.len() - 1, q.last().push(b.last())));
        assert(q.last().push(b.last()) =~= p.last() + b);
        assert(q.update(q.len() - 1, q.last().push(b.last())) =~= p.update(p.len() - 1, p.last() + b));
    }
}

/// Splitting joined pieces that hold no dash gives the pieces back.
proof fn lemma_split_join(qs: Seq<Seq<char>>)
    requires
        qs.len() > 0,
        forall|i: int| 0 <= i < qs.len() ==> dash_free(#[trigger] qs[i]),
    ensures
        split_dash(join_dash(qs)) == qs,
    decreases qs.len(),
{
    if qs.len() == 1 {
        lemma_split_dash_append(Seq::empty(), qs[0]);
        assert(Seq::<char>::empty() + qs[0] =~= qs[0]);
        assert(split_dash(Seq::<char>::empty()) =~= seq![Seq::<char>::empty()]);
        assert(seq![Seq::<char>::empty()].update(0, Seq::<char>::empty() + qs[0]) =~= qs);
    } else {
        let prev = qs.drop_last();
        assert(forall|i: int| 0 <= i < prev.len() ==> prev[i] == qs[i]);
        lemma_split_join(prev);
        let a = join_dash(prev).push('-');
        assert(a.drop_last() =~= join_dash(prev));
        assert(split_dash(a) == split_dash(join_dash(prev)).push(Seq::empty()));
        lemma_split_dash_append(a, qs.last());
        assert(join_dash(qs) =~= a + qs.last());
        assert(Seq::<char>::empty() + qs.last() =~= qs.last());
        assert(prev.push(Seq::empty()).update(prev.len() as int, qs.last()) =~= qs);
    }
}

/// Joining the pieces of a text gives the text back.
proof fn lemma_join_split(s: Seq<char>)
    ensures
        join_dash(split_dash(s)) == s,
    decreases s.len(),
{
    if s.len() == 0 {
        assert(split_dash(s) =~= seq![Seq::<char>::empty()]);
        assert(s =~= Seq::<char>::empty());
    } else {
        let s0 = s.drop_last();
        lemma_join_split(s0);
        lemma_split_dash_len(s0);
        let p = split_dash(s0);
        assert(s =~= s0.push(s.last()));
        if s.last() == '-' {
            let q = p.push(Seq::empty());
            assert(q.drop_last() =~= p);
            assert(join_dash(q) =~= s0.push('-'));
        } else {
            let q = p.update(p.len() - 1, p.last().push(s.last()));
            assert(q.drop_last() =~= p.drop_last());
            if p.len() == 1 {
                assert(join_dash(p) == p[0]);
                assert(join_dash(q) =~= s);
            } else {
                assert(join_dash(q) =~= dashed(join_dash(p.drop_last()), p.last().push(s.last())));
                assert(join_dash(q) =~= join_dash(p).push(s.last()));
            }
        }
    }
}

/// Lower case distributes over concatenation.
proof fn lemma_lower_concat(a: Seq<char>, b: Seq<char>)
    ensures
        lower(a + b) == lower(a) + lower(b),
{
    assert(lower(a + b) =~= lower(a) + lower(b));
}

/// What the scan writes for each subtag read so far.
pub open spec fn emitted_pieces(ps: Seq<Seq<char>>) -> Seq<Seq<char>>
    decreases ps.len(),
{
    if ps.len() == 0 {
        Seq::empty()
    } else {
        let prev = ps.drop_last();
        emitted_pieces(prev).push(
            match scan(prev) {
                Ok(st) => emitted(st, ps.last()),
                Err(_) => ps.last(),
            },
        )
    }
}

/// Scanning what a scan wrote, piece by piece, reaches the same state; and
/// what it wrote is the input joined again, up to case.
proof fn lemma_scan_emitted(ps: Seq<Seq<char>>)
    requires
        scan(ps) is Ok,
    ensures
        scan(emitted_pieces(ps)) == scan(ps),
        emitted_pieces(ps).len() == ps.len(),
        forall|i: int| 0 <= i < ps.len() ==> #[trigger] emitted_pieces(ps)[i].len() > 0 && all_alnum(emitted_pieces(ps)[i]),
        ps.len() > 0 ==> scan(ps)->Ok_0.out == join_dash(emitted_pieces(ps)),
        lower(join_dash(emitted_pieces(ps))) == lower(join_dash(ps)),
    decreases ps.len(),
{
    if ps.len() > 0 {
        let prev = ps.drop_last();
        assert(scan(prev) is Ok);
        lemma_scan_emitted(prev);
        let st = scan(prev)->Ok_0;
        let t = ps.last();
        lemma_step_emitted(st, t);
        let e = emitted(st, t);
        let qs0 = emitted_pieces(prev);
        let qs = emitted_pieces(ps);
        assert(qs == qs0.push(e));
        assert(qs.drop_last() =~= qs0);
        assert(qs.last() == e);
        assert(scan(qs) == step(st, e));
        assert forall|i: int| 0 <= i < ps.len() implies #[trigger] qs[i].len() > 0 && all_alnum(qs[i]) by {
            if i < prev.len() {
                assert(qs[i] == qs0[i]);
            }
        }
        if prev.len() == 0 {
            assert(st == initial_scan());
            assert(st.out + e =~= e);
            assert(join_dash(ps) == t);
        } else {
            lemma_scan_leaves_start(prev);
            assert(join_dash(qs) == dashed(join_dash(qs0), e));
            assert(join_dash(ps) == dashed(join_dash(prev), t));
            assert(st.out.push('-') + e =~= dashed(st.out, e));
            lemma_lower_concat(join_dash(qs0) + seq!['-'], e);
            lemma_lower_concat(join_dash(qs0), seq!['-']);
            lemma_lower_concat(join_dash(prev) + seq!['-'], t);
            lemma_lower_concat(join_dash(prev), seq!['-']);
            assert(lower(seq!['-']) =~= seq!['-']);
        }
    } else {
        assert(emitted_pieces(ps) =~= Seq::<Seq<char>>::empty());
        assert(ps =~= Seq::<Seq<char>>::empty());
    }
}

/// Texts equal up to case match the same grandfathered tag.
proof fn lemma_grandfathered_match_lower(a: Seq<char>, b: Seq<char>, i: int)
    requires
        lower(a) == lower(b),
    ensures
        grandfathered_match_from(a, i) == grandfathered_match_from(b, i),
    decreases GRANDFATHERED_LEN - i,
{
    if 0 <= i < GRANDFATHERED_LEN {
        let k = grandfathered_entry(i).0;
        eq_ignore_case_is_lower_eq(a, k);
        eq_ignore_case_is_lower_eq(b, k);
        lemma_grandfathered_match_lower(a, b, i + 1);
    }
}

/// Parsing its own output gives a tag back unchanged: the text of a parsed
/// tag is already normalized, and parsing it again yields the same tag.
pub proof fn lemma_reparse(s: Seq<char>)
    requires
        parse_model(s) is Ok,
    ensures
        parse_model(parse_model(s)->Ok_0.text) == parse_model(s),
{
    let m = parse_model(s)->Ok_0;
    let out = m.text;
    lemma_seq_case(s);
    if grandfathered_match(s) is Some {
        let i = grandfathered_match_from(s, 0)->Some_0;
        lemma_grandfathered_i_found(s, 0);
        eq_ignore_case_is_lower_eq(s, out);
        lemma_grandfathered_match_lower(out, s, 0);
    } else if is_private_use_text(s) {
        lemma_grandfathered_match_lower(lower(s), s, 0);
        lemma_case_keeps_alnum_or_dash(s);
        lemma_char_case(s[0]);
        lemma_char_case(s[1]);
        assert(lower(s)[0] == lower_char(s[0]));
        assert(lower(s)[1] == lower_char(s[1]));
    } else {
        let ps = split_dash(s);
        lemma_split_dash_len(s);
        lemma_scan_emitted(ps);
        lemma_join_split(s);
        let qs = emitted_pieces(ps);
        assert(out == scan(ps)->Ok_0.out);
        assert forall|i: int| 0 <= i < qs.len() implies dash_free(#[trigger] qs[i]) by {
            assert(all_alnum(qs[i]));
            assert forall|k: int| 0 <= k < qs[i].len() implies qs[i][k] != '-' by {
                assert(alnum_char(qs[i][k]));
            }
        }
        lemma_split_join(qs);
        lemma_grandfathered_match_lower(out, s, 0);
        if is_private_use_text(out) {
            assert(lower(out)[0] == lower_char(out[0]));
            assert(lower(out)[1] == lower_char(out[1]));
            assert(lower(s)[0] == lower_char(s[0]));
            assert(lower(s)[1] == lower_char(s[1]));
            lemma_char_case(out[0]);
            lemma_char_case(out[1]);
            lemma_char_case(s[0]);
            lemma_char_case(s[1]);
        }
        assert(scan_tag(split_dash(out)) == scan_tag(ps));
    }
}

/// The grandfathered tag that a text matches equals it up to case.
proof fn lemma_grandfathered_i_found(s: Seq<char>, i: int)
    requires
        grandfathered_match_from(s, i) is Some,
    ensures
        0 <= grandfathered_match_from(s, i)->Some_0 < GRANDFATHERED_LEN,
        crate::charclass::eq_ignore_case(s, grandfathered_entry(grandfathered_match_from(s, i)->Some_0).0),
    decreases GRANDFATHERED_LEN - i,
{
    if 0 <= i < GRANDFATHERED_LEN && !crate::charclass::eq_ignore_case(s, grandfathered_entry(i).0) {
        lemma_grandfathered_i_found(s, i + 1);
    }
}


/// Two dashes in a row somewhere in the text.
pub open spec fn has_double_dash(s: Seq<char>) -> bool {
    exists|j: int| 0 <= j < s.len() - 1 && #[trigger] s[j] == '-' && s[j + 1] == '-'
}

/// An empty piece is the first one of a text that is empty or starts with a
/// dash, the last one of a text that is empty or ends with a dash, or lies
/// between two dashes in a row.
proof fn lemma_empty_piece(s: Seq<char>, k: int)
    requires
        0 <= k < split_dash(s).len(),
        split_dash(s)[k].len() == 0,
    ensures
        (k == 0 && (s.len() == 0 || s[0] == '-')) || (k == split_dash(s).len() - 1 && (s.len() == 0
            || s.last() == '-')) || has_double_dash(s),
    decreases s.len(),
{
    if s.len() > 0 {
        let s0 = s.drop_last();
        let p = split_dash(s0);
        lemma_split_dash_len(s0);
        if s.last() == '-' {
            if k < p.len() {
                assert(split_dash(s)[k] == p[k]);
                lemma_empty_piece(s0, k);
                if s0.len() > 0 {
                    assert(s0[0] == s[0]);
                    if k == p.len() - 1 && s0.last() == '-' {
                        assert(s[s.len() - 2] == '-' && s[s.len() - 1] == '-');
                        let j = s.len() - 2;
                        assert(s[j] == '-' && s[j + 1] == '-');
                    }
                    if has_double_dash(s0) {
                        let j = choose|j: int| 0 <= j < s0.len() - 1 && #[trigger] s0[j] == '-' && s0[j + 1] == '-';
                        assert(s[j] == '-' && s[j + 1] == '-');
                    }
                }
            }
        } else {
            if k < p.len() - 1 {
                assert(split_dash(s)[k] == p[k]);
                lemma_empty_piece(s0, k);
                if s0.len() > 0 {
                    assert(s0[0] == s[0]);
                    if has_double_dash(s0) {
                        let j = choose|j: int| 0 <= j < s0.len() - 1 && #[trigger] s0[j] == '-' && s0[j + 1] == '-';
                        assert(s[j] == '-' && s[j + 1] == '-');
                    }
                } else {
                    assert(p.len() == 1);
                }
            } else {
                assert(split_dash(s)[k] == p.last().push(s.last()));
            }
        }
    }
}

/// A text with an empty subtag matches no grandfathered tag.
proof fn lemma_empty_piece_not_grandfathered(s: Seq<char>, k: int)
    requires
        0 <= k < split_dash(s).len(),
        split_dash(s)[k].len() == 0,
    ensures
        grandfathered_match(s) is None,
{
    if grandfathered_match(s) is Some {
        let i = grandfathered_match_from(s, 0)->Some_0;
        lemma_grandfathered_i_found(s, 0);
        let key = grandfathered_entry(i).0;
        lemma_grandfathered_shape(i);
        eq_ignore_case_is_lower_eq(s, key);
        assert(lower(s).len() == s.len() && lower(key).len() == key.len());
        assert forall|j: int| 0 <= j < s.len() implies (#[trigger] s[j] == '-') == (key[j] == '-') by {
            assert(lower(s)[j] == lower(key)[j]);
            lemma_char_case(s[j]);
            lemma_char_case(key[j]);
        }
        lemma_empty_piece(s, k);
        if has_double_dash(s) {
            let j = choose|j: int| 0 <= j < s.len() - 1 && #[trigger] s[j] == '-' && s[j + 1] == '-';
            assert(key[j] == '-' && key[j + 1] == '-');
        }
    }
}

/// Parsing fails with `EmptySubtag` on a text with an empty subtag (two dashes
/// in a row, or a dash at either end), unless the text is private use, which
/// is checked only for its characters, or an earlier subtag has failed first.
pub proof fn lemma_empty_subtag(s: Seq<char>, k: int)
    requires
        0 <= k < split_dash(s).len(),
        split_dash(s)[k].len() == 0,
        scan(split_dash(s).take(k)) is Ok,
        !is_private_use_text(s),
    ensures
        parse_model(s) == Err::<crate::grammar::TagModel, ParseError>(ParseError::EmptySubtag),
{
    let ps = split_dash(s);
    lemma_empty_piece_not_grandfathered(s, k);
    assert(ps.take(k + 1).drop_last() =~= ps.take(k));
    assert(ps.take(k + 1).last() == ps[k]);
    lemma_scan_error_stays(ps, k + 1);
}

/// The sum of the lengths of the pieces, each counted with one dash.
pub open spec fn dashed_len(qs: Seq<Seq<char>>) -> int
    decreases qs.len(),
{
    if qs.len() == 0 {
        0
    } else {
        dashed_len(qs.drop_last()) + qs.last().len() + 1
    }
}

proof fn lemma_join_len(qs: Seq<Seq<char>>)
    requires
        qs.len() > 0,
    ensures
        join_dash(qs).len() + 1 == dashed_len(qs),
        qs[0].len() <= join_dash(qs).len(),
        forall|i: int| 0 <= i < qs[0].len() ==> join_dash(qs)[i] == #[trigger] qs[0][i],
    decreases qs.len(),
{
    let prev = qs.drop_last();
    if qs.len() > 1 {
        lemma_join_len(prev);
        assert(prev[0] == qs[0]);
        assert(join_dash(qs) == dashed(join_dash(prev), qs.last()));
        assert forall|i: int| 0 <= i < qs[0].len() implies join_dash(qs)[i] == #[trigger] qs[0][i] by {
            assert(join_dash(qs)[i] == join_dash(prev)[i]);
        }
    } else {
        assert(prev.len() == 0);
        assert(dashed_len(prev) == 0);
    }
}

proof fn lemma_dashed_len_prefix(qs: Seq<Seq<char>>, k: int)
    requires
        0 <= k <= qs.len(),
    ensures
        dashed_len(qs.take(k)) <= dashed_len(qs),
    decreases qs.len(),
{
    if k < qs.len() {
        assert(qs.drop_last().take(k) =~= qs.take(k));
        lemma_dashed_len_prefix(qs.drop_last(), k);
    } else {
        assert(qs.take(k) =~= qs);
    }
}

/// A primary language of two or three letters followed by four subtags of
/// three letters is refused with `TooManyExtlangs`: at most three extended
/// languages are allowed.
pub proof fn lemma_too_many_extlangs(s: Seq<char>)
    requires
        split_dash(s).len() >= 5,
        2 <= split_dash(s)[0].len() <= 3,
        all_alpha(split_dash(s)[0]),
        forall|i: int| 1 <= i <= 4 ==> (#[trigger] split_dash(s)[i]).len() == 3 && all_alpha(split_dash(s)[i]),
    ensures
        parse_model(s) == Err::<crate::grammar::TagModel, ParseError>(ParseError::TooManyExtlangs),
{
    let ps = split_dash(s);
    lemma_join_split(s);
    lemma_join_len(ps);
    lemma_dashed_len_prefix(ps, 5);
    let upto1 = ps.take(1);
    let upto2 = ps.take(2);
    let upto3 = ps.take(3);
    let upto4 = ps.take(4);
    let upto5 = ps.take(5);
    assert(upto5.drop_last() =~= upto4 && upto4.drop_last() =~= upto3 && upto3.drop_last() =~= upto2 && upto2.drop_last() =~= upto1);
    assert(upto1.drop_last() =~= Seq::<Seq<char>>::empty());
    assert(upto1.last() == ps[0] && upto2.last() == ps[1] && upto3.last() == ps[2] && upto4.last() == ps[3] && upto5.last() == ps[4]);
    assert(ps[1].len() == 3 && ps[2].len() == 3 && ps[3].len() == 3 && ps[4].len() == 3);
    assert(all_alpha(ps[1]) && all_alpha(ps[2]) && all_alpha(ps[3]) && all_alpha(ps[4]));
    assert(dashed_len(upto1) == dashed_len(upto1.drop_last()) + ps[0].len() + 1);
    assert(dashed_len(upto1.drop_last()) == 0);
    assert(dashed_len(upto2) == dashed_len(upto1) + ps[1].len() + 1);
    assert(dashed_len(upto3) == dashed_len(upto2) + ps[2].len() + 1);
    assert(dashed_len(upto4) == dashed_len(upto3) + ps[3].len() + 1);
    assert(dashed_len(upto5) == dashed_len(upto4) + ps[4].len() + 1);
    assert(dashed_len(upto5) >= 19);
    // not private use: the second character is a letter of the primary language
    assert(s[1] == ps[0][1]);
    assert(alpha_char(ps[0][1]));
    // not grandfathered: longer than any grandfathered tag
    if grandfathered_match(s) is Some {
        let i = grandfathered_match_from(s, 0)->Some_0;
        lemma_grandfathered_i_found(s, 0);
        lemma_grandfathered_shape(i);
    }
    assert(scan(upto1.drop_last()) == Ok::<Scan, ParseError>(initial_scan()));
    assert(scan(upto1) == step(initial_scan(), ps[0]));
    assert(scan(upto1)->Ok_0.state == State::AfterLanguage);
    assert(scan(upto2) == step(scan(upto1)->Ok_0, ps[1]));
    assert(scan(upto3) == step(scan(upto2)->Ok_0, ps[2]));
    assert(scan(upto4) == step(scan(upto3)->Ok_0, ps[3]));
    assert(scan(upto5) == step(scan(upto4)->Ok_0, ps[4]));
    assert(scan(upto2)->Ok_0.extlangs == 1);
    assert(scan(upto3)->Ok_0.extlangs == 2);
    assert(scan(upto4)->Ok_0.extlangs == 3);
    assert(scan(upto5) is Err);
    lemma_scan_error_stays(ps, 5);
}


/// The pieces of two texts joined by a dash are the pieces of the first
/// followed by those of the second.
pub proof fn lemma_split_dash_concat(a: Seq<char>, b: Seq<char>)
    ensures
        split_dash(a.push('-') + b) == split_dash(a) + split_dash(b),
    decreases b.len(),
{
    lemma_split_dash_len(b);
    if b.len() == 0 {
        assert(a.push('-') + b =~= a.push('-'));
        assert(a.push('-').drop_last() =~= a);
        assert(split_dash(b) =~= seq![Seq::<char>::empty()]);
        assert(split_dash(a).push(Seq::empty()) =~= split_dash(a) + seq![Seq::<char>::empty()]);
    } else {
        let b0 = b.drop_last();
        lemma_split_dash_concat(a, b0);
        lemma_split_dash_len(b0);
        let x = a.push('-') + b;
        assert(x.drop_last() =~= a.push('-') + b0);
        assert(x.last() == b.last());
        let p = split_dash(a) + split_dash(b0);
        if b.last() == '-' {
            assert(p.push(Seq::empty()) =~= split_dash(a) + split_dash(b0).push(Seq::empty()));
        } else {
            let q = split_dash(b0);
            assert(p.update(p.len() - 1, p.last().push(b.last())) =~= split_dash(a) + q.update(
                q.len() - 1,
                q.last().push(b.last()),
            ));
        }
    }
}

/// A parsed tag is its input with only the case of letters changed: no
/// character is added, dropped or moved.
pub proof fn lemma_parse_changes_case_only(s: Seq<char>)
    requires
        parse_model(s) is Ok,
    ensures
        parse_model(s)->Ok_0.text.len() == s.len(),
        lower(parse_model(s)->Ok_0.text) == lower(s),
{
    let out = parse_model(s)->Ok_0.text;
    lemma_seq_case(s);
    if grandfathered_match(s) is Some {
        lemma_grandfathered_i_found(s, 0);
        eq_ignore_case_is_lower_eq(s, out);
    } else if is_private_use_text(s) {
    } else {
        let ps = split_dash(s);
        lemma_split_dash_len(s);
        lemma_scan_emitted(ps);
        lemma_join_split(s);
        lemma_seq_case(out);
    }
}

/// The first subtag of a text that scans without error is a primary language
/// of letters, so the text does not start with `x-`.
proof fn lemma_scanned_not_private(s: Seq<char>)
    requires
        scan(split_dash(s)) is Ok,
    ensures
        s.len() >= 2,
        alpha_char(s[1]),
{
    let ps = split_dash(s);
    lemma_split_dash_len(s);
    lemma_scan_error_stays(ps, 1);
    let first = ps.take(1);
    assert(first.drop_last() =~= Seq::<Seq<char>>::empty());
    assert(first.last() == ps[0]);
    assert(scan(first.drop_last()) == Ok::<Scan, ParseError>(initial_scan()));
    assert(scan(first) == step(initial_scan(), ps[0]));
    lemma_join_split(s);
    lemma_join_len(ps);
    assert(s[1] == ps[0][1]);
}

/// A text that scans without error, followed by a dash at its end, or by two
/// dashes and anything, fails with `EmptySubtag`; so does any text that starts
/// with a dash.
pub proof fn lemma_empty_subtag_text(s: Seq<char>, r: Seq<char>)
    requires
        scan(split_dash(s)) is Ok,
    ensures
        parse_model(s.push('-')) == Err::<crate::grammar::TagModel, ParseError>(ParseError::EmptySubtag),
        parse_model(s + seq!['-', '-'] + r) == Err::<crate::grammar::TagModel, ParseError>(
            ParseError::EmptySubtag,
        ),
        parse_model(seq!['-'] + r) == Err::<crate::grammar::TagModel, ParseError>(ParseError::EmptySubtag),
{
    let ps = split_dash(s);
    let k = ps.len() as int;
    lemma_scanned_not_private(s);
    // a dash at the end
    let t1 = s.push('-');
    assert(t1.drop_last() =~= s);
    assert(split_dash(t1) == ps.push(Seq::empty()));
    assert(split_dash(t1).take(k) =~= ps);
    assert(t1[1] == s[1]);
    lemma_empty_subtag(t1, k);
    // two dashes in a row
    let lead = Seq::<char>::empty().push('-') + r;
    assert(lead =~= seq!['-'] + r);
    lemma_split_dash_concat(Seq::empty(), r);
    assert(split_dash(Seq::<char>::empty()) =~= seq![Seq::<char>::empty()]);
    let t2 = s + seq!['-', '-'] + r;
    assert(t2 =~= s.push('-') + lead);
    lemma_split_dash_concat(s, lead);
    let q = split_dash(t2);
    assert(q == ps + split_dash(lead));
    assert(split_dash(lead) == seq![Seq::<char>::empty()] + split_dash(r));
    assert(q[k] == split_dash(lead)[0]);
    assert(q.take(k) =~= ps);
    assert(t2[1] == s[1]);
    lemma_empty_subtag(t2, k);
    // a dash at the start
    assert(split_dash(lead)[0].len() == 0);
    assert(split_dash(lead).take(0) =~= Seq::<Seq<char>>::empty());
    assert(lead[0] == '-');
    lemma_empty_subtag(lead, 0);
}

/// A primary language of two or three letters and four subtags of three
/// letters, written with dashes and followed by nothing or by a dash and
/// anything, is refused with `TooManyExtlangs`.
pub proof fn lemma_too_many_extlangs_text(
    l: Seq<char>,
    a: Seq<char>,
    b: Seq<char>,
    c: Seq<char>,
    d: Seq<char>,
    r: Seq<char>,
)
    requires
        2 <= l.len() <= 3 && all_alpha(l),
        a.len() == 3 && all_alpha(a),
        b.len() == 3 && all_alpha(b),
        c.len() == 3 && all_alpha(c),
        d.len() == 3 && all_alpha(d),
        r.len() == 0 || r[0] == '-',
    ensures
        parse_model(dashed(dashed(dashed(dashed(l, a), b), c), d) + r) == Err::<
            crate::grammar::TagModel,
            ParseError,
        >(ParseError::TooManyExtlangs),
{
    let qs = seq![l, a, b, c, d];
    let s0 = dashed(dashed(dashed(dashed(l, a), b), c), d);
    assert(qs.drop_last().drop_last().drop_last().drop_last() =~= seq![l]);
    assert(qs.drop_last().drop_last().drop_last() =~= seq![l, a]);
    assert(qs.drop_last().drop_last() =~= seq![l, a, b]);
    assert(qs.drop_last() =~= seq![l, a, b, c]);
    assert(join_dash(seq![l]) == l);
    assert(join_dash(seq![l, a]) == dashed(l, a));
    assert(join_dash(seq![l, a, b]) == dashed(dashed(l, a), b));
    assert(join_dash(seq![l, a, b, c]) == dashed(dashed(dashed(l, a), b), c));
    assert(join_dash(qs) == s0);
    assert forall|i: int| 0 <= i < qs.len() implies dash_free(#[trigger] qs[i]) by {
        assert(all_alpha(qs[i]));
        assert forall|k: int| 0 <= k < qs[i].len() implies qs[i][k] != '-' by {
            assert(alpha_char(qs[i][k]));
        }
    }
    lemma_split_join(qs);
    let s = s0 + r;
    if r.len() == 0 {
        assert(s =~= s0);
    } else {
        let rest = r.skip(1);
        assert(s =~= s0.push('-') + rest);
        lemma_split_dash_concat(s0, rest);
        lemma_split_dash_len(rest);
    }
    let ps = split_dash(s);
    assert(ps.len() >= 5);
    assert(forall|i: int| 0 <= i < 5 ==> ps[i] == qs[i]);
    assert(ps[1] == a && ps[2] == b && ps[3] == c && ps[4] == d);
    lemma_too_many_extlangs(s);
}


/// Where the script of a scan starts, less one: after the language.
pub open spec fn script_start(st: Scan) -> int {
    max(st.language_end, st.extlang_end)
}

/// Where the region of a scan starts, less one: after the script.
pub open spec fn region_start(st: Scan) -> int {
    max(script_start(st), st.script_end)
}

/// Position `i` of the text lies in the script or in the region.
pub open spec fn in_script_or_region(st: Scan, i: int) -> bool {
    (st.script_end > 0 && script_start(st) < i < st.script_end) || (st.region_end > 0
        && region_start(st) < i < st.region_end)
}

/// The case of the text built so far: the script in title case, the region
/// in upper case, everything else in lower case.
pub open spec fn case_form(st: Scan) -> bool {
    &&& (st.state == State::Start || st.state == State::AfterLanguage || st.state
        == State::AfterExtLang) ==> st.script_end == 0 && st.region_end == 0 && st.variant_end == 0
        && st.extension_end == 0
    &&& st.state == State::AfterScript ==> st.region_end == 0 && st.variant_end == 0
        && st.extension_end == 0
    &&& st.script_end > 0 ==> st.script_end == script_start(st) + 5 && st.script_end
        <= st.out.len() && title(st.out.subrange(script_start(st) + 1, st.script_end))
        == st.out.subrange(script_start(st) + 1, st.script_end)
    &&& st.region_end > 0 ==> region_start(st) + 1 < st.region_end <= st.out.len() && upper(
        st.out.subrange(region_start(st) + 1, st.region_end),
    ) == st.out.subrange(region_start(st) + 1, st.region_end)
    &&& forall|i: int|
        0 <= i < st.out.len() && !in_script_or_region(st, i) ==> lower_char(#[trigger] st.out[i])
            == st.out[i]
}

proof fn lemma_step_case_form(st: Scan, t: Seq<char>)
    requires
        case_form(st),
        scan_shape(st),
        step(st, t) is Ok,
    ensures
        case_form(step(st, t)->Ok_0),
{
    let st2 = step(st, t)->Ok_0;
    lemma_step_emitted(st, t);
    lemma_seq_case(t);
    let e = emitted(st, t);
    let old_len = st.out.len() as int;
    let base = lead(st).len() as int;
    assert(st2.out == lead(st) + e);
    assert forall|i: int| 0 <= i < old_len implies st2.out[i] == st.out[i] by {
        assert((lead(st) + e)[i] == lead(st)[i]);
    }
    if st.state != State::Start {
        assert(st2.out[old_len] == '-');
    }
    // the spans of the new state hold those of the old one
    if st.script_end > 0 {
        assert(st2.script_end == st.script_end && script_start(st2) == script_start(st));
        assert(st2.out.subrange(script_start(st) + 1, st.script_end) =~= st.out.subrange(
            script_start(st) + 1,
            st.script_end,
        ));
    }
    if st.region_end > 0 {
        assert(st2.region_end == st.region_end && region_start(st2) == region_start(st));
        assert(st2.out.subrange(region_start(st) + 1, st.region_end) =~= st.out.subrange(
            region_start(st) + 1,
            st.region_end,
        ));
    }
    if st2.script_end != st.script_end {
        assert(script_start(st2) == old_len);
        assert(st2.out.subrange(old_len + 1, st2.script_end) =~= e);
        assert(e == title(t));
    }
    if st2.region_end != st.region_end {
        assert(region_start(st2) == old_len);
        assert(st2.out.subrange(old_len + 1, st2.region_end) =~= e);
        assert(e == upper(t));
    }
    assert forall|i: int|
        0 <= i < st2.out.len() && !in_script_or_region(st2, i) implies lower_char(
        #[trigger] st2.out[i],
    ) == st2.out[i] by {
        if i < old_len {
            assert(!in_script_or_region(st, i));
            assert(st2.out[i] == st.out[i]);
        } else if i < base {
            assert(st2.out[i] == '-');
        } else {
            assert(st2.out[i] == e[i - base]);
            assert(e == lower(t));
            assert(lower(t)[i - base] == lower_char(t[i - base]));
            lemma_char_case(t[i - base]);
        }
    }
}

proof fn lemma_scan_case_form(ps: Seq<Seq<char>>)
    requires
        scan(ps) is Ok,
    ensures
        case_form(scan(ps)->Ok_0),
    decreases ps.len(),
{
    if ps.len() > 0 {
        let prev = ps.drop_last();
        lemma_scan_case_form(prev);
        lemma_scan_shape(prev);
        lemma_step_case_form(scan(prev)->Ok_0, ps.last());
    }
}


/// A stretch of text whose characters are all in lower case is its own lower
/// case.
proof fn lemma_lower_stretch(text: Seq<char>, a: int, b: int)
    requires
        0 <= a <= b <= text.len(),
        forall|i: int| a <= i < b ==> lower_char(#[trigger] text[i]) == text[i],
    ensures
        lower(text.subrange(a, b)) == text.subrange(a, b),
{
    assert(lower(text.subrange(a, b)) =~= text.subrange(a, b)) by {
        assert forall|i: int| 0 <= i < b - a implies lower(text.subrange(a, b))[i] == text.subrange(a, b)[i] by {
            assert(text.subrange(a, b)[i] == text[a + i]);
        }
    }
}

/// Each component of a parsed tag that is neither grandfathered nor private
/// use throughout is written in its case: the script in title case, the
/// region in upper case, every other component in lower case.
pub proof fn lemma_parsed_case_form(s: Seq<char>)
    requires
        parse_model(s) is Ok,
        grandfathered_match(s) is None,
        !is_private_use_text(s),
    ensures
        lower(primary_language_of(parse_model(s)->Ok_0)) == primary_language_of(parse_model(s)->Ok_0),
        extended_language_of(parse_model(s)->Ok_0) matches Some(x) ==> lower(x) == x,
        script_of(parse_model(s)->Ok_0) matches Some(x) ==> title(x) == x,
        region_of(parse_model(s)->Ok_0) matches Some(x) ==> upper(x) == x,
        variant_of(parse_model(s)->Ok_0) matches Some(x) ==> lower(x) == x,
        extension_of(parse_model(s)->Ok_0) matches Some(x) ==> lower(x) == x,
        private_use_of(parse_model(s)->Ok_0) matches Some(x) ==> lower(x) == x,
{
    let ps = split_dash(s);
    let m = parse_model(s)->Ok_0;
    assert(scan_tag(ps) == parse_model(s));
    let st = scan(ps)->Ok_0;
    lemma_scan_case_form(ps);
    lemma_scan_shape(ps);
    let text = m.text;
    assert(text == st.out);
    let e = m.extlang_end;
    let sc = m.script_end;
    let r = m.region_end;
    assert(script_start(st) == e);
    assert(region_start(st) == sc);
    assert forall|i: int| 0 <= i < text.len() && (i <= e || i > r) implies lower_char(#[trigger] text[i])
        == text[i] by {
        assert(!in_script_or_region(st, i));
    }
    lemma_lower_stretch(text, 0, m.language_end);
    if m.language_end < e {
        lemma_lower_stretch(text, m.language_end + 1, e);
    }
    if e < sc {
        assert(st.script_end > 0 && sc == st.script_end);
    }
    if sc < r {
        assert(st.region_end > 0 && r == st.region_end);
    }
    if r < m.variant_end {
        lemma_lower_stretch(text, r + 1, m.variant_end);
    }
    if m.variant_end < m.extension_end {
        lemma_lower_stretch(text, m.variant_end + 1, m.extension_end);
    }
    if m.extension_end < text.len() {
        lemma_lower_stretch(text, m.extension_end + 1, text.len() as int);
    }
    // the text does not start with `x-`: its second character is a letter
    lemma_scanned_not_private(s);
    lemma_parse_changes_case_only(s);
    assert(lower(text)[1] == lower(s)[1]);
    assert(lower(text)[1] == lower_char(text[1]) && lower(s)[1] == lower_char(s[1]));
    lemma_char_case(text[1]);
    lemma_char_case(s[1]);
}

} // verus!
