use vstd::prelude::*;
use vstd::string::*;

use crate::charclass::{
    all_alnum_or_dash, eq_ignore_case, lower, lower_char, slice_eq, slice_eq_ignore_case,
};

verus! {

pub open spec fn opt_view(o: Option<&str>) -> Option<Seq<char>> {
    match o {
        Some(t) => Some(t@),
        None => None,
    }
}


pub const GRANDFATHERED_LEN: usize = 26;

pub const DEPRECATED_LANGUAGE_LEN: usize = 53;

pub const DEPRECATED_REGION_LEN: usize = 6;

/// The grandfathered tags, each with its preferred replacement if there is one.
pub open spec fn grandfathered_entry(i: int) -> (Seq<char>, Option<Seq<char>>) {
    if i == 0 {
        ("art-lojban"@, Some("jbo"@))
    } else if i == 1 {
        ("cel-gaulish"@, None)
    } else if i == 2 {
        ("en-GB-oed"@, Some("en-GB-oxendict"@))
    } else if i == 3 {
        ("i-ami"@, Some("ami"@))
    } else if i == 4 {
        ("i-bnn"@, Some("bnn"@))
    } else if i == 5 {
        ("i-default"@, None)
    } else if i == 6 {
        ("i-enochian"@, None)
    } else if i == 7 {
        ("i-hak"@, Some("hak"@))
    } else if i == 8 {
        ("i-klingon"@, Some("tlh"@))
    } else if i == 9 {
        ("i-lux"@, Some("lb"@))
    } else if i == 10 {
        ("i-mingo"@, None)
    } else if i == 11 {
        ("i-navajo"@, Some("nv"@))
    } else if i == 12 {
        ("i-pwn"@, Some("pwn"@))
    } else if i == 13 {
        ("i-tao"@, Some("tao"@))
    } else if i == 14 {
        ("i-tay"@, Some("tay"@))
    } else if i == 15 {
        ("i-tsu"@, Some("tsu"@))
    } else if i == 16 {
        ("no-bok"@, Some("nb"@))
    } else if i == 17 {
        ("no-nyn"@, Some("nn"@))
    } else if i == 18 {
        ("sgn-BE-FR"@, Some("sfb"@))
    } else if i == 19 {
        ("sgn-BE-NL"@, Some("vgt"@))
    } else if i == 20 {
        ("sgn-CH-DE"@, Some("sgg"@))
    } else if i == 21 {
        ("zh-guoyu"@, Some("cmn"@))
    } else if i == 22 {
        ("zh-hakka"@, Some("hak"@))
    } else if i == 23 {
        ("zh-min"@, None)
    } else if i == 24 {
        ("zh-min-nan"@, Some("nan"@))
    } else {
        ("zh-xiang"@, Some("hsn"@))
    }
}

/// Deprecated language subtags and the subtags that replace them.
pub open spec fn deprecated_language_entry(i: int) -> (Seq<char>, Seq<char>) {
    if i == 0 {
        ("in"@, "id"@)
    } else if i == 1 {
        ("iw"@, "he"@)
    } else if i == 2 {
        ("ji"@, "yi"@)
    } else if i == 3 {
        ("jw"@, "jv"@)
    } else if i == 4 {
        ("mo"@, "ro"@)
    } else if i == 5 {
        ("aam"@, "aas"@)
    } else if i == 6 {
        ("adp"@, "dz"@)
    } else if i == 7 {
        ("aue"@, "ktz"@)
    } else if i == 8 {
        ("ayx"@, "nun"@)
    } else if i == 9 {
        ("bjd"@, "drl"@)
    } else if i == 10 {
        ("ccq"@, "rki"@)
    } else if i == 11 {
        ("cjr"@, "mom"@)
    } else if i == 12 {
        ("cka"@, "cmr"@)
    } else if i == 13 {
        ("cmk"@, "xch"@)
    } else if i == 14 {
        ("drh"@, "khk"@)
    } else if i == 15 {
        ("drw"@, "prs"@)
    } else if i == 16 {
        ("gav"@, "dev"@)
    } else if i == 17 {
        ("gfx"@, "vaj"@)
    } else if i == 18 {
        ("gti"@, "nyc"@)
    } else if i == 19 {
        ("hrr"@, "jal"@)
    } else if i == 20 {
        ("ibi"@, "opa"@)
    } else if i == 21 {
        ("ilw"@, "gal"@)
    } else if i == 22 {
        ("kgh"@, "kml"@)
    } else if i == 23 {
        ("koj"@, "kwv"@)
    } else if i == 24 {
        ("kwq"@, "yam"@)
    } else if i == 25 {
        ("kxe"@, "tvd"@)
    } else if i == 26 {
        ("lii"@, "raq"@)
    } else if i == 27 {
        ("lmm"@, "rmx"@)
    } else if i == 28 {
        ("meg"@, "cir"@)
    } else if i == 29 {
        ("mst"@, "mry"@)
    } else if i == 30 {
        ("mwj"@, "vaj"@)
    } else if i == 31 {
        ("myt"@, "mry"@)
    } else if i == 32 {
        ("nnx"@, "ngv"@)
    } else if i == 33 {
        ("oun"@, "vaj"@)
    } else if i == 34 {
        ("pcr"@, "adx"@)
    } else if i == 35 {
        ("pmu"@, "phr"@)
    } else if i == 36 {
        ("ppr"@, "lcq"@)
    } else if i == 37 {
        ("puz"@, "pub"@)
    } else if i == 38 {
        ("sca"@, "hle"@)
    } else if i == 39 {
        ("thx"@, "oyb"@)
    } else if i == 40 {
        ("tie"@, "ras"@)
    } else if i == 41 {
        ("tkk"@, "twm"@)
    } else if i == 42 {
        ("tlw"@, "weo"@)
    } else if i == 43 {
        ("tnf"@, "prs"@)
    } else if i == 44 {
        ("tsf"@, "taj"@)
    } else if i == 45 {
        ("uok"@, "ema"@)
    } else if i == 46 {
        ("xia"@, "acn"@)
    } else if i == 47 {
        ("xsj"@, "suj"@)
    } else if i == 48 {
        ("ybd"@, "rki"@)
    } else if i == 49 {
        ("yma"@, "lrr"@)
    } else if i == 50 {
        ("ymt"@, "mtm"@)
    } else if i == 51 {
        ("yos"@, "zom"@)
    } else {
        ("yuu"@, "yug"@)
    }
}

/// Deprecated region subtags and the subtags that replace them.
pub open spec fn deprecated_region_entry(i: int) -> (Seq<char>, Seq<char>) {
    if i == 0 {
        ("BU"@, "MM"@)
    } else if i == 1 {
        ("DD"@, "DE"@)
    } else if i == 2 {
        ("FX"@, "FR"@)
    } else if i == 3 {
        ("TP"@, "TL"@)
    } else if i == 4 {
        ("YD"@, "YE"@)
    } else {
        ("ZR"@, "CD"@)
    }
}

pub(crate) fn grandfathered_at(i: usize) -> (r: (&'static str, Option<&'static str>))
    requires
        i < GRANDFATHERED_LEN,
    ensures
        all_alnum_or_dash(r.0@),
        r.1 matches Some(x) ==> all_alnum_or_dash(x@),
        r.0@ == grandfathered_entry(i as int).0,
        opt_view(r.1) == grandfathered_entry(i as int).1,
{
    match i {
        0 => {
            proof {
                reveal_strlit("art-lojban"); reveal_strlit("jbo");
            }
            ("art-lojban", Some("jbo"))
        },
        1 => {
            proof {
                reveal_strlit("cel-gaulish");
            }
            ("cel-gaulish", None)
        },
        2 => {
            proof {
                reveal_strlit("en-GB-oed"); reveal_strlit("en-GB-oxendict");
            }
            ("en-GB-oed", Some("en-GB-oxendict"))
        },
        3 => {
            proof {
                reveal_strlit("i-ami"); reveal_strlit("ami");
            }
            ("i-ami", Some("ami"))
        },
        4 => {
            proof {
                reveal_strlit("i-bnn"); reveal_strlit("bnn");
            }
            ("i-bnn", Some("bnn"))
        },
        5 => {
            proof {
                reveal_strlit("i-default");
            }
            ("i-default", None)
        },
        6 => {
            proof {
                reveal_strlit("i-enochian");
            }
            ("i-enochian", None)
        },
        7 => {
            proof {
                reveal_strlit("i-hak"); reveal_strlit("hak");
            }
            ("i-hak", Some("hak"))
        },
        8 => {
            proof {
                reveal_strlit("i-klingon"); reveal_strlit("tlh");
            }
            ("i-klingon", Some("tlh"))
        },
        9 => {
            proof {
                reveal_strlit("i-lux"); reveal_strlit("lb");
            }
            ("i-lux", Some("lb"))
        },
        10 => {
            proof {
                reveal_strlit("i-mingo");
            }
            ("i-mingo", None)
        },
        11 => {
            proof {
                reveal_strlit("i-navajo"); reveal_strlit("nv");
            }
            ("i-navajo", Some("nv"))
        },
        12 => {
            proof {
                reveal_strlit("i-pwn"); reveal_strlit("pwn");
            }
            ("i-pwn", Some("pwn"))
        },
        13 => {
            proof {
                reveal_strlit("i-tao"); reveal_strlit("tao");
            }
            ("i-tao", Some("tao"))
        },
        14 => {
            proof {
                reveal_strlit("i-tay"); reveal_strlit("tay");
            }
            ("i-tay", Some("tay"))
        },
        15 => {
            proof {
                reveal_strlit("i-tsu"); reveal_strlit("tsu");
            }
            ("i-tsu", Some("tsu"))
        },
        16 => {
            proof {
                reveal_strlit("no-bok"); reveal_strlit("nb");
            }
            ("no-bok", Some("nb"))
        },
        17 => {
            proof {
                reveal_strlit("no-nyn"); reveal_strlit("nn");
            }
            ("no-nyn", Some("nn"))
        },
        18 => {
            proof {
                reveal_strlit("sgn-BE-FR"); reveal_strlit("sfb");
            }
            ("sgn-BE-FR", Some("sfb"))
        },
        19 => {
            proof {
                reveal_strlit("sgn-BE-NL"); reveal_strlit("vgt");
            }
            ("sgn-BE-NL", Some("vgt"))
        },
        20 => {
            proof {
                reveal_strlit("sgn-CH-DE"); reveal_strlit("sgg");
            }
            ("sgn-CH-DE", Some("sgg"))
        },
        21 => {
            proof {
                reveal_strlit("zh-guoyu"); reveal_strlit("cmn");
            }
            ("zh-guoyu", Some("cmn"))
        },
        22 => {
            proof {
                reveal_strlit("zh-hakka"); reveal_strlit("hak");
            }
            ("zh-hakka", Some("hak"))
        },
        23 => {
            proof {
                reveal_strlit("zh-min");
            }
            ("zh-min", None)
        },
        24 => {
            proof {
                reveal_strlit("zh-min-nan"); reveal_strlit("nan");
            }
            ("zh-min-nan", Some("nan"))
        },
        _ => {
            proof {
                reveal_strlit("zh-xiang"); reveal_strlit("hsn");
            }
            ("zh-xiang", Some("hsn"))
        },
    }
}

pub(crate) fn deprecated_language_at(i: usize) -> (r: (&'static str, &'static str))
    requires
        i < DEPRECATED_LANGUAGE_LEN,
    ensures
        all_alnum_or_dash(r.1@),
        r.0@ == deprecated_language_entry(i as int).0,
        r.1@ == deprecated_language_entry(i as int).1,
{
    match i {
        0 => {
            proof {
                reveal_strlit("in"); reveal_strlit("id");
            }
            ("in", "id")
        },
        1 => {
            proof {
                reveal_strlit("iw"); reveal_strlit("he");
            }
            ("iw", "he")
        },
        2 => {
            proof {
                reveal_strlit("ji"); reveal_strlit("yi");
            }
            ("ji", "yi")
        },
        3 => {
            proof {
                reveal_strlit("jw"); reveal_strlit("jv");
            }
            ("jw", "jv")
        },
        4 => {
            proof {
                reveal_strlit("mo"); reveal_strlit("ro");
            }
            ("mo", "ro")
        },
        5 => {
            proof {
                reveal_strlit("aam"); reveal_strlit("aas");
            }
            ("aam", "aas")
        },
        6 => {
            proof {
                reveal_strlit("adp"); reveal_strlit("dz");
            }
            ("adp", "dz")
        },
        7 => {
            proof {
                reveal_strlit("aue"); reveal_strlit("ktz");
            }
            ("aue", "ktz")
        },
        8 => {
            proof {
                reveal_strlit("ayx"); reveal_strlit("nun");
            }
            ("ayx", "nun")
        },
        9 => {
            proof {
                reveal_strlit("bjd"); reveal_strlit("drl");
            }
            ("bjd", "drl")
        },
        10 => {
            proof {
                reveal_strlit("ccq"); reveal_strlit("rki");
            }
            ("ccq", "rki")
        },
        11 => {
            proof {
                reveal_strlit("cjr"); reveal_strlit("mom");
            }
            ("cjr", "mom")
        },
        12 => {
            proof {
                reveal_strlit("cka"); reveal_strlit("cmr");
            }
            ("cka", "cmr")
        },
        13 => {
            proof {
                reveal_strlit("cmk"); reveal_strlit("xch");
            }
            ("cmk", "xch")
        },
        14 => {
            proof {
                reveal_strlit("drh"); reveal_strlit("khk");
            }
            ("drh", "khk")
        },
        15 => {
            proof {
                reveal_strlit("drw"); reveal_strlit("prs");
            }
            ("drw", "prs")
        },
        16 => {
            proof {
                reveal_strlit("gav"); reveal_strlit("dev");
            }
            ("gav", "dev")
        },
        17 => {
            proof {
                reveal_strlit("gfx"); reveal_strlit("vaj");
            }
            ("gfx", "vaj")
        },
        18 => {
            proof {
                reveal_strlit("gti"); reveal_strlit("nyc");
            }
            ("gti", "nyc")
        },
        19 => {
            proof {
                reveal_strlit("hrr"); reveal_strlit("jal");
            }
            ("hrr", "jal")
        },
        20 => {
            proof {
                reveal_strlit("ibi"); reveal_strlit("opa");
            }
            ("ibi", "opa")
        },
        21 => {
            proof {
                reveal_strlit("ilw"); reveal_strlit("gal");
            }
            ("ilw", "gal")
        },
        22 => {
            proof {
                reveal_strlit("kgh"); reveal_strlit("kml");
            }
            ("kgh", "kml")
        },
        23 => {
            proof {
                reveal_strlit("koj"); reveal_strlit("kwv");
            }
            ("koj", "kwv")
        },
        24 => {
            proof {
                reveal_strlit("kwq"); reveal_strlit("yam");
            }
            ("kwq", "yam")
        },
        25 => {
            proof {
                reveal_strlit("kxe"); reveal_strlit("tvd");
            }
            ("kxe", "tvd")
        },
        26 => {
            proof {
                reveal_strlit("lii"); reveal_strlit("raq");
            }
            ("lii", "raq")
        },
        27 => {
            proof {
                reveal_strlit("lmm"); reveal_strlit("rmx");
            }
            ("lmm", "rmx")
        },
        28 => {
            proof {
                reveal_strlit("meg"); reveal_strlit("cir");
            }
            ("meg", "cir")
        },
        29 => {
            proof {
                reveal_strlit("mst"); reveal_strlit("mry");
            }
            ("mst", "mry")
        },
        30 => {
            proof {
                reveal_strlit("mwj"); reveal_strlit("vaj");
            }
            ("mwj", "vaj")
        },
        31 => {
            proof {
                reveal_strlit("myt"); reveal_strlit("mry");
            }
            ("myt", "mry")
        },
        32 => {
            proof {
                reveal_strlit("nnx"); reveal_strlit("ngv");
            }
            ("nnx", "ngv")
        },
        33 => {
            proof {
                reveal_strlit("oun"); reveal_strlit("vaj");
            }
            ("oun", "vaj")
        },
        34 => {
            proof {
                reveal_strlit("pcr"); reveal_strlit("adx");
            }
            ("pcr", "adx")
        },
        35 => {
            proof {
                reveal_strlit("pmu"); reveal_strlit("phr");
            }
            ("pmu", "phr")
        },
        36 => {
            proof {
                reveal_strlit("ppr"); reveal_strlit("lcq");
            }
            ("ppr", "lcq")
        },
        37 => {
            proof {
                reveal_strlit("puz"); reveal_strlit("pub");
            }
            ("puz", "pub")
        },
        38 => {
            proof {
                reveal_strlit("sca"); reveal_strlit("hle");
            }
            ("sca", "hle")
        },
        39 => {
            proof {
                reveal_strlit("thx"); reveal_strlit("oyb");
            }
            ("thx", "oyb")
        },
        40 => {
            proof {
                reveal_strlit("tie"); reveal_strlit("ras");
            }
            ("tie", "ras")
        },
        41 => {
            proof {
                reveal_strlit("tkk"); reveal_strlit("twm");
            }
            ("tkk", "twm")
        },
        42 => {
            proof {
                reveal_strlit("tlw"); reveal_strlit("weo");
            }
            ("tlw", "weo")
        },
        43 => {
            proof {
                reveal_strlit("tnf"); reveal_strlit("prs");
            }
            ("tnf", "prs")
        },
        44 => {
            proof {
                reveal_strlit("tsf"); reveal_strlit("taj");
            }
            ("tsf", "taj")
        },
        45 => {
            proof {
                reveal_strlit("uok"); reveal_strlit("ema");
            }
            ("uok", "ema")
        },
        46 => {
            proof {
                reveal_strlit("xia"); reveal_strlit("acn");
            }
            ("xia", "acn")
        },
        47 => {
            proof {
                reveal_strlit("xsj"); reveal_strlit("suj");
            }
            ("xsj", "suj")
        },
        48 => {
            proof {
                reveal_strlit("ybd"); reveal_strlit("rki");
            }
            ("ybd", "rki")
        },
        49 => {
            proof {
                reveal_strlit("yma"); reveal_strlit("lrr");
            }
            ("yma", "lrr")
        },
        50 => {
            proof {
                reveal_strlit("ymt"); reveal_strlit("mtm");
            }
            ("ymt", "mtm")
        },
        51 => {
            proof {
                reveal_strlit("yos"); reveal_strlit("zom");
            }
            ("yos", "zom")
        },
        _ => {
            proof {
                reveal_strlit("yuu"); reveal_strlit("yug");
            }
            ("yuu", "yug")
        },
    }
}

pub(crate) fn deprecated_region_at(i: usize) -> (r: (&'static str, &'static str))
    requires
        i < DEPRECATED_REGION_LEN,
    ensures
        all_alnum_or_dash(r.1@),
        r.0@ == deprecated_region_entry(i as int).0,
        r.1@ == deprecated_region_entry(i as int).1,
{
    match i {
        0 => {
            proof {
                reveal_strlit("BU"); reveal_strlit("MM");
            }
            ("BU", "MM")
        },
        1 => {
            proof {
                reveal_strlit("DD"); reveal_strlit("DE");
            }
            ("DD", "DE")
        },
        2 => {
            proof {
                reveal_strlit("FX"); reveal_strlit("FR");
            }
            ("FX", "FR")
        },
        3 => {
            proof {
                reveal_strlit("TP"); reveal_strlit("TL");
            }
            ("TP", "TL")
        },
        4 => {
            proof {
                reveal_strlit("YD"); reveal_strlit("YE");
            }
            ("YD", "YE")
        },
        _ => {
            proof {
                reveal_strlit("ZR"); reveal_strlit("CD");
            }
            ("ZR", "CD")
        },
    }
}


/// The first grandfathered tag, from index `i` on, that equals `s` up to ASCII
/// case.
pub open spec fn grandfathered_match_from(s: Seq<char>, i: int) -> Option<int>
    decreases GRANDFATHERED_LEN - i,
{
    if i < 0 || i >= GRANDFATHERED_LEN {
        None
    } else if eq_ignore_case(s, grandfathered_entry(i).0) {
        Some(i)
    } else {
        grandfathered_match_from(s, i + 1)
    }
}

/// The grandfathered tag that equals `s` up to ASCII case, in the table's
/// spelling.
pub open spec fn grandfathered_match(s: Seq<char>) -> Option<Seq<char>> {
    match grandfathered_match_from(s, 0) {
        Some(i) => Some(grandfathered_entry(i).0),
        None => None,
    }
}

/// The first grandfathered tag, from index `i` on, that is exactly `s`.
pub open spec fn grandfathered_index_from(s: Seq<char>, i: int) -> Option<int>
    decreases GRANDFATHERED_LEN - i,
{
    if i < 0 || i >= GRANDFATHERED_LEN {
        None
    } else if grandfathered_entry(i).0 == s {
        Some(i)
    } else {
        grandfathered_index_from(s, i + 1)
    }
}

/// The preferred replacement of the grandfathered tag `s`, if `s` is one and
/// has one.
pub open spec fn grandfathered_replacement(s: Seq<char>) -> Option<Seq<char>> {
    match grandfathered_index_from(s, 0) {
        Some(i) => grandfathered_entry(i).1,
        None => None,
    }
}

pub open spec fn deprecated_language_from(l: Seq<char>, i: int) -> Option<Seq<char>>
    decreases DEPRECATED_LANGUAGE_LEN - i,
{
    if i < 0 || i >= DEPRECATED_LANGUAGE_LEN {
        None
    } else if deprecated_language_entry(i).0 == l {
        Some(deprecated_language_entry(i).1)
    } else {
        deprecated_language_from(l, i + 1)
    }
}

/// The replacement of a deprecated language subtag.
pub open spec fn deprecated_language(l: Seq<char>) -> Option<Seq<char>> {
    deprecated_language_from(l, 0)
}

pub open spec fn deprecated_region_from(r: Seq<char>, i: int) -> Option<Seq<char>>
    decreases DEPRECATED_REGION_LEN - i,
{
    if i < 0 || i >= DEPRECATED_REGION_LEN {
        None
    } else if deprecated_region_entry(i).0 == r {
        Some(deprecated_region_entry(i).1)
    } else {
        deprecated_region_from(r, i + 1)
    }
}

/// The replacement of a deprecated region subtag.
pub open spec fn deprecated_region(r: Seq<char>) -> Option<Seq<char>> {
    deprecated_region_from(r, 0)
}

/// Looks `s` up among the grandfathered tags, ignoring ASCII case.
pub(crate) fn find_grandfathered(s: &[char]) -> (r: Option<&'static str>)
    ensures
        opt_view(r) == grandfathered_match(s@),
        r matches Some(x) ==> all_alnum_or_dash(x@),
{
    let mut i: usize = 0;
    while i < GRANDFATHERED_LEN
        invariant
            grandfathered_match_from(s@, 0) == grandfathered_match_from(s@, i as int),
        decreases GRANDFATHERED_LEN - i,
    {
        let (key, _) = grandfathered_at(i);
        if slice_eq_ignore_case(s, key) {
            return Some(key);
        }
        i += 1;
    }
    None
}

/// The replacement of the grandfathered tag `s`, compared exactly.
pub(crate) fn find_grandfathered_replacement(s: &[char]) -> (r: Option<&'static str>)
    ensures
        opt_view(r) == grandfathered_replacement(s@),
        r matches Some(x) ==> all_alnum_or_dash(x@),
{
    let mut i: usize = 0;
    while i < GRANDFATHERED_LEN
        invariant
            grandfathered_index_from(s@, 0) == grandfathered_index_from(s@, i as int),
        decreases GRANDFATHERED_LEN - i,
    {
        let (key, replacement) = grandfathered_at(i);
        if slice_eq(s, key) {
            return replacement;
        }
        i += 1;
    }
    None
}

pub(crate) fn find_deprecated_language(l: &[char]) -> (r: Option<&'static str>)
    ensures
        opt_view(r) == deprecated_language(l@),
        r matches Some(x) ==> all_alnum_or_dash(x@),
{
    let mut i: usize = 0;
    while i < DEPRECATED_LANGUAGE_LEN
        invariant
            deprecated_language_from(l@, 0) == deprecated_language_from(l@, i as int),
        decreases DEPRECATED_LANGUAGE_LEN - i,
    {
        let (key, replacement) = deprecated_language_at(i);
        if slice_eq(l, key) {
            return Some(replacement);
        }
        i += 1;
    }
    None
}

pub(crate) fn find_deprecated_region(r: &[char]) -> (res: Option<&'static str>)
    ensures
        opt_view(res) == deprecated_region(r@),
        res matches Some(x) ==> all_alnum_or_dash(x@),
{
    let mut i: usize = 0;
    while i < DEPRECATED_REGION_LEN
        invariant
            deprecated_region_from(r@, 0) == deprecated_region_from(r@, i as int),
        decreases DEPRECATED_REGION_LEN - i,
    {
        let (key, replacement) = deprecated_region_at(i);
        if slice_eq(r, key) {
            return Some(replacement);
        }
        i += 1;
    }
    None
}

/// Equality up to ASCII case is equality of the lower-case forms.
pub proof fn eq_ignore_case_is_lower_eq(a: Seq<char>, b: Seq<char>)
    ensures
        eq_ignore_case(a, b) == (lower(a) == lower(b)),
{
    assert(lower(a).len() == a.len() && lower(b).len() == b.len());
    if lower(a) == lower(b) {
        assert forall|i: int| 0 <= i < a.len() implies lower_char(#[trigger] a[i]) == lower_char(b[i]) by {
            assert(lower(a)[i] == lower_char(a[i]));
            assert(lower(b)[i] == lower_char(b[i]));
        }
    }
    if eq_ignore_case(a, b) {
        assert forall|i: int| 0 <= i < a.len() implies lower(a)[i] == lower(b)[i] by {
            assert(lower(a)[i] == lower_char(a[i]));
            assert(lower(b)[i] == lower_char(b[i]));
        }
        assert(lower(a) =~= lower(b));
    }
}

/// A grandfathered tag is not empty, neither starts nor ends with a dash,
/// holds no two dashes in a row, and has at most 11 characters.
pub proof fn lemma_grandfathered_shape(i: int)
    requires
        0 <= i < GRANDFATHERED_LEN,
    ensures
        0 < grandfathered_entry(i).0.len() <= 11,
        grandfathered_entry(i).0[0] != '-',
        grandfathered_entry(i).0.last() != '-',
        forall|j: int|
            0 <= j < grandfathered_entry(i).0.len() - 1 ==> !(#[trigger] grandfathered_entry(i).0[j] == '-'
                && grandfathered_entry(i).0[j + 1] == '-'),
{
        reveal_strlit("art-lojban");
        reveal_strlit("cel-gaulish");
        reveal_strlit("en-GB-oed");
        reveal_strlit("i-ami");
        reveal_strlit("i-bnn");
        reveal_strlit("i-default");
        reveal_strlit("i-enochian");
        reveal_strlit("i-hak");
        reveal_strlit("i-klingon");
        reveal_strlit("i-lux");
        reveal_strlit("i-mingo");
        reveal_strlit("i-navajo");
        reveal_strlit("i-pwn");
        reveal_strlit("i-tao");
        reveal_strlit("i-tay");
        reveal_strlit("i-tsu");
        reveal_strlit("no-bok");
        reveal_strlit("no-nyn");
        reveal_strlit("sgn-BE-FR");
        reveal_strlit("sgn-BE-NL");
        reveal_strlit("sgn-CH-DE");
        reveal_strlit("zh-guoyu");
        reveal_strlit("zh-hakka");
        reveal_strlit("zh-min");
        reveal_strlit("zh-min-nan");
        reveal_strlit("zh-xiang");
}

} // verus!
