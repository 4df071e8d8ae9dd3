//! The language of the log: Chinese where the system speaks it, English
//! everywhere else.

use vstd::prelude::*;

use crate::text;

verus! {

/// Whether a lower-case locale of the system properties is a Chinese one.
pub open spec fn zh_locale(lower: Seq<char>) -> bool {
    ||| text::starts_with(lower, "zh"@)
    ||| text::starts_with(lower, "cmn"@)
    ||| text::starts_with(lower, "yue"@)
}

/// Whether a lower-case language of the environment is a Chinese one.
pub open spec fn zh_env(lower: Seq<char>) -> bool {
    ||| text::starts_with(lower, "zh"@)
    ||| text::starts_with(lower, "cmn"@)
}

/// The language of the environment: the first variable that is set.
pub open spec fn env_lang(lang: Option<Seq<char>>, lc_all: Option<Seq<char>>) -> Seq<char> {
    match lang {
        Some(s) => s,
        None => match lc_all {
            Some(s) => s,
            None => Seq::empty(),
        },
    }
}

/// A text as characters.
pub open spec fn chars(s: Option<&str>) -> Option<Seq<char>> {
    match s {
        Some(s) => Some(s@),
        None => None,
    }
}

/// Whether the system speaks Chinese.
pub open spec fn speaks_zh(
    locale: Option<Seq<char>>,
    lang: Option<Seq<char>>,
    lc_all: Option<Seq<char>>,
) -> bool {
    match locale {
        Some(s) => zh_locale(text::lowercase_of(text::trim(s))),
        None => zh_env(text::lowercase_of(env_lang(lang, lc_all))),
    }
}

/// Whether a lower-case locale of the system properties is a Chinese one.
pub fn is_zh_locale(lower: &str) -> (r: bool)
    ensures
        r == zh_locale(lower@),
{
    let v = text::chars_of(lower);
    text::begins(v.as_slice(), "zh") || text::begins(v.as_slice(), "cmn") || text::begins(
        v.as_slice(),
        "yue",
    )
}

/// Whether a lower-case language of the environment is a Chinese one.
pub fn is_zh_env(lower: &str) -> (r: bool)
    ensures
        r == zh_env(lower@),
{
    let v = text::chars_of(lower);
    text::begins(v.as_slice(), "zh") || text::begins(v.as_slice(), "cmn")
}

/// Whether the system speaks Chinese: its own locale decides where there is
/// one, the environment otherwise.
pub fn is_zh(locale: Option<&str>, lang: Option<&str>, lc_all: Option<&str>) -> (r: bool)
    ensures
        r == speaks_zh(chars(locale), chars(lang), chars(lc_all)),
{
    if let Some(s) = locale {
        let short = text::trimmed(s);
        return is_zh_locale(text::lowercase(short.as_str()).as_str());
    }
    let env: &str = match lang {
        Some(s) => s,
        None => match lc_all {
            Some(s) => s,
            None => {
                proof {
                    reveal_strlit("");
                    assert(""@ =~= Seq::<char>::empty());
                }
                ""
            },
        },
    };
    is_zh_env(text::lowercase(env).as_str())
}

/// The text in the language of the system.
pub fn t<'a>(is_zh: bool, zh: &'a str, en: &'a str) -> (r: &'a str)
    ensures
        r == if is_zh {
            zh
        } else {
            en
        },
{
    if is_zh {
        zh
    } else {
        en
    }
}

} // verus!
