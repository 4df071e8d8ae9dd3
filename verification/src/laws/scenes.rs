//! What the scenes set, and what the machine offers.

use vstd::prelude::*;

use crate::capability;
use crate::capability::CapabilitySet;
use crate::i18n;
use crate::laws::answers;
use crate::scene;
use crate::text;

verus! {

// ---------------------------------------------------------------------
// Scenes
// ---------------------------------------------------------------------

/// A scene is a block of engine settings between two marks, the first of which
/// names it. Games force policies on threads that moved, the others observe
/// them; saving power applies policies most rarely and heeds the pressure.
pub proof fn law_what_scenes_set(name: Seq<char>)
    ensures
        ({
            let ls = scene::scene_lines(name)->Some_0;
            let calm = name == "balanced"@ || name == "default"@;
            &&& scene::scene_lines(name) is Some <==> name == "game"@ || name == "video"@ || name
                == "power-save"@ || calm
            &&& scene::scene_lines(name) is Some <==> scene::scene_settings(name) is Some
            &&& scene::scene_lines(name) is Some ==> {
                &&& ls.len() == 6
                &&& ls[0] == "// <<scene: "@ + name + ">>"@
                &&& ls[1] == "engine {"@
                &&& ls[4] == "}"@
                &&& ls[5] == "// <<scene: end>>"@
            }
            &&& name == "game"@ || calm ==> answers::shows(ls[2], "lock-interval 60"@)
            &&& name == "video"@ ==> answers::shows(ls[2], "lock-interval 30"@)
            &&& name == "power-save"@ ==> answers::shows(ls[2], "lock-interval 300"@)
            &&& name == "game"@ ==> answers::shows(ls[3], "migrate-action \"force\""@)
            &&& name == "video"@ || calm ==> answers::shows(ls[3], "migrate-action \"observe\""@)
            &&& name == "power-save"@ ==> answers::shows(ls[3], "pressure-sensitive \"true\""@)
        }),
{
    reveal_strlit("game");
    reveal_strlit("video");
    reveal_strlit("power-save");
    reveal_strlit("balanced");
    reveal_strlit("default");
    assert("game"@[0] == 'g' && "video"@[0] == 'v' && "power-save"@[0] == 'p' && "balanced"@[0]
        == 'b' && "default"@[0] == 'd');
    reveal_strlit("// <<scene: ");
    reveal_strlit("// <<scene:");
    reveal_strlit(" ");
    assert("// <<scene:"@ + " "@ =~= "// <<scene: "@);
    reveal_strlit("    ");
    reveal_strlit("    lock-interval 60");
    reveal_strlit("    lock-interval 30");
    reveal_strlit("    lock-interval 300");
    reveal_strlit("lock-interval 60");
    reveal_strlit("lock-interval 30");
    reveal_strlit("lock-interval 300");
    reveal_strlit("    migrate-action \"force\"");
    reveal_strlit("    migrate-action \"observe\"");
    reveal_strlit("    pressure-sensitive \"true\"");
    reveal_strlit("migrate-action \"force\"");
    reveal_strlit("migrate-action \"observe\"");
    reveal_strlit("pressure-sensitive \"true\"");
    lemma_indented("    lock-interval 60"@, "lock-interval 60"@);
    lemma_indented("    lock-interval 30"@, "lock-interval 30"@);
    lemma_indented("    lock-interval 300"@, "lock-interval 300"@);
    lemma_indented("    migrate-action \"force\""@, "migrate-action \"force\""@);
    lemma_indented("    migrate-action \"observe\""@, "migrate-action \"observe\""@);
    lemma_indented("    pressure-sensitive \"true\""@, "pressure-sensitive \"true\""@);
}

proof fn lemma_indented(line: Seq<char>, rest: Seq<char>)
    ensures
        line.len() == rest.len() + 4 && (forall|i: int|
            0 <= i < rest.len() ==> rest[i] == #[trigger] line[i + 4]) ==> answers::shows(
            line,
            rest,
        ),
{
    if line.len() == rest.len() + 4 && (forall|i: int|
        0 <= i < rest.len() ==> rest[i] == #[trigger] line[i + 4]) {
        let none = Seq::<char>::empty();
        assert forall|i: int| 0 <= i < line.len() implies line[i] == (line.take(4) + rest
            + none)[i] by {
            if i >= 4 {
                assert(rest[i - 4] == line[(i - 4) + 4]);
            }
        }
        assert(line =~= line.take(4) + rest + none);
    }
}

/// A configuration with a scene ends in the lines of that scene, each with its
/// line feed; a name that is no scene changes nothing.
pub proof fn law_the_scene_comes_last(content: Seq<char>, name: Seq<char>)
    ensures
        scene::with_scene(content, name) is Some <==> name == "game"@ || name == "video"@ || name
            == "power-save"@ || name == "balanced"@ || name == "default"@,
        scene::with_scene(content, name) matches Some(t) ==> {
            let ls = scene::scene_lines(name)->Some_0;
            let lf = seq!['\n'];
            exists|front: Seq<char>|
                t == #[trigger] (front + (ls[0] + lf + ls[1] + lf + ls[2] + lf + ls[3] + lf + ls[4]
                    + lf + ls[5] + lf))
        },
{
    law_what_scenes_set(name);
    if let Some(t) = scene::with_scene(content, name) {
        let ls = scene::scene_lines(name)->Some_0;
        let lf = seq!['\n'];
        reveal_with_fuel(scene::unlines, 7);
        let s1 = ls.skip(1);
        let s2 = s1.skip(1);
        let s3 = s2.skip(1);
        let s4 = s3.skip(1);
        let s5 = s4.skip(1);
        assert(s1[0] == ls[1] && s2[0] == ls[2] && s3[0] == ls[3] && s4[0] == ls[4] && s5[0]
            == ls[5]);
        assert(s5.skip(1).len() == 0);
        let front = scene::unlines(scene::outside(text::lines(content), false));
        assert(scene::unlines(ls) =~= ls[0] + lf + ls[1] + lf + ls[2] + lf + ls[3] + lf + ls[4]
            + lf + ls[5] + lf);
        assert(t == front + (ls[0] + lf + ls[1] + lf + ls[2] + lf + ls[3] + lf + ls[4] + lf + ls[5]
            + lf));
    }
}

// ---------------------------------------------------------------------
// Features
// ---------------------------------------------------------------------

/// Clamping is there just when the kernel's limit is a positive number; where
/// no number can be read, when its control group is there.
pub proof fn law_when_clamping_is_there(limit: Seq<char>, group: bool)
    ensures
        capability::clamps(None, group) == group,
        text::unsigned(text::trim(limit), u32::MAX as nat) is None ==> capability::clamps(
            Some(limit),
            group,
        ) == group,
        text::unsigned(text::trim(limit), u32::MAX as nat) matches Some(n) ==> capability::clamps(
            Some(limit),
            group,
        ) == (n > 0),
{
}

/// Policies try clamping first where it is there, its older form otherwise
/// where that is there, and then cpusets and affinity in any case. What is
/// available is named just so.
pub proof fn law_what_is_tried_first(c: CapabilitySet, x: Seq<char>)
    ensures
        ({
            let o = capability::order(c);
            let a = capability::available(c);
            &&& c.uclamp ==> o.len() == 3 && o[0] == "uclamp"@
            &&& !c.uclamp && c.schedtune ==> o.len() == 3 && o[0] == "schedtune"@
            &&& !c.uclamp && !c.schedtune ==> o.len() == 2
            &&& o[o.len() - 2] == "cpuset"@ && o[o.len() - 1] == "affinity"@
            &&& a.contains(x) <==> (c.uclamp && x == "uclamp"@) || (c.schedtune && x
                == "schedtune"@) || (c.cpuset && x == "cpuset"@)
        }),
{
    let u = capability::one_if(c.uclamp, "uclamp"@);
    let s = capability::one_if(c.schedtune, "schedtune"@);
    let p = capability::one_if(c.cpuset, "cpuset"@);
    let a = capability::available(c);
    if c.uclamp {
        assert(a[0] == "uclamp"@);
    }
    if c.schedtune {
        assert(a[u.len() as int] == "schedtune"@);
    }
    if c.cpuset {
        assert(a[(u.len() + s.len()) as int] == "cpuset"@);
    }
    if a.contains(x) {
        let i = choose|i: int| 0 <= i < a.len() && a[i] == x;
        if i < u.len() {
            assert(a[i] == u[i]);
        } else if i < u.len() + s.len() {
            assert(a[i] == s[i - u.len()]);
        } else {
            assert(a[i] == p[i - u.len() - s.len()]);
        }
    }
}

// ---------------------------------------------------------------------
// Languages
// ---------------------------------------------------------------------

/// The system speaks Chinese just when the first of its locale, `LANG` and
/// `LC_ALL` that is set begins with a code for it; without any it does not.
pub proof fn law_which_language_is_spoken(
    locale: Option<Seq<char>>,
    lang: Option<Seq<char>>,
    lc_all: Option<Seq<char>>,
    rest: Seq<char>,
)
    ensures
        locale is None && lang is None && lc_all is None && text::lowercase_of(Seq::empty()).len()
            == 0 ==> !i18n::speaks_zh(locale, lang, lc_all),
        locale matches Some(s) ==> i18n::speaks_zh(locale, lang, lc_all) == i18n::zh_locale(
            text::lowercase_of(text::trim(s)),
        ),
        locale is None ==> (lang matches Some(s) ==> i18n::speaks_zh(locale, lang, lc_all)
            == i18n::zh_env(text::lowercase_of(s))),
        locale is None && lang is None ==> (lc_all matches Some(s) ==> i18n::speaks_zh(
            locale,
            lang,
            lc_all,
        ) == i18n::zh_env(text::lowercase_of(s))),
        i18n::zh_locale("zh"@ + rest) && i18n::zh_env("zh"@ + rest),
        i18n::zh_locale("cmn"@ + rest) && i18n::zh_env("cmn"@ + rest),
        i18n::zh_locale("yue"@ + rest),
        !i18n::zh_locale("en"@ + rest) && !i18n::zh_env("en"@ + rest),
{
    reveal_strlit("zh");
    reveal_strlit("cmn");
    reveal_strlit("yue");
    reveal_strlit("en");
    assert(("zh"@ + rest).take(2) =~= "zh"@);
    assert(("cmn"@ + rest).take(3) =~= "cmn"@);
    assert(("yue"@ + rest).take(3) =~= "yue"@);
    let e = "en"@ + rest;
    assert(e[0] == 'e' && e.len() >= 2);
    assert(e.take(2)[0] == 'e' && "zh"@[0] == 'z');
    if e.len() >= 3 {
        assert(e.take(3)[0] == 'e' && "cmn"@[0] == 'c' && "yue"@[0] == 'y');
    }
}

} // verus!
