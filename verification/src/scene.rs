//! Scenes: presets of the engine settings that are written into the
//! configuration file between two marker lines.

use vstd::prelude::*;

use crate::text;

verus! {

/// Begins the first line of a scene.
pub const SCENE_MARKER_START: &'static str = "// <<scene:";

/// Begins the last line of a scene.
pub const SCENE_MARKER_END: &'static str = "// <<scene: end>>";

/// The two settings of a scene.
pub open spec fn scene_settings(name: Seq<char>) -> Option<(Seq<char>, Seq<char>)> {
    if name == "game"@ {
        Some(("    lock-interval 60"@, "    migrate-action \"force\""@))
    } else if name == "video"@ {
        Some(("    lock-interval 30"@, "    migrate-action \"observe\""@))
    } else if name == "power-save"@ {
        Some(("    lock-interval 300"@, "    pressure-sensitive \"true\""@))
    } else if name == "balanced"@ || name == "default"@ {
        Some(("    lock-interval 60"@, "    migrate-action \"observe\""@))
    } else {
        None
    }
}

/// The lines of a scene.
pub open spec fn scene_lines(name: Seq<char>) -> Option<Seq<Seq<char>>> {
    match scene_settings(name) {
        Some((a, b)) => Some(
            seq![
                SCENE_MARKER_START@ + " "@ + name + ">>"@,
                "engine {"@,
                a,
                b,
                "}"@,
                SCENE_MARKER_END@,
            ],
        ),
        None => None,
    }
}

/// Lines as a text: each is followed by a line feed.
pub open spec fn unlines(ls: Seq<Seq<char>>) -> Seq<char>
    decreases ls.len(),
{
    if ls.len() == 0 {
        Seq::empty()
    } else {
        ls[0] + seq!['\n'] + unlines(ls.skip(1))
    }
}

/// The text of a scene, if there is one of that name.
pub fn scene_kdl(name: &str) -> (r: Option<String>)
    ensures
        text::opt_text(r) == match scene_lines(name@) {
            Some(ls) => Some(unlines(ls)),
            None => None,
        },
{
    let (a, b): (&str, &str) = if text::same_text(name, "game") {
        ("    lock-interval 60", "    migrate-action \"force\"")
    } else if text::same_text(name, "video") {
        ("    lock-interval 30", "    migrate-action \"observe\"")
    } else if text::same_text(name, "power-save") {
        ("    lock-interval 300", "    pressure-sensitive \"true\"")
    } else if text::same_text(name, "balanced") || text::same_text(name, "default") {
        ("    lock-interval 60", "    migrate-action \"observe\"")
    } else {
        return None;
    };
    let mut out = SCENE_MARKER_START.to_owned();
    out.append(" ");
    out.append(name);
    out.append(">>");
    out.push('\n');
    out.append("engine {");
    out.push('\n');
    out.append(a);
    out.push('\n');
    out.append(b);
    out.push('\n');
    out.append("}");
    out.push('\n');
    out.append(SCENE_MARKER_END);
    out.push('\n');
    proof {
        let l0 = SCENE_MARKER_START@ + " "@ + name@ + ">>"@;
        let l1 = "engine {"@;
        let l4 = "}"@;
        let l5 = SCENE_MARKER_END@;
        let ls = seq![l0, l1, a@, b@, l4, l5];
        assert(scene_lines(name@) == Some(ls));
        reveal_with_fuel(unlines, 7);
        assert(ls.skip(1) =~= seq![l1, a@, b@, l4, l5]);
        assert(ls.skip(1).skip(1) =~= seq![a@, b@, l4, l5]);
        assert(ls.skip(1).skip(1).skip(1) =~= seq![b@, l4, l5]);
        assert(ls.skip(1).skip(1).skip(1).skip(1) =~= seq![l4, l5]);
        assert(ls.skip(1).skip(1).skip(1).skip(1).skip(1) =~= seq![l5]);
        assert(ls.skip(1).skip(1).skip(1).skip(1).skip(1).skip(1) =~= Seq::<Seq<char>>::empty());
        assert(out@ =~= unlines(ls));
    }
    Some(out)
}

/// Whether there is a scene of that name.
pub fn is_valid_scene(name: &str) -> (r: bool)
    ensures
        r == scene_settings(name@) is Some,
{
    scene_kdl(name).is_some()
}

/// Whether a line begins with a marker, white space aside.
pub open spec fn is_marked(line: Seq<char>, marker: Seq<char>) -> bool {
    text::starts_with(text::trim_start(line), marker)
}

/// The lines outside scenes. A scene begins with a line that bears the first
/// marker and ends with a line that bears the last one.
pub open spec fn outside(ls: Seq<Seq<char>>, inside: bool) -> Seq<Seq<char>>
    decreases ls.len(),
{
    if ls.len() == 0 {
        Seq::empty()
    } else if is_marked(ls[0], SCENE_MARKER_END@) {
        outside(ls.skip(1), false)
    } else if is_marked(ls[0], SCENE_MARKER_START@) {
        outside(ls.skip(1), true)
    } else if inside {
        outside(ls.skip(1), true)
    } else {
        seq![ls[0]] + outside(ls.skip(1), false)
    }
}

/// The message on an unknown scene.
pub open spec fn unknown_scene(name: Seq<char>) -> Seq<char> {
    "未知场景: "@ + name + "（可选: game/video/power-save/balanced/default）"@
}

/// A configuration with a scene: its lines outside scenes, and the scene
/// after them.
pub open spec fn with_scene(content: Seq<char>, name: Seq<char>) -> Option<Seq<char>> {
    match scene_lines(name) {
        Some(ls) => Some(unlines(outside(text::lines(content), false)) + unlines(ls)),
        None => None,
    }
}

/// Replaces the scene of a configuration, or appends one. Returns the new
/// text of the configuration file.
pub fn apply_scene_to_config(content: &str, name: &str) -> (r: Result<String, String>)
    ensures
        match r {
            Ok(t) => with_scene(content@, name@) == Some(t@),
            Err(m) => with_scene(content@, name@) is None && m@ == unknown_scene(name@),
        },
{
    let block = match scene_kdl(name) {
        Some(b) => b,
        None => {
            let mut m = "未知场景: ".to_owned();
            m.append(name);
            m.append("（可选: game/video/power-save/balanced/default）");
            return Err(m);
        },
    };
    let chars = text::chars_of(content);
    let ls = text::lines_of(chars.as_slice());
    let ghost all = text::lines(content@);
    let mut out = String::new();
    let mut inside = false;
    let ghost mut kept: Seq<Seq<char>> = Seq::empty();
    let mut i: usize = 0;
    proof {
        assert(all.skip(0) =~= all);
        assert(kept + outside(all, false) =~= outside(all, false));
        assert(out@ =~= unlines(kept));
    }
    while i < ls.len()
        invariant
            0 <= i <= ls@.len(),
            text::texts(ls@) == all,
            out@ == unlines(kept),
            kept + outside(all.skip(i as int), inside) == outside(all, false),
        decreases ls@.len() - i,
    {
        let line = ls[i];
        let ghost rest = all.skip(i as int);
        proof {
            assert(rest[0] == line@);
            assert(rest.skip(1) =~= all.skip(i + 1));
        }
        let bare = text::trim_start_of(line);
        if text::begins(bare, SCENE_MARKER_END) {
            inside = false;
        } else if text::begins(bare, SCENE_MARKER_START) {
            inside = true;
        } else if !inside {
            let s = text::string_of(line);
            out.append(s.as_str());
            out.push('\n');
            proof {
                lemma_unlines_push(kept, line@);
                assert(out@ =~= unlines(kept.push(line@)));
                assert(kept.push(line@) + outside(all.skip(i + 1), false) =~= kept + outside(
                    rest,
                    false,
                ));
                kept = kept.push(line@);
            }
        }
        i += 1;
    }
    proof {
        assert(outside(all.skip(i as int), inside) =~= Seq::<Seq<char>>::empty());
        assert(kept =~= outside(all, false));
    }
    out.append(block.as_str());
    Ok(out)
}

proof fn lemma_unlines_push(ls: Seq<Seq<char>>, l: Seq<char>)
    ensures
        unlines(ls.push(l)) == unlines(ls) + l + seq!['\n'],
    decreases ls.len(),
{
    let longer = ls.push(l);
    if ls.len() == 0 {
        assert(longer.skip(1) =~= ls);
        assert(longer[0] == l);
        assert(unlines(longer) == l + seq!['\n'] + unlines(ls));
        assert(unlines(longer) =~= unlines(ls) + l + seq!['\n']);
    } else {
        lemma_unlines_push(ls.skip(1), l);
        assert(longer.skip(1) =~= ls.skip(1).push(l));
        assert(unlines(longer) =~= unlines(ls) + l + seq!['\n']);
    }
}

// ---------------------------------------------------------------------
// Laws
// ---------------------------------------------------------------------

/// Whether lines survive being written and read: none holds a line feed or
/// ends in a carriage return.
pub open spec fn plain_lines(ls: Seq<Seq<char>>) -> bool {
    forall|i: int| 0 <= i < ls.len() ==> plain_line(#[trigger] ls[i])
}

/// Whether a line holds no line feed and does not end in a carriage return.
pub open spec fn plain_line(l: Seq<char>) -> bool {
    &&& forall|j: int| 0 <= j < l.len() ==> #[trigger] l[j] != '\n'
    &&& l.len() > 0 ==> l.last() != '\r'
}

/// Whether no line ends in a carriage return.
pub open spec fn no_trailing_cr(ls: Seq<Seq<char>>) -> bool {
    forall|i: int| 0 <= i < ls.len() && (#[trigger] ls[i]).len() > 0 ==> ls[i].last() != '\r'
}

/// Whether no line holds a line feed.
spec fn no_line_feed(ls: Seq<Seq<char>>) -> bool {
    forall|i: int, j: int|
        0 <= i < ls.len() && 0 <= j < ls[i].len() ==> #[trigger] ls[i][j] != '\n'
}

proof fn lemma_lines_split(s: Seq<char>)
    ensures
        no_line_feed(text::lines(s)),
    decreases s.len(),
{
    text::lemma_scan(s, text::is_char('\n'));
    let n = text::find(s, '\n');
    let all = text::lines(s);
    if s.len() > 0 {
        if n >= s.len() {
            assert forall|i: int, j: int| 0 <= i < all.len() && 0 <= j < all[i].len() implies
                #[trigger] all[i][j] != '\n' by {
                assert(!text::is_char('\n')(s[j]));
            }
        } else {
            lemma_lines_split(s.skip(n + 1));
            let rest = text::lines(s.skip(n + 1));
            assert forall|i: int, j: int| 0 <= i < all.len() && 0 <= j < all[i].len() implies
                #[trigger] all[i][j] != '\n' by {
                if i == 0 {
                    assert(all[0][j] == s[j]);
                    assert(!text::is_char('\n')(s[j]));
                } else {
                    assert(all[i] == rest[i - 1]);
                    assert(rest[i - 1][j] != '\n');
                }
            }
        }
    }
}

proof fn lemma_outside_keeps(ls: Seq<Seq<char>>, inside: bool)
    requires
        no_line_feed(ls),
    ensures
        no_line_feed(outside(ls, inside)),
    decreases ls.len(),
{
    if ls.len() > 0 {
        let tail = ls.skip(1);
        assert forall|i: int, j: int| 0 <= i < tail.len() && 0 <= j < tail[i].len() implies
            #[trigger] tail[i][j] != '\n' by {
            assert(ls[i + 1][j] != '\n');
        }
        lemma_outside_keeps(tail, false);
        lemma_outside_keeps(tail, true);
        let kept = outside(ls, inside);
        let rest = outside(tail, false);
        assert forall|i: int, j: int| 0 <= i < kept.len() && 0 <= j < kept[i].len() implies
            #[trigger] kept[i][j] != '\n' by {
            if !is_marked(ls[0], SCENE_MARKER_END@) && !is_marked(ls[0], SCENE_MARKER_START@)
                && !inside {
                if i == 0 {
                    assert(ls[0][j] != '\n');
                } else {
                    assert(kept[i] == rest[i - 1]);
                    assert(rest[i - 1][j] != '\n');
                }
            }
        }
    }
}

proof fn lemma_kept_lines(content: Seq<char>)
    requires
        no_trailing_cr(outside(text::lines(content), false)),
    ensures
        plain_lines(outside(text::lines(content), false)),
{
    lemma_lines_split(content);
    lemma_outside_keeps(text::lines(content), false);
    let kept = outside(text::lines(content), false);
    assert forall|i: int| 0 <= i < kept.len() implies plain_line(#[trigger] kept[i]) by {
        assert forall|j: int| 0 <= j < kept[i].len() implies #[trigger] kept[i][j] != '\n' by {}
    }
}

proof fn lemma_lines_of_unlines(ls: Seq<Seq<char>>, rest: Seq<char>)
    requires
        plain_lines(ls),
    ensures
        text::lines(unlines(ls) + rest) == ls + text::lines(rest),
    decreases ls.len(),
{
    if ls.len() == 0 {
        assert(unlines(ls) + rest =~= rest);
        assert(ls + text::lines(rest) =~= text::lines(rest));
    } else {
        let l = ls[0];
        let tail = ls.skip(1);
        assert(plain_lines(tail)) by {
            assert forall|i: int| 0 <= i < tail.len() implies plain_line(#[trigger] tail[i]) by {
                assert(plain_line(ls[i + 1]));
            }
        }
        lemma_lines_of_unlines(tail, rest);
        let s = unlines(ls) + rest;
        let n = l.len() as int;
        assert(plain_line(ls[0]));
        assert forall|i: int| 0 <= i < n implies !text::is_char('\n')(#[trigger] s[i]) by {
            assert(s[i] == l[i]);
        }
        assert(s[n] == '\n');
        text::lemma_scan_is(s, text::is_char('\n'), n);
        assert(s.take(n) =~= l);
        assert(s.skip(n + 1) =~= unlines(tail) + rest);
        assert(text::lines(s) =~= seq![l] + text::lines(unlines(tail) + rest));
        assert(text::lines(s) =~= ls + text::lines(rest));
    }
}

/// Lines that were kept are kept again, and none of them bears a marker.
proof fn lemma_outside_again(ls: Seq<Seq<char>>, inside: bool, more: Seq<Seq<char>>)
    ensures
        outside(outside(ls, inside) + more, false) == outside(ls, inside) + outside(more, false),
    decreases ls.len(),
{
    let kept = outside(ls, inside);
    if ls.len() == 0 {
        assert(kept + more =~= more);
        assert(kept + outside(more, false) =~= outside(more, false));
    } else if is_marked(ls[0], SCENE_MARKER_END@) {
        lemma_outside_again(ls.skip(1), false, more);
    } else if is_marked(ls[0], SCENE_MARKER_START@) || inside {
        lemma_outside_again(ls.skip(1), true, more);
    } else {
        lemma_outside_again(ls.skip(1), false, more);
        let tail = outside(ls.skip(1), false);
        assert(kept =~= seq![ls[0]] + tail);
        assert((kept + more).skip(1) =~= tail + more);
        assert((kept + more)[0] == ls[0]);
        assert(outside(kept + more, false) =~= seq![ls[0]] + outside(tail + more, false));
        assert(outside(kept + more, false) =~= kept + outside(more, false));
    }
}

proof fn lemma_first_line(name: Seq<char>)
    requires
        scene_settings(name) is Some,
    ensures
        ({
            let l = SCENE_MARKER_START@ + " "@ + name + ">>"@;
            &&& plain_line(l)
            &&& is_marked(l, SCENE_MARKER_START@)
            &&& !is_marked(l, SCENE_MARKER_END@)
        }),
{
    let l = SCENE_MARKER_START@ + " "@ + name + ">>"@;
    reveal_strlit("// <<scene:");
    reveal_strlit("// <<scene: end>>");
    reveal_strlit(" ");
    reveal_strlit(">>");
    reveal_strlit("game");
    reveal_strlit("video");
    reveal_strlit("power-save");
    reveal_strlit("balanced");
    reveal_strlit("default");
    assert(forall|j: int| 0 <= j < name.len() ==> #[trigger] name[j] != '\n');
    assert(name.len() > 0 && name[0] != 'e');
    let n = SCENE_MARKER_START@.len() as int;
    assert(n == 11);
    assert forall|j: int| 0 <= j < l.len() implies #[trigger] l[j] != '\n' by {
        if j < n {
            assert(l[j] == SCENE_MARKER_START@[j]);
        } else if j == n {
            assert(l[j] == ' ');
        } else if j < n + 1 + name.len() {
            assert(l[j] == name[j - n - 1]);
        } else {
            assert(l[j] == ">>"@[j - n - 1 - name.len()]);
        }
    }
    assert(l.last() == '>');
    assert(l[0] == '/');
    text::lemma_scan_is(l, text::not_white(), 0);
    assert(text::trim_start(l) =~= l);
    assert(l.take(n) =~= SCENE_MARKER_START@);
    assert(l[12] == name[0]);
    assert(SCENE_MARKER_END@[12] == 'e');
    if text::starts_with(l, SCENE_MARKER_END@) {
        assert(l.take(SCENE_MARKER_END@.len() as int)[12] == l[12]);
    }
}

proof fn lemma_inner_lines(name: Seq<char>)
    requires
        scene_settings(name) is Some,
    ensures
        ({
            let (a, b) = scene_settings(name)->0;
            &&& plain_line(a) && !is_marked(a, SCENE_MARKER_END@)
            &&& plain_line(b) && !is_marked(b, SCENE_MARKER_END@)
        }),
{
    reveal_strlit("// <<scene: end>>");
    reveal_strlit("    lock-interval 60");
    reveal_strlit("    lock-interval 30");
    reveal_strlit("    lock-interval 300");
    reveal_strlit("    migrate-action \"force\"");
    reveal_strlit("    migrate-action \"observe\"");
    reveal_strlit("    pressure-sensitive \"true\"");
    let (a, b) = scene_settings(name)->0;
    assert(a[4] == 'l');
    assert(b[4] == 'm' || b[4] == 'p');
    lemma_indented(a);
    lemma_indented(b);
}

/// A line that begins with four blanks and a letter bears no marker.
proof fn lemma_indented(l: Seq<char>)
    requires
        l.len() > 4,
        l[0] == ' ' && l[1] == ' ' && l[2] == ' ' && l[3] == ' ',
        l[4] == 'l' || l[4] == 'm' || l[4] == 'p',
    ensures
        !is_marked(l, SCENE_MARKER_END@),
{
    reveal_strlit("// <<scene: end>>");
    text::lemma_scan_is(l, text::not_white(), 4);
    let t = text::trim_start(l);
    assert(t[0] == l[4]);
    if text::starts_with(t, SCENE_MARKER_END@) {
        assert(t.take(SCENE_MARKER_END@.len() as int)[0] == t[0]);
    }
}

proof fn lemma_other_lines()
    ensures
        plain_line("engine {"@),
        !is_marked("engine {"@, SCENE_MARKER_END@),
        plain_line("}"@),
        !is_marked("}"@, SCENE_MARKER_END@),
        plain_line(SCENE_MARKER_END@),
        is_marked(SCENE_MARKER_END@, SCENE_MARKER_END@),
{
    reveal_strlit("engine {");
    reveal_strlit("}");
    reveal_strlit("// <<scene: end>>");
    let e = SCENE_MARKER_END@;
    text::lemma_scan_is("engine {"@, text::not_white(), 0);
    text::lemma_scan_is("}"@, text::not_white(), 0);
    text::lemma_scan_is(e, text::not_white(), 0);
    assert(text::trim_start("engine {"@) =~= "engine {"@);
    assert(text::trim_start("}"@) =~= "}"@);
    assert(text::trim_start(e) =~= e);
    assert(e.take(e.len() as int) =~= e);
}

/// The lines of a scene are plain, and none of them is outside.
proof fn lemma_scene_lines(name: Seq<char>)
    requires
        scene_settings(name) is Some,
    ensures
        ({
            let ls = scene_lines(name)->0;
            &&& plain_lines(ls)
            &&& outside(ls, false) == Seq::<Seq<char>>::empty()
        }),
{
    let ls = scene_lines(name)->0;
    lemma_first_line(name);
    lemma_inner_lines(name);
    lemma_other_lines();
    assert(ls.len() == 6);
    assert forall|i: int| 0 <= i < ls.len() implies plain_line(#[trigger] ls[i]) by {
        assert(i == 0 || i == 1 || i == 2 || i == 3 || i == 4 || i == 5);
    }
    let t1 = ls.skip(1);
    let t2 = t1.skip(1);
    let t3 = t2.skip(1);
    let t4 = t3.skip(1);
    let t5 = t4.skip(1);
    let t6 = t5.skip(1);
    assert(t6 =~= Seq::<Seq<char>>::empty());
    assert(outside(t6, false) =~= Seq::<Seq<char>>::empty());
    assert(t5[0] == ls[5]);
    assert(outside(t5, true) =~= Seq::<Seq<char>>::empty());
    assert(t4[0] == ls[4]);
    assert(outside(t4, true) == outside(t5, true));
    assert(t3[0] == ls[3]);
    assert(outside(t3, true) == outside(t4, true));
    assert(t2[0] == ls[2]);
    assert(outside(t2, true) == outside(t3, true));
    assert(t1[0] == ls[1]);
    assert(outside(t1, true) == outside(t2, true));
    assert(outside(ls, false) == outside(t1, true));
}

/// The last scene counts: applying one scene and then another gives what
/// applying the second alone gives, and so applying a scene twice changes
/// nothing more. Lines that end in a carriage return of their own are left
/// out: writing them joins it to the line feed.
pub proof fn law_last_scene_counts(content: Seq<char>, first: Seq<char>, second: Seq<char>)
    requires
        scene_settings(first) is Some,
        scene_settings(second) is Some,
        no_trailing_cr(outside(text::lines(content), false)),
    ensures
        with_scene(with_scene(content, first)->0, second) == with_scene(content, second),
{
    let kept = outside(text::lines(content), false);
    lemma_kept_lines(content);
    let block = scene_lines(first)->0;
    let once = with_scene(content, first)->0;
    lemma_scene_lines(first);
    lemma_lines_of_unlines(kept, unlines(block));
    assert(unlines(block) + Seq::<char>::empty() =~= unlines(block));
    lemma_lines_of_unlines(block, Seq::empty());
    assert(text::lines(Seq::<char>::empty()) =~= Seq::<Seq<char>>::empty());
    assert(block + Seq::<Seq<char>>::empty() =~= block);
    assert(text::lines(once) == kept + block);
    lemma_outside_again(text::lines(content), false, block);
    assert(kept + outside(block, false) =~= kept);
}

/// The lines outside scenes stay as they are when a scene is applied.
pub proof fn law_other_lines_stay(content: Seq<char>, name: Seq<char>)
    requires
        scene_settings(name) is Some,
        no_trailing_cr(outside(text::lines(content), false)),
    ensures
        outside(text::lines(with_scene(content, name)->0), false) == outside(
            text::lines(content),
            false,
        ),
{
    let kept = outside(text::lines(content), false);
    lemma_kept_lines(content);
    let block = scene_lines(name)->0;
    lemma_scene_lines(name);
    lemma_lines_of_unlines(kept, unlines(block));
    assert(unlines(block) + Seq::<char>::empty() =~= unlines(block));
    lemma_lines_of_unlines(block, Seq::empty());
    assert(text::lines(Seq::<char>::empty()) =~= Seq::<Seq<char>>::empty());
    assert(block + Seq::<Seq<char>>::empty() =~= block);
    lemma_outside_again(text::lines(content), false, block);
    assert(kept + outside(block, false) =~= kept);
}

/// Whether a text consists of complete lines, without carriage returns.
pub open spec fn whole_lines(s: Seq<char>) -> bool {
    &&& s.len() > 0 ==> s.last() == '\n'
    &&& forall|i: int| 0 <= i < s.len() ==> #[trigger] s[i] != '\r'
}

/// Whether no line bears a marker of a scene.
pub open spec fn unmarked(ls: Seq<Seq<char>>) -> bool {
    forall|i: int|
        0 <= i < ls.len() ==> !is_marked(#[trigger] ls[i], SCENE_MARKER_START@) && !is_marked(
            ls[i],
            SCENE_MARKER_END@,
        )
}

/// Complete lines are the text of their lines.
proof fn lemma_whole_lines(s: Seq<char>)
    requires
        whole_lines(s),
    ensures
        unlines(text::lines(s)) == s,
        plain_lines(text::lines(s)),
    decreases s.len(),
{
    if s.len() == 0 {
        assert(text::lines(s) =~= Seq::<Seq<char>>::empty());
        assert(unlines(text::lines(s)) =~= s);
    } else {
        text::lemma_scan(s, text::is_char('\n'));
        let n = text::find(s, '\n');
        if n >= s.len() {
            assert(!text::is_char('\n')(s[s.len() - 1]));
        }
        assert(n < s.len());
        let line = s.take(n);
        let rest = s.skip(n + 1);
        assert(text::is_char('\n')(s[n]));
        assert forall|j: int| 0 <= j < line.len() implies #[trigger] line[j] != '\n' && line[j]
            != '\r' by {
            assert(!text::is_char('\n')(s[j]));
            assert(line[j] == s[j]);
        }
        assert(plain_line(line));
        assert(whole_lines(rest)) by {
            assert forall|j: int| 0 <= j < rest.len() implies #[trigger] rest[j] != '\r' by {
                assert(rest[j] == s[n + 1 + j]);
            }
        }
        lemma_whole_lines(rest);
        let tail = text::lines(rest);
        let all = text::lines(s);
        assert(all =~= seq![line] + tail);
        assert(all.skip(1) =~= tail);
        assert(unlines(all) =~= line + seq!['\n'] + rest);
        assert(s =~= line + seq!['\n'] + rest);
        assert forall|i: int| 0 <= i < all.len() implies plain_line(#[trigger] all[i]) by {
            if i > 0 {
                assert(all[i] == tail[i - 1]);
            }
        }
    }
}

proof fn lemma_unlines_concat(a: Seq<Seq<char>>, b: Seq<Seq<char>>)
    ensures
        unlines(a + b) == unlines(a) + unlines(b),
    decreases a.len(),
{
    if a.len() == 0 {
        assert(a + b =~= b);
        assert(unlines(a) + unlines(b) =~= unlines(b));
    } else {
        lemma_unlines_concat(a.skip(1), b);
        assert((a + b).skip(1) =~= a.skip(1) + b);
        assert(unlines(a + b) =~= unlines(a) + unlines(b));
    }
}

/// Lines without a marker are outside.
proof fn lemma_unmarked_stay(ls: Seq<Seq<char>>, more: Seq<Seq<char>>)
    requires
        unmarked(ls),
    ensures
        outside(ls + more, false) == ls + outside(more, false),
    decreases ls.len(),
{
    if ls.len() == 0 {
        assert(ls + more =~= more);
        assert(ls + outside(more, false) =~= outside(more, false));
    } else {
        let tail = ls.skip(1);
        assert(unmarked(tail)) by {
            assert forall|i: int| 0 <= i < tail.len() implies !is_marked(
                #[trigger] tail[i],
                SCENE_MARKER_START@,
            ) && !is_marked(tail[i], SCENE_MARKER_END@) by {
                assert(tail[i] == ls[i + 1]);
            }
        }
        lemma_unmarked_stay(tail, more);
        assert((ls + more)[0] == ls[0]);
        assert((ls + more).skip(1) =~= tail + more);
        assert(outside(ls + more, false) =~= ls + outside(more, false));
    }
}

/// A scene goes, and what follows it stays.
proof fn lemma_scene_goes(name: Seq<char>, more: Seq<Seq<char>>)
    requires
        scene_settings(name) is Some,
    ensures
        outside(scene_lines(name)->0 + more, false) == outside(more, false),
{
    let block = scene_lines(name)->0;
    let ls = block + more;
    lemma_first_line(name);
    lemma_inner_lines(name);
    lemma_other_lines();
    let t1 = ls.skip(1);
    let t2 = t1.skip(1);
    let t3 = t2.skip(1);
    let t4 = t3.skip(1);
    let t5 = t4.skip(1);
    assert(t5.skip(1) =~= more);
    assert(ls[0] == block[0]);
    assert(t5[0] == block[5]);
    assert(t4[0] == block[4]);
    assert(t3[0] == block[3]);
    assert(t2[0] == block[2]);
    assert(t1[0] == block[1]);
    assert(outside(t5, true) == outside(more, false));
    assert(outside(t4, true) == outside(t5, true));
    assert(outside(t3, true) == outside(t4, true));
    assert(outside(t2, true) == outside(t3, true));
    assert(outside(t1, true) == outside(t2, true));
    assert(outside(ls, false) == outside(t1, true));
}

/// Only the old scene goes: what stands before it and behind it stays as it
/// is, in its order, and the new scene comes after both.
pub proof fn law_only_the_scene_goes(
    before: Seq<char>,
    first: Seq<char>,
    behind: Seq<char>,
    second: Seq<char>,
)
    requires
        scene_settings(first) is Some,
        scene_settings(second) is Some,
        whole_lines(before),
        whole_lines(behind),
        unmarked(text::lines(before)),
        unmarked(text::lines(behind)),
    ensures
        with_scene(before + unlines(scene_lines(first)->0) + behind, second) == Some(
            before + behind + unlines(scene_lines(second)->0),
        ),
{
    let p = text::lines(before);
    let q = text::lines(behind);
    let block = scene_lines(first)->0;
    let content = before + unlines(block) + behind;
    lemma_whole_lines(before);
    lemma_whole_lines(behind);
    lemma_scene_lines(first);
    lemma_lines_of_unlines(block, behind);
    lemma_lines_of_unlines(p, unlines(block) + behind);
    assert(content =~= unlines(p) + (unlines(block) + behind));
    assert(text::lines(content) == p + (block + q));
    lemma_unmarked_stay(p, block + q);
    lemma_scene_goes(first, q);
    lemma_unmarked_stay(q, Seq::empty());
    assert(q + Seq::<Seq<char>>::empty() =~= q);
    assert(outside(text::lines(content), false) =~= p + q);
    lemma_unlines_concat(p, q);
}

} // verus!
