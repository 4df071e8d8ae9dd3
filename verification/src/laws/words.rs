//! What reading and writing text comes to.

use vstd::prelude::*;

use crate::text;

verus! {

// ---------------------------------------------------------------------
// What the laws speak of
// ---------------------------------------------------------------------

/// Whether a text has no white space.
pub open spec fn solid(s: Seq<char>) -> bool {
    forall|i: int| 0 <= i < s.len() ==> !text::is_white(#[trigger] s[i])
}

/// Whether a text has nothing but white space.
pub open spec fn blank(s: Seq<char>) -> bool {
    forall|i: int| 0 <= i < s.len() ==> text::is_white(#[trigger] s[i])
}

/// Whether a text has no character of this kind.
pub open spec fn free_of(s: Seq<char>, c: char) -> bool {
    forall|i: int| 0 <= i < s.len() ==> #[trigger] s[i] != c
}

// ---------------------------------------------------------------------
// White space
// ---------------------------------------------------------------------

/// The blank, the tab and the ends of lines are white space; whatever else of
/// ASCII can be printed is not.
pub proof fn law_white_space(c: char)
    ensures
        c == ' ' || c == '\t' || c == '\n' || c == '\r' ==> text::is_white(c),
        '!' <= c <= '~' ==> !text::is_white(c),
{
}

/// Trimming takes the white space off both ends, and nothing else.
pub proof fn law_trimming_takes_the_ends(a: Seq<char>, s: Seq<char>, b: Seq<char>)
    requires
        blank(a),
        blank(b),
        s.len() == 0 || (!text::is_white(s[0]) && !text::is_white(s.last())),
    ensures
        text::trim(a + s + b) == s,
{
    let t = a + s + b;
    if s.len() == 0 {
        assert forall|i: int| 0 <= i < t.len() implies !text::not_white()(#[trigger] t[i]) by {
            if i < a.len() {
                assert(t[i] == a[i]);
            } else {
                assert(t[i] == b[i - a.len()]);
            }
        }
        text::lemma_scan_is(t, text::not_white(), t.len() as int);
        assert(text::trim_start(t) =~= Seq::<char>::empty());
    } else {
        assert forall|i: int| 0 <= i < a.len() implies !text::not_white()(#[trigger] t[i]) by {
            assert(t[i] == a[i]);
        }
        assert(t[a.len() as int] == s[0]);
        text::lemma_scan_is(t, text::not_white(), a.len() as int);
        assert(text::trim_start(t) =~= s + b);
        lemma_trim_end(s, b);
    }
}

proof fn lemma_trim_end(s: Seq<char>, b: Seq<char>)
    requires
        blank(b),
        s.len() > 0,
        !text::is_white(s.last()),
    ensures
        text::trim_end(s + b) == s,
    decreases b.len(),
{
    if b.len() == 0 {
        assert(s + b =~= s);
    } else {
        let front = b.drop_last();
        assert(text::is_white(b[b.len() - 1]));
        assert((s + b).last() == b.last());
        assert((s + b).drop_last() =~= s + front);
        assert forall|i: int| 0 <= i < front.len() implies text::is_white(#[trigger] front[i]) by {
            assert(front[i] == b[i]);
        }
        lemma_trim_end(s, front);
    }
}

/// A text falls into its words: a word that white space follows is one of
/// them, before those of the rest; white space at the start counts for
/// nothing; a text that is one word is that word; and an empty text has none.
pub proof fn law_words_are_parted_by_white_space(w: Seq<char>, c: char, s: Seq<char>)
    requires
        solid(w),
        text::is_white(c),
    ensures
        w.len() > 0 ==> text::words(w + seq![c] + s) == seq![w] + text::words(s),
        text::words(seq![c] + s) == text::words(s),
        w.len() > 0 ==> text::words(w) == seq![w],
        text::words(Seq::empty()) == Seq::<Seq<char>>::empty(),
{
    let none = Seq::<char>::empty();
    text::lemma_scan_is(none, text::not_white(), 0);
    assert(text::trim_start(none) =~= none);
    assert(text::words(none) =~= Seq::<Seq<char>>::empty());
    // White space at the start.
    let u = seq![c] + s;
    assert(text::trim_start(u) == text::trim_start(s)) by {
        text::lemma_scan(s, text::not_white());
        let n = text::scan(s, text::not_white());
        assert(u[0] == c);
        assert forall|i: int| 0 <= i < n + 1 implies !text::not_white()(#[trigger] u[i]) by {
            if i > 0 {
                assert(u[i] == s[i - 1]);
            }
        }
        if n < s.len() {
            assert(u[n + 1] == s[n]);
        }
        text::lemma_scan_is(u, text::not_white(), n + 1);
        assert(u.skip(n + 1) =~= s.skip(n));
    }
    text::lemma_words_trim(u);
    text::lemma_words_trim(s);
    if w.len() > 0 {
        // One word alone.
        assert(!text::is_white(w[0]));
        text::lemma_scan_is(w, text::not_white(), 0);
        assert(text::trim_start(w) =~= w);
        assert forall|i: int| 0 <= i < w.len() implies !text::some_white()(#[trigger] w[i]) by {}
        text::lemma_scan_is(w, text::some_white(), w.len() as int);
        assert(w.take(w.len() as int) =~= w);
        assert(w.skip(w.len() as int) =~= none);
        assert(text::words(w) =~= seq![w]);
        // A word and more.
        let t = w + seq![c] + s;
        assert(t[0] == w[0]);
        text::lemma_scan_is(t, text::not_white(), 0);
        assert(text::trim_start(t) =~= t);
        assert forall|i: int| 0 <= i < w.len() implies !text::some_white()(#[trigger] t[i]) by {
            assert(t[i] == w[i]);
        }
        assert(t[w.len() as int] == c);
        text::lemma_scan_is(t, text::some_white(), w.len() as int);
        assert(t.take(w.len() as int) =~= w);
        assert(t.skip(w.len() as int) =~= u);
    }
}

// ---------------------------------------------------------------------
// Lines and pieces
// ---------------------------------------------------------------------

/// A line ends at a line feed; one carriage return before it belongs to the
/// end. What follows the last line feed is a line if it is not empty.
pub proof fn law_lines_end_at_line_feeds(a: Seq<char>, b: Seq<char>)
    requires
        free_of(a, '\n'),
    ensures
        a.len() == 0 || a.last() != '\r' ==> text::lines(a + seq!['\n'] + b) == seq![a]
            + text::lines(b),
        text::lines(a + seq!['\r', '\n'] + b) == seq![a] + text::lines(b),
        a.len() > 0 ==> text::lines(a) == seq![a],
        text::lines(Seq::empty()) == Seq::<Seq<char>>::empty(),
{
    let t = a + seq!['\n'] + b;
    let n = a.len() as int;
    assert forall|i: int| 0 <= i < n implies !text::is_char('\n')(#[trigger] t[i]) by {
        assert(t[i] == a[i]);
    }
    assert(t[n] == '\n');
    text::lemma_scan_is(t, text::is_char('\n'), n);
    assert(t.take(n) =~= a);
    assert(t.skip(n + 1) =~= b);
    let u = a + seq!['\r', '\n'] + b;
    assert forall|i: int| 0 <= i < n + 1 implies !text::is_char('\n')(#[trigger] u[i]) by {
        if i < n {
            assert(u[i] == a[i]);
        } else {
            assert(u[i] == '\r');
        }
    }
    assert(u[n + 1] == '\n');
    text::lemma_scan_is(u, text::is_char('\n'), n + 1);
    assert(u.take(n + 1) =~= a.push('\r'));
    assert(a.push('\r').drop_last() =~= a);
    assert(u.skip(n + 2) =~= b);
    if a.len() > 0 {
        assert forall|i: int| 0 <= i < n implies !text::is_char('\n')(#[trigger] a[i]) by {}
        text::lemma_scan_is(a, text::is_char('\n'), n);
    }
}

/// A text that is cut at separators gives what stands before the first one,
/// and then the pieces of the rest; a text without one gives itself.
pub proof fn law_pieces_end_at_separators(
    a: Seq<char>,
    c: char,
    b: Seq<char>,
    sep: spec_fn(char) -> bool,
)
    requires
        forall|i: int| 0 <= i < a.len() ==> !sep(#[trigger] a[i]),
        sep(c),
    ensures
        text::pieces(a + seq![c] + b, sep) == seq![a] + text::pieces(b, sep),
        text::pieces(a, sep) == seq![a],
{
    let t = a + seq![c] + b;
    let n = a.len() as int;
    assert forall|i: int| 0 <= i < n implies !sep(#[trigger] t[i]) by {
        assert(t[i] == a[i]);
    }
    assert(t[n] == c);
    text::lemma_scan_is(t, sep, n);
    assert(t.take(n) =~= a);
    assert(t.skip(n + 1) =~= b);
    text::lemma_scan_is(a, sep, n);
}

/// The first and the last place of a character.
pub proof fn law_where_a_character_stands(a: Seq<char>, c: char, b: Seq<char>)
    ensures
        free_of(a, c) ==> text::find(a + seq![c] + b, c) == a.len(),
        free_of(b, c) ==> text::rfind(a + seq![c] + b, c) == a.len(),
        free_of(a, c) <==> text::find(a, c) == a.len(),
        free_of(a, c) <==> text::rfind(a, c) == -1,
{
    let t = a + seq![c] + b;
    let n = a.len() as int;
    assert(t[n] == c);
    if free_of(a, c) {
        assert forall|i: int| 0 <= i < n implies !text::is_char(c)(#[trigger] t[i]) by {
            assert(t[i] == a[i]);
        }
        text::lemma_scan_is(t, text::is_char(c), n);
    }
    if free_of(b, c) {
        assert forall|i: int| n < i < t.len() implies #[trigger] t[i] != c by {
            assert(t[i] == b[i - n - 1]);
        }
        text::lemma_rfind_is(t, c, n);
    }
    text::lemma_scan(a, text::is_char(c));
    text::lemma_rfind(a, c);
    if text::find(a, c) == a.len() {
        assert forall|i: int| 0 <= i < a.len() implies #[trigger] a[i] != c by {
            assert(!text::is_char(c)(a[i]));
        }
    }
    if text::find(a, c) < a.len() {
        assert(a[text::find(a, c)] == c);
    }
}

/// A text stands in another just when the other is made of something, it, and
/// something more.
pub proof fn law_what_stands_in_a_text(a: Seq<char>, p: Seq<char>, b: Seq<char>, s: Seq<char>)
    ensures
        text::occurs(a + p + b, p),
        text::starts_with(p + b, p),
        text::ends_with(a + p, p),
        text::occurs(s, p) ==> exists|x: Seq<char>, y: Seq<char>| s == #[trigger] ((x + p) + y),
        text::starts_with(s, p) ==> exists|y: Seq<char>| s == #[trigger] (p + y),
        text::ends_with(s, p) ==> exists|x: Seq<char>| s == #[trigger] (x + p),
{
    let t = a + p + b;
    assert(t.skip(a.len() as int) =~= p + b);
    assert((p + b).take(p.len() as int) =~= p);
    assert(text::starts_with(t.skip(a.len() as int), p));
    assert((a + p).skip((a + p).len() - p.len()) =~= p);
    if text::occurs(s, p) {
        let i = choose|i: int|
            0 <= i <= s.len() && text::starts_with(#[trigger] s.skip(i), p);
        let x = s.take(i);
        let y = s.skip(i + p.len());
        assert(s.skip(i).take(p.len() as int) == p);
        assert forall|k: int| 0 <= k < p.len() implies #[trigger] p[k] == s[i + k] by {
            assert(s.skip(i).take(p.len() as int)[k] == s[i + k]);
        }
        assert(s =~= (x + p) + y);
    }
    if text::starts_with(s, p) {
        let y = s.skip(p.len() as int);
        assert forall|k: int| 0 <= k < p.len() implies #[trigger] p[k] == s[k] by {
            assert(s.take(p.len() as int)[k] == s[k]);
        }
        assert(s =~= p + y);
    }
    if text::ends_with(s, p) {
        let n = s.len() - p.len();
        let x = s.take(n);
        assert forall|k: int| 0 <= k < p.len() implies #[trigger] p[k] == s[n + k] by {
            assert(s.skip(n)[k] == s[n + k]);
        }
        assert(s =~= x + p);
    }
}

// ---------------------------------------------------------------------
// Numbers
// ---------------------------------------------------------------------

/// A number in decimal notation is read as that number, up to the limit, with
/// or without a plus sign; with a sign of the other kind it is read as its
/// opposite.
pub proof fn law_numbers_are_read_as_written(n: nat, max: nat, low: nat)
    ensures
        text::unsigned(text::decimal(n), max) == if n <= max {
            Some(n)
        } else {
            None
        },
        text::unsigned(seq!['+'] + text::decimal(n), max) == if n <= max {
            Some(n)
        } else {
            None
        },
        text::signed(text::decimal(n), low, max) == if n <= max {
            Some(n as int)
        } else {
            None
        },
        text::signed(seq!['-'] + text::decimal(n), low, max) == if n <= low {
            Some(-(n as int))
        } else {
            None
        },
{
    let d = text::decimal(n);
    text::lemma_decimal(n);
    assert(text::is_digit(d[0]));
    assert((seq!['+'] + d).skip(1) =~= d);
    assert((seq!['-'] + d).skip(1) =~= d);
    assert((seq!['+'] + d)[0] == '+');
    assert((seq!['-'] + d)[0] == '-');
}

/// The notation of a number is that of its tenth, and then its last digit;
/// there is no zero at the start of a number above nine.
pub proof fn law_decimal_notation(n: nat, d: nat)
    requires
        d < 10,
    ensures
        text::decimal(d) == seq![(48 + d) as char],
        n > 0 ==> text::decimal(10 * n + d) == text::decimal(n).push((48 + d) as char),
{
    if n > 0 {
        assert((10 * n + d) / 10 == n);
        assert((10 * n + d) % 10 == d);
    }
}

/// A text with a character that is no digit is no number, but for one sign at
/// its start; nor is an empty text or a sign alone.
pub proof fn law_only_digits_are_numbers(s: Seq<char>, i: int, max: nat, low: nat)
    requires
        0 <= i < s.len(),
        s[i] < '0' || s[i] > '9',
        i > 0 || (s[i] != '+' && s[i] != '-') || s.len() == 1,
    ensures
        text::unsigned(s, max) is None,
        text::signed(s, low, max) is None,
        text::unsigned(Seq::empty(), max) is None,
        text::signed(Seq::empty(), low, max) is None,
{
    assert(!text::is_digit(s[i]));
    if i > 0 {
        assert(s.skip(1)[i - 1] == s[i]);
        assert(!text::all_digits(s.skip(1)));
    }
    assert(!text::all_digits(s));
    if s[0] == '+' {
        if i == 0 {
            assert(s.skip(1).len() == 0);
        }
    }
}

/// A further digit makes ten times the number and the digit.
pub proof fn law_digits_count_by_tens(s: Seq<char>, c: char)
    requires
        '0' <= c <= '9',
    ensures
        text::digits_value(s.push(c)) == 10 * text::digits_value(s) + (c as int - 48),
{
    assert(s.push(c).drop_last() =~= s);
}

/// Texts that are joined stand one after the other, with the separator
/// between them.
pub proof fn law_joined_texts(parts: Seq<Seq<char>>, sep: Seq<char>, last: Seq<char>)
    ensures
        text::join(Seq::empty(), sep) == Seq::<char>::empty(),
        text::join(seq![last], sep) == last,
        parts.len() > 0 ==> text::join(parts.push(last), sep) == text::join(parts, sep) + sep
            + last,
{
    text::lemma_join_push(parts, sep, last);
    assert(seq![last] =~= Seq::<Seq<char>>::empty().push(last));
}

/// A column is as wide as it is asked to be, or as its text where that is
/// wider; what is not the text is blank, before it or behind it.
pub proof fn law_columns_are_filled_with_blanks(s: Seq<char>, width: int, i: int)
    requires
        0 <= i < width - s.len(),
    ensures
        text::right_aligned(s, width).len() == width,
        text::right_aligned(s, width)[i] == ' ',
        text::right_aligned(s, width).skip(width - s.len()) == s,
        text::left_aligned(s, width).len() == width,
        text::left_aligned(s, width).take(s.len() as int) == s,
        text::left_aligned(s, width)[s.len() + i] == ' ',
        text::right_aligned(s, s.len() - i) == s,
        text::left_aligned(s, s.len() - i) == s,
{
    assert(text::right_aligned(s, width).skip(width - s.len()) =~= s);
    assert(text::left_aligned(s, width).take(s.len() as int) =~= s);
    assert(text::right_aligned(s, s.len() - i) =~= s);
    assert(text::left_aligned(s, s.len() - i) =~= s);
}

} // verus!
