//! Text primitives over character sequences.
//!
//! Every function here works on slices of characters and is specified over
//! `Seq<char>`; the parsers of the other modules are built from them.

use vstd::prelude::*;
use vstd::slice::slice_subrange;

verus! {

/// `String::push`: appends one character.
pub assume_specification[ String::push ](s: &mut String, c: char)
    ensures
        final(s)@ == old(s)@.push(c),
;

// ---------------------------------------------------------------------
// Specifications
// ---------------------------------------------------------------------

/// Characters with the Unicode `White_Space` property.
pub open spec fn is_white(c: char) -> bool {
    let n = c as int;
    ||| 9 <= n <= 13
    ||| n == 32
    ||| n == 0x85
    ||| n == 0xA0
    ||| n == 0x1680
    ||| 0x2000 <= n <= 0x200A
    ||| n == 0x2028
    ||| n == 0x2029
    ||| n == 0x202F
    ||| n == 0x205F
    ||| n == 0x3000
}

/// Length of the longest prefix of `s` in which no character satisfies `stop`.
pub open spec fn scan(s: Seq<char>, stop: spec_fn(char) -> bool) -> int
    decreases s.len(),
{
    if s.len() == 0 || stop(s[0]) {
        0
    } else {
        1 + scan(s.skip(1), stop)
    }
}

/// The test for one character.
pub open spec fn is_char(c: char) -> spec_fn(char) -> bool {
    |x: char| x == c
}

/// The test for a character that is not white space.
pub open spec fn not_white() -> spec_fn(char) -> bool {
    |x: char| !is_white(x)
}

/// The test for white space.
pub open spec fn some_white() -> spec_fn(char) -> bool {
    |x: char| is_white(x)
}

/// Index of the first `c` in `s`, or `s.len()` when there is none.
pub open spec fn find(s: Seq<char>, c: char) -> int {
    scan(s, is_char(c))
}

/// Index of the last `c` in `s`, or `-1` when there is none.
pub open spec fn rfind(s: Seq<char>, c: char) -> int
    decreases s.len(),
{
    if s.len() == 0 {
        -1
    } else if s.last() == c {
        s.len() - 1
    } else {
        rfind(s.drop_last(), c)
    }
}

/// `s` without leading white space.
pub open spec fn trim_start(s: Seq<char>) -> Seq<char> {
    s.skip(scan(s, not_white()))
}

/// `s` without trailing white space.
pub open spec fn trim_end(s: Seq<char>) -> Seq<char>
    decreases s.len(),
{
    if s.len() > 0 && is_white(s.last()) {
        trim_end(s.drop_last())
    } else {
        s
    }
}

/// `s` without white space at either end.
pub open spec fn trim(s: Seq<char>) -> Seq<char> {
    trim_end(trim_start(s))
}

/// The maximal white-space-free pieces of `s`, in order.
pub open spec fn words(s: Seq<char>) -> Seq<Seq<char>>
    decreases s.len(),
    via words_decreases
{
    let t = trim_start(s);
    if t.len() == 0 {
        Seq::empty()
    } else {
        let n = scan(t, some_white());
        seq![t.take(n)] + words(t.skip(n))
    }
}

#[via_fn]
proof fn words_decreases(s: Seq<char>) {
    lemma_scan(s, not_white());
    let t = trim_start(s);
    lemma_scan(t, some_white());
}

/// `s` cut at every character that satisfies `sep`; a text without one gives
/// itself, and the empty text gives one empty piece.
pub open spec fn pieces(s: Seq<char>, sep: spec_fn(char) -> bool) -> Seq<Seq<char>>
    decreases s.len(),
    via pieces_decreases
{
    let n = scan(s, sep);
    if n >= s.len() {
        seq![s]
    } else {
        seq![s.take(n)] + pieces(s.skip(n + 1), sep)
    }
}

#[via_fn]
proof fn pieces_decreases(s: Seq<char>, sep: spec_fn(char) -> bool) {
    lemma_scan(s, sep);
}

/// `line` without one trailing carriage return.
pub open spec fn strip_cr(line: Seq<char>) -> Seq<char> {
    if line.len() > 0 && line.last() == '\r' {
        line.drop_last()
    } else {
        line
    }
}

/// The lines of `s`: cut after each line feed, without the line feed and a
/// carriage return directly before it. A last line needs no line feed.
pub open spec fn lines(s: Seq<char>) -> Seq<Seq<char>>
    decreases s.len(),
    via lines_decreases
{
    let n = find(s, '\n');
    if s.len() == 0 {
        Seq::empty()
    } else if n >= s.len() {
        seq![s]
    } else {
        seq![strip_cr(s.take(n))] + lines(s.skip(n + 1))
    }
}

#[via_fn]
proof fn lines_decreases(s: Seq<char>) {
    lemma_scan(s, is_char('\n'));
}

/// Whether `p` is a prefix of `s`.
pub open spec fn starts_with(s: Seq<char>, p: Seq<char>) -> bool {
    p.len() <= s.len() && s.take(p.len() as int) == p
}

/// Whether `p` is a suffix of `s`.
pub open spec fn ends_with(s: Seq<char>, p: Seq<char>) -> bool {
    p.len() <= s.len() && s.skip(s.len() - p.len()) == p
}

/// Whether `p` stands somewhere in `s`.
pub open spec fn occurs(s: Seq<char>, p: Seq<char>) -> bool {
    exists|i: int| 0 <= i <= s.len() && starts_with(#[trigger] s.skip(i), p)
}

/// Whether `c` is an ASCII decimal digit.
pub open spec fn is_digit(c: char) -> bool {
    '0' <= c && c <= '9'
}

/// Value of an ASCII decimal digit.
pub open spec fn digit(c: char) -> nat {
    (c as int - 48) as nat
}

/// Whether every character is an ASCII decimal digit.
pub open spec fn all_digits(s: Seq<char>) -> bool {
    forall|i: int| 0 <= i < s.len() ==> is_digit(#[trigger] s[i])
}

/// The number that a string of digits denotes.
pub open spec fn digits_value(s: Seq<char>) -> nat
    decreases s.len(),
{
    if s.len() == 0 {
        0
    } else {
        digits_value(s.drop_last()) * 10 + digit(s.last())
    }
}

/// The digits of an unsigned literal: one leading `+` is allowed.
pub open spec fn without_plus(s: Seq<char>) -> Seq<char> {
    if s.len() > 0 && s[0] == '+' {
        s.skip(1)
    } else {
        s
    }
}

/// The unsigned number that `s` spells, if it is a decimal literal not above
/// `max`.
pub open spec fn unsigned(s: Seq<char>, max: nat) -> Option<nat> {
    let t = without_plus(s);
    if t.len() > 0 && all_digits(t) && digits_value(t) <= max {
        Some(digits_value(t))
    } else {
        None
    }
}

/// The signed number that `s` spells, if it is a decimal literal in
/// `-low ..= high`.
pub open spec fn signed(s: Seq<char>, low: nat, high: nat) -> Option<int> {
    if s.len() > 0 && s[0] == '-' {
        let t = s.skip(1);
        if t.len() > 0 && all_digits(t) && digits_value(t) <= low {
            Some(-(digits_value(t) as int))
        } else {
            None
        }
    } else {
        match unsigned(s, high) {
            Some(n) => Some(n as int),
            None => None,
        }
    }
}

/// The character of a decimal digit.
pub open spec fn digit_char(n: nat) -> char {
    (48 + n % 10) as char
}

/// Decimal notation of `n`, without leading zeros.
pub open spec fn decimal(n: nat) -> Seq<char>
    decreases n,
{
    if n < 10 {
        seq![digit_char(n)]
    } else {
        decimal(n / 10).push(digit_char(n % 10))
    }
}

/// Decimal notation of a signed number.
pub open spec fn signed_decimal(n: int) -> Seq<char> {
    if n < 0 {
        seq!['-'] + decimal((-n) as nat)
    } else {
        decimal(n as nat)
    }
}

/// The texts of `parts` with `sep` between neighbours.
pub open spec fn join(parts: Seq<Seq<char>>, sep: Seq<char>) -> Seq<char>
    decreases parts.len(),
{
    if parts.len() == 0 {
        Seq::empty()
    } else if parts.len() == 1 {
        parts[0]
    } else {
        join(parts.drop_last(), sep) + sep + parts.last()
    }
}

/// The character sequences that a list of slices shows.
pub open spec fn texts(v: Seq<&[char]>) -> Seq<Seq<char>> {
    Seq::new(v.len(), |i: int| v[i]@)
}

/// The character sequences of a list of strings.
pub open spec fn strings(v: Seq<String>) -> Seq<Seq<char>> {
    Seq::new(v.len(), |i: int| v[i]@)
}

/// The character sequence of an optional string.
pub open spec fn opt_text(s: Option<String>) -> Option<Seq<char>> {
    match s {
        Some(t) => Some(t@),
        None => None,
    }
}

// ---------------------------------------------------------------------
// Facts about the specifications
// ---------------------------------------------------------------------

/// What `scan` returns.
pub proof fn lemma_scan(s: Seq<char>, stop: spec_fn(char) -> bool)
    ensures
        0 <= scan(s, stop) <= s.len(),
        forall|i: int| 0 <= i < scan(s, stop) ==> !stop(#[trigger] s[i]),
        scan(s, stop) < s.len() ==> stop(s[scan(s, stop)]),
    decreases s.len(),
{
    if s.len() > 0 && !stop(s[0]) {
        lemma_scan(s.skip(1), stop);
        let n = scan(s.skip(1), stop);
        assert forall|i: int| 0 <= i < 1 + n implies !stop(#[trigger] s[i]) by {
            if i > 0 {
                assert(s.skip(1)[i - 1] == s[i]);
            }
        }
        if n < s.skip(1).len() {
            assert(s.skip(1)[n] == s[n + 1]);
        }
    }
}

/// `scan` is the only index with its properties.
pub proof fn lemma_scan_is(s: Seq<char>, stop: spec_fn(char) -> bool, n: int)
    requires
        0 <= n <= s.len(),
        forall|i: int| 0 <= i < n ==> !stop(#[trigger] s[i]),
        n < s.len() ==> stop(s[n]),
    ensures
        scan(s, stop) == n,
{
    lemma_scan(s, stop);
    let m = scan(s, stop);
    if m < n {
        assert(!stop(s[m]));
    } else if n < m {
        assert(!stop(s[n]));
    }
}

/// What `rfind` returns.
pub proof fn lemma_rfind(s: Seq<char>, c: char)
    ensures
        -1 <= rfind(s, c) < s.len(),
        forall|i: int| rfind(s, c) < i < s.len() ==> #[trigger] s[i] != c,
        rfind(s, c) >= 0 ==> s[rfind(s, c)] == c,
    decreases s.len(),
{
    if s.len() > 0 && s.last() != c {
        lemma_rfind(s.drop_last(), c);
        assert forall|i: int| rfind(s, c) < i < s.len() implies #[trigger] s[i] != c by {
            if i < s.len() - 1 {
                assert(s.drop_last()[i] == s[i]);
            }
        }
    }
}

/// `rfind` is the only index with its properties.
pub proof fn lemma_rfind_is(s: Seq<char>, c: char, n: int)
    requires
        -1 <= n < s.len(),
        forall|i: int| n < i < s.len() ==> #[trigger] s[i] != c,
        n >= 0 ==> s[n] == c,
    ensures
        rfind(s, c) == n,
{
    lemma_rfind(s, c);
    let m = rfind(s, c);
    if m < n {
        assert(s[n] != c);
    } else if n < m {
        assert(s[m] != c);
    }
}

/// Trimming the end keeps a prefix.
pub proof fn lemma_trim_end(s: Seq<char>)
    ensures
        trim_end(s).len() <= s.len(),
        trim_end(s) == s.take(trim_end(s).len() as int),
    decreases s.len(),
{
    if s.len() > 0 && is_white(s.last()) {
        lemma_trim_end(s.drop_last());
        let n = trim_end(s).len() as int;
        assert(s.drop_last().take(n) =~= s.take(n));
    } else {
        assert(s.take(s.len() as int) =~= s);
    }
}

/// More digits never denote a smaller number.
pub proof fn lemma_digits_monotone(s: Seq<char>, n: int)
    requires
        0 <= n <= s.len(),
    ensures
        digits_value(s.take(n)) <= digits_value(s),
    decreases s.len() - n,
{
    if n < s.len() {
        lemma_digits_monotone(s, n + 1);
        assert(s.take(n + 1).drop_last() =~= s.take(n));
    } else {
        assert(s.take(n) =~= s);
    }
}

/// Decimal notation consists of digits and denotes its number.
pub proof fn lemma_decimal(n: nat)
    ensures
        decimal(n).len() > 0,
        all_digits(decimal(n)),
        digits_value(decimal(n)) == n,
    decreases n,
{
    if n < 10 {
        let s = decimal(n);
        assert(s.drop_last() =~= Seq::<char>::empty());
        assert(digits_value(s.drop_last()) == 0);
    } else {
        lemma_decimal(n / 10);
        let s = decimal(n);
        assert(s.drop_last() =~= decimal(n / 10));
        assert forall|i: int| 0 <= i < s.len() implies is_digit(#[trigger] s[i]) by {
            if i < s.len() - 1 {
                assert(decimal(n / 10)[i] == s[i]);
            }
        }
    }
}

/// One more part at the end of a joined list.
pub proof fn lemma_join_push(parts: Seq<Seq<char>>, sep: Seq<char>, last: Seq<char>)
    ensures
        join(parts.push(last), sep) == if parts.len() == 0 {
            last
        } else {
            join(parts, sep) + sep + last
        },
{
    let p = parts.push(last);
    assert(p.drop_last() =~= parts);
}

// ---------------------------------------------------------------------
// Executable counterparts
// ---------------------------------------------------------------------

/// Whether `c` has the `White_Space` property.
pub fn white(c: char) -> (r: bool)
    ensures
        r == is_white(c),
{
    let n: u32 = c as u32;
    (9 <= n && n <= 13) || n == 32 || n == 0x85 || n == 0xA0 || n == 0x1680 || (0x2000 <= n && n
        <= 0x200A) || n == 0x2028 || n == 0x2029 || n == 0x202F || n == 0x205F || n == 0x3000
}

/// The characters of a string.
pub fn chars_of(s: &str) -> (v: Vec<char>)
    ensures
        v@ == s@,
{
    let mut v: Vec<char> = Vec::new();
    for c in it: s.chars()
        invariant
            it.seq() == s@,
            v@ =~= s@.take(it.index()),
    {
        v.push(c);
    }
    v
}

/// The string of a list of characters.
pub fn string_of(v: &[char]) -> (s: String)
    ensures
        s@ == v@,
{
    let mut s = String::new();
    let mut i: usize = 0;
    while i < v.len()
        invariant
            0 <= i <= v@.len(),
            s@ =~= v@.take(i as int),
        decreases v@.len() - i,
    {
        s.push(v[i]);
        i += 1;
    }
    s
}

/// Whether two texts are the same.
pub fn same_text(a: &str, b: &str) -> (r: bool)
    ensures
        r == (a@ == b@),
{
    let x = chars_of(a);
    let y = chars_of(b);
    same_chars(x.as_slice(), y.as_slice())
}

/// Whether two character slices hold the same text.
pub fn same_chars(a: &[char], b: &[char]) -> (r: bool)
    ensures
        r == (a@ == b@),
{
    if a.len() != b.len() {
        return false;
    }
    let mut i: usize = 0;
    while i < a.len()
        invariant
            0 <= i <= a@.len(),
            a@.len() == b@.len(),
            forall|j: int| 0 <= j < i ==> a@[j] == b@[j],
        decreases a@.len() - i,
    {
        if a[i] != b[i] {
            return false;
        }
        i += 1;
    }
    assert(a@ =~= b@);
    true
}

/// Whether a character slice spells the given text.
pub fn spells(a: &[char], b: &str) -> (r: bool)
    ensures
        r == (a@ == b@),
{
    let y = chars_of(b);
    same_chars(a, y.as_slice())
}

/// Index of the first `c`, or the length.
pub fn find_char(s: &[char], c: char) -> (n: usize)
    ensures
        n == find(s@, c),
        n <= s@.len(),
{
    let mut i: usize = 0;
    while i < s.len()
        invariant
            0 <= i <= s@.len(),
            forall|j: int| 0 <= j < i ==> s@[j] != c,
        decreases s@.len() - i,
    {
        if s[i] == c {
            proof {
                lemma_scan_is(s@, is_char(c), i as int);
            }
            return i;
        }
        i += 1;
    }
    proof {
        lemma_scan_is(s@, is_char(c), i as int);
    }
    i
}

/// Index of the last `c`, if there is one.
pub fn rfind_char(s: &[char], c: char) -> (r: Option<usize>)
    ensures
        match r {
            Some(n) => n == rfind(s@, c) && n < s@.len(),
            None => rfind(s@, c) == -1,
        },
{
    let mut i: usize = s.len();
    while i > 0
        invariant
            0 <= i <= s@.len(),
            forall|j: int| i <= j < s@.len() ==> s@[j] != c,
        decreases i,
    {
        i -= 1;
        if s[i] == c {
            proof {
                lemma_rfind_is(s@, c, i as int);
            }
            return Some(i);
        }
    }
    proof {
        lemma_rfind_is(s@, c, -1);
    }
    None
}

/// The slice without leading white space.
pub fn trim_start_of(s: &[char]) -> (r: &[char])
    ensures
        r@ == trim_start(s@),
{
    let mut i: usize = 0;
    while i < s.len() && white(s[i])
        invariant
            0 <= i <= s@.len(),
            forall|j: int| 0 <= j < i ==> is_white(s@[j]),
        decreases s@.len() - i,
    {
        i += 1;
    }
    proof {
        lemma_scan_is(s@, not_white(), i as int);
        assert(s@.subrange(i as int, s@.len() as int) =~= s@.skip(i as int));
    }
    slice_subrange(s, i, s.len())
}

/// The slice without white space at either end.
pub fn trim_of(s: &[char]) -> (r: &[char])
    ensures
        r@ == trim(s@),
{
    let t = trim_start_of(s);
    let mut n: usize = t.len();
    proof {
        assert(t@.take(t@.len() as int) =~= t@);
    }
    while n > 0 && white(t[n - 1])
        invariant
            0 <= n <= t@.len(),
            trim_end(t@.take(n as int)) == trim_end(t@),
        decreases n,
    {
        proof {
            assert(t@.take(n as int).drop_last() =~= t@.take(n - 1));
        }
        n -= 1;
    }
    proof {
        assert(t@.subrange(0, n as int) =~= t@.take(n as int));
        if n > 0 {
            assert(t@.take(n as int).last() == t@[n - 1]);
        }
    }
    slice_subrange(t, 0, n)
}

/// The white-space-separated words.
pub fn words_of(s: &[char]) -> (r: Vec<&[char]>)
    ensures
        texts(r@) == words(s@),
{
    let mut out: Vec<&[char]> = Vec::new();
    let mut rest: &[char] = trim_start_of(s);
    proof {
        assert(texts(out@) =~= Seq::<Seq<char>>::empty());
        lemma_trim_start_idempotent(s@);
        lemma_words_trim(s@);
        assert(texts(out@) + words(rest@) =~= words(s@));
    }
    while rest.len() > 0
        invariant
            rest@ == trim_start(rest@),
            texts(out@) + words(rest@) == words(s@),
        decreases rest@.len(),
    {
        let ghost before = rest@;
        let ghost out0 = out@;
        let mut n: usize = 0;
        while n < rest.len() && !white(rest[n])
            invariant
                0 <= n <= rest@.len(),
                forall|j: int| 0 <= j < n ==> !is_white(rest@[j]),
            decreases rest@.len() - n,
        {
            n += 1;
        }
        proof {
            lemma_scan_is(rest@, some_white(), n as int);
            lemma_scan(rest@, not_white());
            assert(!is_white(rest@[0])) by {
                assert(rest@.skip(scan(rest@, not_white())) == rest@);
                assert(scan(rest@, not_white()) == 0);
            }
            assert(rest@.subrange(0, n as int) =~= rest@.take(n as int));
            assert(rest@.subrange(n as int, rest@.len() as int) =~= rest@.skip(n as int));
            lemma_trim_start_idempotent(rest@.skip(n as int));
            lemma_words_trim(rest@.skip(n as int));
            lemma_scan(rest@.skip(n as int), not_white());
        }
        let word = slice_subrange(rest, 0, n);
        rest = trim_start_of(slice_subrange(rest, n, rest.len()));
        out.push(word);
        proof {
            assert(texts(out@) =~= texts(out0).push(word@));
            assert(words(before) == seq![before.take(n as int)] + words(before.skip(n as int)));
            assert(texts(out@) + words(rest@) =~= texts(out0) + words(before));
        }
    }
    proof {
        assert(words(rest@) =~= Seq::<Seq<char>>::empty()) by {
            lemma_scan(rest@, not_white());
        }
        assert(texts(out@) + words(rest@) =~= texts(out@));
    }
    out
}

/// Trimming the start twice is trimming it once.
pub proof fn lemma_trim_start_idempotent(s: Seq<char>)
    ensures
        trim_start(trim_start(s)) == trim_start(s),
{
    lemma_scan(s, not_white());
    let n = scan(s, not_white());
    let t = s.skip(n);
    if t.len() > 0 {
        assert(t[0] == s[n]);
    }
    lemma_scan_is(t, not_white(), 0);
    assert(t.skip(0) =~= t);
}

/// Leading white space does not matter for the words.
pub proof fn lemma_words_trim(s: Seq<char>)
    ensures
        words(trim_start(s)) == words(s),
{
    lemma_trim_start_idempotent(s);
}

/// The lines of a text.
pub fn lines_of(s: &[char]) -> (r: Vec<&[char]>)
    ensures
        texts(r@) == lines(s@),
{
    let mut out: Vec<&[char]> = Vec::new();
    let mut rest: &[char] = s;
    proof {
        assert(texts(out@) + lines(rest@) =~= lines(s@));
    }
    while rest.len() > 0
        invariant
            texts(out@) + lines(rest@) == lines(s@),
        decreases rest@.len(),
    {
        let ghost before = rest@;
        let ghost out0 = out@;
        let n = find_char(rest, '\n');
        if n >= rest.len() {
            out.push(rest);
            proof {
                assert(texts(out@) =~= texts(out0) + lines(before));
            }
            return out;
        }
        proof {
            assert(rest@.subrange(0, n as int) =~= rest@.take(n as int));
            assert(rest@.subrange(n + 1, rest@.len() as int) =~= rest@.skip(n + 1));
        }
        let mut end: usize = n;
        if n > 0 && rest[n - 1] == '\r' {
            end = n - 1;
        }
        let line = slice_subrange(rest, 0, end);
        proof {
            assert(line@ =~= strip_cr(before.take(n as int)));
        }
        rest = slice_subrange(rest, n + 1, rest.len());
        out.push(line);
        proof {
            assert(texts(out@) =~= texts(out0).push(line@));
            assert(texts(out@) + lines(rest@) =~= texts(out0) + lines(before));
        }
    }
    proof {
        assert(texts(out@) + lines(rest@) =~= texts(out@));
    }
    out
}

/// Whether the slice begins with the given text.
pub fn begins(s: &[char], p: &str) -> (r: bool)
    ensures
        r == starts_with(s@, p@),
{
    let q = chars_of(p);
    begins_chars(s, q.as_slice())
}

/// Whether the slice begins with the given characters.
pub fn begins_chars(s: &[char], q: &[char]) -> (r: bool)
    ensures
        r == starts_with(s@, q@),
{
    if q.len() > s.len() {
        return false;
    }
    proof {
        assert(s@.subrange(0, q@.len() as int) =~= s@.take(q@.len() as int));
    }
    same_chars(slice_subrange(s, 0, q.len()), q)
}

/// Whether the slice ends with the given text.
pub fn finishes(s: &[char], p: &str) -> (r: bool)
    ensures
        r == ends_with(s@, p@),
{
    let q = chars_of(p);
    if q.len() > s.len() {
        return false;
    }
    let from: usize = s.len() - q.len();
    proof {
        assert(s@.subrange(from as int, s@.len() as int) =~= s@.skip(from as int));
    }
    same_chars(slice_subrange(s, from, s.len()), q.as_slice())
}

/// Whether the given text stands somewhere in the slice.
pub fn contains_text(s: &[char], p: &str) -> (r: bool)
    ensures
        r == occurs(s@, p@),
{
    let q = chars_of(p);
    let mut i: usize = 0;
    while i < s.len()
        invariant
            0 <= i <= s@.len(),
            q@ == p@,
            forall|j: int| 0 <= j < i ==> !starts_with(#[trigger] s@.skip(j), p@),
        decreases s@.len() - i,
    {
        proof {
            assert(s@.subrange(i as int, s@.len() as int) =~= s@.skip(i as int));
        }
        if begins_chars(slice_subrange(s, i, s.len()), q.as_slice()) {
            return true;
        }
        i += 1;
    }
    proof {
        assert(s@.skip(i as int) =~= Seq::<char>::empty());
        if q@.len() == 0 {
            assert(starts_with(s@.skip(i as int), p@)) by {
                assert(s@.skip(i as int).take(0) =~= q@);
            }
        }
    }
    q.len() == 0
}

/// The number that an unsigned decimal literal not above `max` spells.
pub fn parse_unsigned(s: &[char], max: u64) -> (r: Option<u64>)
    ensures
        match r {
            Some(n) => unsigned(s@, max as nat) == Some(n as nat),
            None => unsigned(s@, max as nat) is None,
        },
{
    let t: &[char] = if s.len() > 0 && s[0] == '+' {
        proof {
            assert(s@.subrange(1, s@.len() as int) =~= s@.skip(1));
        }
        slice_subrange(s, 1, s.len())
    } else {
        s
    };
    parse_digits(t, max)
}

/// The number that a non-empty string of digits denotes, if not above `max`.
pub fn parse_digits(t: &[char], max: u64) -> (r: Option<u64>)
    ensures
        match r {
            Some(n) => t@.len() > 0 && all_digits(t@) && digits_value(t@) == n && n <= max,
            None => !(t@.len() > 0 && all_digits(t@) && digits_value(t@) <= max),
        },
{
    if t.len() == 0 {
        return None;
    }
    let mut acc: u64 = 0;
    let mut i: usize = 0;
    while i < t.len()
        invariant
            0 <= i <= t@.len(),
            acc <= max,
            forall|j: int| 0 <= j < i ==> is_digit(#[trigger] t@[j]),
            acc == digits_value(t@.take(i as int)),
        decreases t@.len() - i,
    {
        let c = t[i];
        if !('0' <= c && c <= '9') {
            return None;
        }
        let d: u64 = c as u64 - 48;
        proof {
            assert(t@.take(i + 1).drop_last() =~= t@.take(i as int));
            assert(digits_value(t@.take(i + 1)) == acc * 10 + d);
            lemma_digits_monotone(t@, i + 1);
        }
        let next: u128 = acc as u128 * 10 + d as u128;
        if next > max as u128 {
            return None;
        }
        acc = next as u64;
        i += 1;
    }
    proof {
        assert(t@.take(i as int) =~= t@);
    }
    Some(acc)
}

/// The number that a signed decimal literal in `-low ..= high` spells.
pub fn parse_signed(s: &[char], low: u64, high: u64) -> (r: Option<i128>)
    ensures
        match r {
            Some(n) => signed(s@, low as nat, high as nat) == Some(n as int) && -low <= n <= high,
            None => signed(s@, low as nat, high as nat) is None,
        },
{
    if s.len() > 0 && s[0] == '-' {
        proof {
            assert(s@.subrange(1, s@.len() as int) =~= s@.skip(1));
        }
        match parse_digits(slice_subrange(s, 1, s.len()), low) {
            Some(n) => Some(-(n as i128)),
            None => None,
        }
    } else {
        match parse_unsigned(s, high) {
            Some(n) => Some(n as i128),
            None => None,
        }
    }
}

/// An `i32` literal.
pub open spec fn i32_of(s: Seq<char>) -> Option<int> {
    signed(s, 0x8000_0000, 0x7FFF_FFFF)
}

/// Reads an `i32` literal.
pub fn parse_i32(s: &[char]) -> (r: Option<i32>)
    ensures
        match r {
            Some(n) => i32_of(s@) == Some(n as int),
            None => i32_of(s@) is None,
        },
{
    match parse_signed(s, 0x8000_0000, 0x7FFF_FFFF) {
        Some(n) => Some(n as i32),
        None => None,
    }
}

/// Appends the decimal notation of a wide number.
pub fn push_wide(out: &mut String, n: u128)
    ensures
        final(out)@ == old(out)@ + decimal(n as nat),
    decreases n,
{
    if n >= 10 {
        push_wide(out, n / 10);
    }
    let d: u8 = (n % 10) as u8;
    out.push((48 + d) as char);
    proof {
        assert(out@ =~= old(out)@ + decimal(n as nat));
    }
}

/// Appends the decimal notation of `n`.
pub fn push_decimal(out: &mut String, n: u64)
    ensures
        final(out)@ == old(out)@ + decimal(n as nat),
{
    push_wide(out, n as u128);
}

/// Appends the decimal notation of a signed number.
pub fn push_signed(out: &mut String, n: i64)
    ensures
        final(out)@ == old(out)@ + signed_decimal(n as int),
{
    if n < 0 {
        out.push('-');
        let m: u64 = (-(n as i128)) as u64;
        push_decimal(out, m);
        proof {
            assert(out@ =~= old(out)@ + signed_decimal(n as int));
        }
    } else {
        push_decimal(out, n as u64);
    }
}

/// The decimal notation of `n` as a string.
pub fn decimal_string(n: u64) -> (r: String)
    ensures
        r@ == decimal(n as nat),
{
    let mut s = String::new();
    push_decimal(&mut s, n);
    proof {
        assert(s@ =~= decimal(n as nat));
    }
    s
}

/// Joins texts with a separator.
pub fn join_strings(parts: &[String], sep: &str) -> (r: String)
    ensures
        r@ == join(strings(parts@), sep@),
{
    let mut out = String::new();
    let mut i: usize = 0;
    proof {
        assert(strings(parts@).take(0) =~= Seq::<Seq<char>>::empty());
    }
    while i < parts.len()
        invariant
            0 <= i <= parts@.len(),
            out@ == join(strings(parts@).take(i as int), sep@),
        decreases parts@.len() - i,
    {
        if i > 0 {
            out.append(sep);
        }
        out.append(parts[i].as_str());
        proof {
            let all = strings(parts@);
            lemma_join_push(all.take(i as int), sep@, all[i as int]);
            assert(all.take(i as int).push(all[i as int]) =~= all.take(i + 1));
            assert(out@ =~= join(all.take(i + 1), sep@));
        }
        i += 1;
    }
    proof {
        assert(strings(parts@).take(i as int) =~= strings(parts@));
    }
    out
}

/// A copy without white space at either end.
pub fn trimmed(s: &str) -> (r: String)
    ensures
        r@ == trim(s@),
{
    let v = chars_of(s);
    string_of(trim_of(v.as_slice()))
}

/// The lower-case form of a text, by Unicode's rules.
pub uninterp spec fn lowercase_of(s: Seq<char>) -> Seq<char>;

/// The lower-case form of an ASCII character.
pub open spec fn ascii_lower(c: char) -> char {
    if 'A' <= c && c <= 'Z' {
        (c as int + 32) as char
    } else {
        c
    }
}

/// Whether every character is an ASCII character.
pub open spec fn all_ascii(s: Seq<char>) -> bool {
    forall|i: int| 0 <= i < s.len() ==> (#[trigger] s[i] as int) < 128
}

/// Calls `str::to_lowercase`. The result is a function of the text alone; for
/// an ASCII text it has the letters `A` to `Z` replaced by `a` to `z`, and
/// nothing is said of other texts.
#[verifier::external_body]
pub(crate) fn lowercase(s: &str) -> (r: String)
    ensures
        r@ == lowercase_of(s@),
        all_ascii(s@) ==> r@ == Seq::new(s@.len(), |i: int| ascii_lower(s@[i])),
{
    s.to_lowercase()
}

/// A copy of an optional string.
pub fn copy_opt(s: &Option<String>) -> (r: Option<String>)
    ensures
        r == *s,
{
    match s {
        Some(x) => Some(x.clone()),
        None => None,
    }
}

/// Length of a text in bytes.
pub open spec fn bytes(s: Seq<char>) -> nat {
    vstd::utf8::encode_utf8(s).len()
}

/// Length of a text in bytes.
pub fn byte_len(s: &str) -> (r: usize)
    ensures
        r == bytes(s@),
{
    s.as_bytes().len()
}

/// Whether a list of texts holds `s`.
pub fn holds_text(v: &[String], s: &str) -> (r: bool)
    ensures
        r == strings(v@).contains(s@),
{
    let mut i: usize = 0;
    while i < v.len()
        invariant
            0 <= i <= v@.len(),
            forall|j: int| 0 <= j < i ==> #[trigger] strings(v@)[j] != s@,
        decreases v@.len() - i,
    {
        if same_text(v[i].as_str(), s) {
            proof {
                assert(strings(v@)[i as int] == s@);
            }
            return true;
        }
        i += 1;
    }
    false
}

/// Some blanks.
pub open spec fn spaces(n: int) -> Seq<char> {
    if n <= 0 {
        Seq::empty()
    } else {
        Seq::new(n as nat, |i: int| ' ')
    }
}

/// A text with blanks before it, up to a width.
pub open spec fn right_aligned(s: Seq<char>, width: int) -> Seq<char> {
    spaces(width - s.len()) + s
}

/// A text with blanks behind it, up to a width.
pub open spec fn left_aligned(s: Seq<char>, width: int) -> Seq<char> {
    s + spaces(width - s.len())
}

/// Appends the blanks that a text of `len` characters leaves of a width.
fn push_spaces(out: &mut String, len: usize, width: usize)
    ensures
        final(out)@ == old(out)@ + spaces(width - len),
{
    let mut i: usize = len;
    assert(out@ =~= old(out)@ + spaces(0));
    while i < width
        invariant
            len <= i,
            len < width ==> i <= width,
            len >= width ==> i == len,
            out@ == old(out)@ + spaces(i - len),
        decreases width - i,
    {
        let ghost before = out@;
        out.push(' ');
        assert(out@ =~= old(out)@ + spaces(i + 1 - len)) by {
            assert(spaces(i + 1 - len) =~= spaces(i - len).push(' '));
            assert(out@ == before.push(' '));
        }
        i += 1;
    }
}

/// Appends a text with blanks before it, up to a width.
pub fn push_right_aligned(out: &mut String, s: &str, width: usize)
    ensures
        final(out)@ == old(out)@ + right_aligned(s@, width as int),
{
    let n: usize = chars_of(s).len();
    push_spaces(out, n, width);
    out.append(s);
    assert(out@ =~= old(out)@ + right_aligned(s@, width as int));
}

/// Appends a text with blanks behind it, up to a width.
pub fn push_left_aligned(out: &mut String, s: &str, width: usize)
    ensures
        final(out)@ == old(out)@ + left_aligned(s@, width as int),
{
    let n: usize = chars_of(s).len();
    out.append(s);
    push_spaces(out, n, width);
    assert(out@ =~= old(out)@ + left_aligned(s@, width as int));
}

/// The first characters of a text.
pub fn first_chars(s: &str, n: usize) -> (r: String)
    ensures
        r@ == if s@.len() <= n {
            s@
        } else {
            s@.take(n as int)
        },
{
    let chars = chars_of(s);
    if chars.len() <= n {
        return s.to_owned();
    }
    let head = slice_subrange(chars.as_slice(), 0, n);
    assert(head@ =~= s@.take(n as int));
    string_of(head)
}

/// The decimal notation of a signed number as a string.
pub fn signed_string(n: i64) -> (r: String)
    ensures
        r@ == signed_decimal(n as int),
{
    let mut s = String::new();
    push_signed(&mut s, n);
    proof {
        assert(s@ =~= signed_decimal(n as int));
    }
    s
}

} // verus!
