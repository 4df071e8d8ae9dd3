//! CPU bitmaps, CPU range notation and the CPU topology.

use vstd::prelude::*;
use vstd::set_lib::set_int_range;
use vstd::slice::slice_subrange;

use crate::text;

verus! {

/// Root of the cpuset directories that the engine owns.
pub const BASE_CPUSET: &'static str = "/dev/cpuset/threadctl";

/// Package names of this many bytes or more are refused.
pub const MAX_PKG_LEN: usize = 128;

/// Thread names of this many bytes or more are refused.
pub const MAX_THREAD_LEN: usize = 32;

/// Number of CPUs that a bitmap can name.
pub const CPU_SETSIZE: usize = 1024;

/// Bits of one bitmap word.
pub const CPU_WORD_BITS: usize = 64;

/// Words of a bitmap.
pub const CPU_WORDS: usize = 16;

/// A bitmap over CPU numbers, laid out as the kernel's `cpu_set_t`.
#[derive(Clone, Copy, PartialEq, Eq, Debug)]
pub struct CpuSet {
    pub bits: [u64; CPU_WORDS],
}

/// Bit `k` of a word.
pub open spec fn word_bit(w: u64, k: int) -> bool {
    (w >> (k as u64)) & 1u64 == 1u64
}

impl CpuSet {
    /// Whether a CPU number is in the bitmap.
    pub open spec fn has(&self, cpu: int) -> bool {
        0 <= cpu < 1024 && word_bit(self.bits@[cpu / 64], cpu % 64)
    }
}

impl View for CpuSet {
    type V = Set<int>;

    /// The CPU numbers in the bitmap.
    open spec fn view(&self) -> Set<int> {
        Set::new(|cpu: int| self.has(cpu))
    }
}

proof fn lemma_bit_ops(w: u64, v: u64, b: u64, k: u64)
    requires
        b < 64,
        k < 64,
    ensures
        ((w | (1u64 << b)) >> k) & 1u64 == 1u64 <==> (k == b || (w >> k) & 1u64 == 1u64),
        ((w | v) >> k) & 1u64 == 1u64 <==> ((w >> k) & 1u64 == 1u64 || (v >> k) & 1u64 == 1u64),
        ((w & v) >> k) & 1u64 == 1u64 <==> ((w >> k) & 1u64 == 1u64 && (v >> k) & 1u64 == 1u64),
        (0u64 >> k) & 1u64 == 0u64,
        ((w & (1u64 << k)) != 0) <==> (w >> k) & 1u64 == 1u64,
{
    assert(((w | (1u64 << b)) >> k) & 1u64 == 1u64 <==> (k == b || (w >> k) & 1u64 == 1u64))
        by (bit_vector)
        requires
            b < 64,
            k < 64,
    ;
    assert(((w | v) >> k) & 1u64 == 1u64 <==> ((w >> k) & 1u64 == 1u64 || (v >> k) & 1u64 == 1u64))
        by (bit_vector)
        requires
            k < 64,
    ;
    assert(((w & v) >> k) & 1u64 == 1u64 <==> ((w >> k) & 1u64 == 1u64 && (v >> k) & 1u64 == 1u64))
        by (bit_vector)
        requires
            k < 64,
    ;
    assert((0u64 >> k) & 1u64 == 0u64) by (bit_vector)
        requires
            k < 64,
    ;
    assert(((w & (1u64 << k)) != 0) <==> (w >> k) & 1u64 == 1u64) by (bit_vector)
        requires
            k < 64,
    ;
}

/// Two words with the same bits are the same word.
proof fn lemma_word_ext(w: u64, v: u64)
    requires
        forall|k: int| 0 <= k < 64 ==> word_bit(w, k) == word_bit(v, k),
    ensures
        w == v,
{
    let x = w ^ v;
    if x != 0 {
        let t = vstd::std_specs::bits::u64_trailing_zeros(x);
        vstd::std_specs::bits::axiom_u64_trailing_zeros(x);
        let k = t as u64;
        assert(k < 64);
        assert((x >> k) & 1u64 == 1u64);
        assert(word_bit(w, k as int) == word_bit(v, k as int));
        assert(false) by (bit_vector)
            requires
                x == w ^ v,
                k < 64,
                (x >> k) & 1u64 == 1u64,
                ((w >> k) & 1u64 == 1u64) == ((v >> k) & 1u64 == 1u64),
        ;
    } else {
        assert(w == v) by (bit_vector)
            requires
                w ^ v == 0u64,
        ;
    }
}

/// Two bitmaps over the same CPU numbers are the same bitmap.
pub proof fn lemma_cpuset_ext(a: CpuSet, b: CpuSet)
    requires
        a@ == b@,
    ensures
        a == b,
{
    assert forall|i: int| 0 <= i < 16 implies a.bits@[i] == b.bits@[i] by {
        assert forall|k: int| 0 <= k < 64 implies word_bit(a.bits@[i], k) == word_bit(
            b.bits@[i],
            k,
        ) by {
            let cpu = i * 64 + k;
            assert(cpu / 64 == i && cpu % 64 == k);
            assert(a@.contains(cpu) == a.has(cpu));
            assert(b@.contains(cpu) == b.has(cpu));
        }
        lemma_word_ext(a.bits@[i], b.bits@[i]);
    }
    assert(a.bits@ =~= b.bits@);
    assert(a.bits == b.bits);
}

/// The CPU numbers of a bitmap are finitely many, all below the limit.
pub proof fn lemma_cpuset_finite(s: CpuSet)
    ensures
        s@.finite(),
        forall|cpu: int| #[trigger] s@.contains(cpu) ==> 0 <= cpu < 1024,
{
    vstd::set_lib::lemma_int_range(0, 1024);
    assert(s@.subset_of(set_int_range(0, 1024)));
    vstd::set_lib::lemma_set_subset_finite(set_int_range(0, 1024), s@);
}

impl CpuSet {
    /// The empty bitmap.
    pub fn new() -> (r: CpuSet)
        ensures
            r@ == Set::<int>::empty(),
    {
        let r = CpuSet { bits: [0u64; 16] };
        proof {
            assert forall|cpu: int| !r.has(cpu) by {
                if 0 <= cpu < 1024 {
                    lemma_bit_ops(0, 0, 0, (cpu % 64) as u64);
                }
            }
            assert(r@ =~= Set::<int>::empty());
        }
        r
    }

    /// Adds a CPU; numbers beyond the limit are ignored.
    pub fn set(&mut self, cpu: usize)
        ensures
            final(self)@ == if cpu < CPU_SETSIZE {
                old(self)@.insert(cpu as int)
            } else {
                old(self)@
            },
    {
        if cpu < CPU_SETSIZE {
            let i: usize = cpu / CPU_WORD_BITS;
            let b: u64 = (cpu % CPU_WORD_BITS) as u64;
            self.bits[i] = self.bits[i] | (1u64 << b);
            proof {
                assert forall|c: int| self.has(c) == (old(self).has(c) || c == cpu) by {
                    if 0 <= c < 1024 {
                        lemma_bit_ops(old(self).bits@[c / 64], 0, b, (c % 64) as u64);
                    }
                }
                assert(self@ =~= old(self)@.insert(cpu as int));
            }
        }
    }

    /// Whether a CPU is in the bitmap.
    pub fn is_set(&self, cpu: usize) -> (r: bool)
        ensures
            r == self@.contains(cpu as int),
            r == self.has(cpu as int),
    {
        if cpu < CPU_SETSIZE {
            let w: u64 = self.bits[cpu / CPU_WORD_BITS];
            let k: u64 = (cpu % CPU_WORD_BITS) as u64;
            proof {
                lemma_bit_ops(w, 0, 0, k);
            }
            w & (1u64 << k) != 0
        } else {
            false
        }
    }

    /// Number of CPUs in the bitmap.
    pub fn count(&self) -> (n: usize)
        ensures
            n == self@.len(),
            n <= 1024,
            n == 0 <==> self@ == Set::<int>::empty(),
    {
        let mut n: usize = 0;
        let mut i: usize = 0;
        proof {
            lemma_cpuset_finite(*self);
            assert(self@.filter(|c: int| c < 0) =~= Set::<int>::empty());
        }
        while i < CPU_SETSIZE
            invariant
                0 <= i <= 1024,
                n <= i,
                self@.finite(),
                n == self@.filter(|c: int| c < i).len(),
            decreases 1024 - i,
        {
            proof {
                let before = self@.filter(|c: int| c < i);
                let after = self@.filter(|c: int| c < i + 1);
                if self.has(i as int) {
                    assert(after =~= before.insert(i as int));
                } else {
                    assert(after =~= before);
                }
            }
            if self.is_set(i) {
                n += 1;
            }
            i += 1;
        }
        proof {
            lemma_cpuset_finite(*self);
            assert(self@.filter(|c: int| c < i) =~= self@);
            if n == 0 {
                assert(self@ =~= Set::<int>::empty());
            }
        }
        n
    }

    /// Union: adds the CPUs of `other`.
    pub fn or(&mut self, other: &CpuSet)
        ensures
            final(self)@ == old(self)@.union(other@),
    {
        let mut i: usize = 0;
        while i < CPU_WORDS
            invariant
                0 <= i <= 16,
                forall|j: int|
                    0 <= j < i ==> self.bits@[j] == old(self).bits@[j] | other.bits@[j],
                forall|j: int| i <= j < 16 ==> self.bits@[j] == old(self).bits@[j],
            decreases 16 - i,
        {
            self.bits[i] = self.bits[i] | other.bits[i];
            i += 1;
        }
        proof {
            assert forall|c: int| #[trigger] self.has(c) == (old(self).has(c) || other.has(c)) by {
                if 0 <= c < 1024 {
                    lemma_bit_ops(
                        old(self).bits@[c / 64],
                        other.bits@[c / 64],
                        0,
                        (c % 64) as u64,
                    );
                }
            }
            assert(self@ =~= old(self)@.union(other@));
        }
    }

    /// Whether no CPU is in the bitmap.
    pub fn is_empty(&self) -> (r: bool)
        ensures
            r == (self@ == Set::<int>::empty()),
    {
        self.count() == 0
    }

    /// Whether both bitmaps hold the same CPUs.
    pub fn same(&self, other: &CpuSet) -> (r: bool)
        ensures
            r == (self@ == other@),
            r == (*self == *other),
    {
        let mut i: usize = 0;
        while i < CPU_WORDS
            invariant
                0 <= i <= 16,
                forall|j: int| 0 <= j < i ==> self.bits@[j] == other.bits@[j],
            decreases 16 - i,
        {
            if self.bits[i] != other.bits[i] {
                proof {
                    if self@ == other@ {
                        lemma_cpuset_ext(*self, *other);
                    }
                }
                return false;
            }
            i += 1;
        }
        proof {
            assert(self.bits@ =~= other.bits@);
            assert(self.bits == other.bits);
        }
        true
    }

    /// Intersection: keeps the CPUs that are also in `other`.
    pub fn and(&mut self, other: &CpuSet)
        ensures
            final(self)@ == old(self)@.intersect(other@),
    {
        let mut i: usize = 0;
        while i < CPU_WORDS
            invariant
                0 <= i <= 16,
                forall|j: int|
                    0 <= j < i ==> self.bits@[j] == old(self).bits@[j] & other.bits@[j],
                forall|j: int| i <= j < 16 ==> self.bits@[j] == old(self).bits@[j],
            decreases 16 - i,
        {
            self.bits[i] = self.bits[i] & other.bits[i];
            i += 1;
        }
        proof {
            assert forall|c: int| #[trigger] self.has(c) == (old(self).has(c) && other.has(c)) by {
                if 0 <= c < 1024 {
                    lemma_bit_ops(
                        old(self).bits@[c / 64],
                        other.bits@[c / 64],
                        0,
                        (c % 64) as u64,
                    );
                }
            }
            assert(self@ =~= old(self)@.intersect(other@));
        }
    }
}

// ---------------------------------------------------------------------
// Range notation
// ---------------------------------------------------------------------

/// The last CPU of the run of consecutive CPUs of `s` that starts at `lo`.
pub open spec fn run_end(s: Set<int>, lo: int) -> int
    decreases 1024 - lo,
{
    if lo + 1 < 1024 && s.contains(lo + 1) {
        run_end(s, lo + 1)
    } else {
        lo
    }
}

/// What `run_end` returns.
pub proof fn lemma_run_end(s: Set<int>, lo: int)
    requires
        0 <= lo < 1024,
        s.contains(lo),
    ensures
        lo <= run_end(s, lo) < 1024,
        forall|c: int| lo <= c <= run_end(s, lo) ==> s.contains(c),
        run_end(s, lo) + 1 < 1024 ==> !s.contains(run_end(s, lo) + 1),
    decreases 1024 - lo,
{
    if lo + 1 < 1024 && s.contains(lo + 1) {
        lemma_run_end(s, lo + 1);
    }
}

/// The maximal runs of consecutive CPUs of `s` at or above `from`, ascending,
/// each as its first and last CPU.
pub open spec fn runs(s: Set<int>, from: int) -> Seq<(int, int)>
    decreases 1024 - from,
    via runs_decreases
{
    if from >= 1024 || from < 0 {
        Seq::empty()
    } else if s.contains(from) {
        seq![(from, run_end(s, from))] + runs(s, run_end(s, from) + 1)
    } else {
        runs(s, from + 1)
    }
}

#[via_fn]
proof fn runs_decreases(s: Set<int>, from: int) {
    if 0 <= from < 1024 && s.contains(from) {
        lemma_run_end(s, from);
    }
}

/// One run in range notation: `4` or `4-7`.
pub open spec fn run_text(run: (int, int)) -> Seq<char> {
    if run.0 == run.1 {
        text::decimal(run.0 as nat)
    } else {
        text::decimal(run.0 as nat) + seq!['-'] + text::decimal(run.1 as nat)
    }
}

/// The notations of several runs.
pub open spec fn run_texts(r: Seq<(int, int)>) -> Seq<Seq<char>> {
    Seq::new(r.len(), |i: int| run_text(r[i]))
}

/// A set of CPUs in compact range notation, such as `0-3,6-7`.
pub open spec fn range_text(s: Set<int>) -> Seq<char> {
    text::join(run_texts(runs(s, 0)), seq![','])
}

/// The characters that part the pieces of a CPU list: configuration files use
/// commas, sysfs uses blanks.
pub open spec fn range_sep() -> spec_fn(char) -> bool {
    |c: char| c == ',' || c == ' ' || c == '\t'
}

/// A CPU number; the largest 64-bit number stands for no number.
pub open spec fn cpu_number(s: Seq<char>) -> Option<nat> {
    match text::unsigned(s, u64::MAX as nat) {
        Some(n) => if n == u64::MAX {
            None
        } else {
            Some(n)
        },
        None => None,
    }
}

/// The bounds, lower first, that one piece of a CPU list denotes. A piece
/// without a readable first number denotes nothing; after a dash, an
/// unreadable second number repeats the first.
pub open spec fn piece_range(p: Seq<char>) -> Option<(nat, nat)> {
    let d = text::find(p, '-');
    if d < p.len() {
        match cpu_number(p.take(d)) {
            None => None,
            Some(a) => match text::unsigned(p.skip(d + 1), u64::MAX as nat) {
                None => Some((a, a)),
                Some(b) => if a <= b {
                    Some((a, b))
                } else {
                    Some((b, a))
                },
            },
        }
    } else {
        match cpu_number(p) {
            None => None,
            Some(a) => Some((a, a)),
        }
    }
}

/// Whether one piece of a CPU list names `cpu`.
pub open spec fn piece_names(p: Seq<char>, cpu: int) -> bool {
    match piece_range(text::trim(p)) {
        Some((lo, hi)) => lo <= cpu <= hi,
        None => false,
    }
}

/// Whether one of several pieces names `cpu`.
pub open spec fn pieces_name(ps: Seq<Seq<char>>, cpu: int) -> bool {
    exists|i: int| 0 <= i < ps.len() && #[trigger] piece_names(ps[i], cpu)
}

/// The CPUs that a CPU list names.
pub open spec fn range_cpus(spec: Seq<char>) -> Set<int> {
    Set::new(|cpu: int| 0 <= cpu < 1024 && pieces_name(text::pieces(spec, range_sep()), cpu))
}

/// The pieces of a CPU list.
fn range_pieces(s: &[char]) -> (r: Vec<&[char]>)
    ensures
        text::texts(r@) == text::pieces(s@, range_sep()),
{
    let mut out: Vec<&[char]> = Vec::new();
    let mut start: usize = 0;
    let mut i: usize = 0;
    proof {
        assert(s@.skip(0) =~= s@);
        assert(text::texts(out@) + text::pieces(s@, range_sep()) =~= text::pieces(
            s@,
            range_sep(),
        ));
    }
    while i < s.len()
        invariant
            0 <= start <= i <= s@.len(),
            forall|j: int| start <= j < i ==> !range_sep()(#[trigger] s@[j]),
            text::texts(out@) + text::pieces(s@.skip(start as int), range_sep()) == text::pieces(
                s@,
                range_sep(),
            ),
        decreases s@.len() - i,
    {
        let c = s[i];
        if c == ',' || c == ' ' || c == '\t' {
            let ghost rest = s@.skip(start as int);
            let ghost out0 = out@;
            proof {
                text::lemma_scan_is(rest, range_sep(), i - start);
                assert(s@.subrange(start as int, i as int) =~= rest.take(i - start));
                assert(rest.skip(i - start + 1) =~= s@.skip(i + 1));
            }
            out.push(slice_subrange(s, start, i));
            proof {
                assert(text::texts(out@) =~= text::texts(out0).push(rest.take(i - start)));
                assert(text::texts(out@) + text::pieces(s@.skip(i + 1), range_sep())
                    =~= text::texts(out0) + text::pieces(rest, range_sep()));
            }
            start = i + 1;
        }
        i += 1;
    }
    let ghost rest = s@.skip(start as int);
    let ghost out0 = out@;
    proof {
        text::lemma_scan_is(rest, range_sep(), rest.len() as int);
        assert(s@.subrange(start as int, s@.len() as int) =~= rest);
    }
    out.push(slice_subrange(s, start, s.len()));
    proof {
        assert(text::texts(out@) =~= text::texts(out0) + text::pieces(rest, range_sep()));
    }
    out
}

/// The bounds that one trimmed piece of a CPU list denotes.
fn parse_piece(p: &[char]) -> (r: Option<(u64, u64)>)
    ensures
        match r {
            Some((lo, hi)) => piece_range(p@) == Some((lo as nat, hi as nat)) && lo <= hi,
            None => piece_range(p@) is None,
        },
{
    let d = text::find_char(p, '-');
    if d < p.len() {
        proof {
            assert(p@.subrange(0, d as int) =~= p@.take(d as int));
            assert(p@.subrange(d + 1, p@.len() as int) =~= p@.skip(d + 1));
        }
        match text::parse_unsigned(slice_subrange(p, 0, d), u64::MAX) {
            None => None,
            Some(a) => {
                if a == u64::MAX {
                    return None;
                }
                match text::parse_unsigned(slice_subrange(p, d + 1, p.len()), u64::MAX) {
                    None => Some((a, a)),
                    Some(b) => if a <= b {
                        Some((a, b))
                    } else {
                        Some((b, a))
                    },
                }
            },
        }
    } else {
        match text::parse_unsigned(p, u64::MAX) {
            None => None,
            Some(a) => if a == u64::MAX {
                None
            } else {
                Some((a, a))
            },
        }
    }
}

/// Reads a CPU list such as `0-3,6-7` or `0 1 2`; with `present`, CPUs that
/// are not in it are left out.
pub fn parse_cpu_ranges(spec: &str, present: Option<&CpuSet>) -> (r: CpuSet)
    ensures
        r@ == match present {
            Some(p) => range_cpus(spec@).intersect(p@),
            None => range_cpus(spec@),
        },
{
    let chars = text::chars_of(spec);
    let parts = range_pieces(chars.as_slice());
    let ghost ps = text::pieces(spec@, range_sep());
    let mut set = CpuSet::new();
    let mut k: usize = 0;
    while k < parts.len()
        invariant
            0 <= k <= parts@.len(),
            text::texts(parts@) == ps,
            forall|c: int|
                #[trigger] set@.contains(c) <==> 0 <= c < 1024 && pieces_name(
                    ps.take(k as int),
                    c,
                ) && (present matches Some(p) ==> p@.contains(c)),
        decreases parts@.len() - k,
    {
        let part = text::trim_of(parts[k]);
        let ghost set0 = set@;
        let range = parse_piece(part);
        proof {
            assert(ps[k as int] == parts@[k as int]@);
            lemma_names_push(ps, k as int);
        }
        match range {
            Some((lo, hi)) => {
                let mut i: u64 = lo;
                while i <= hi && i < 1024
                    invariant
                        lo <= i,
                        lo <= hi,
                        i <= 1024 || i == lo,
                        forall|c: int|
                            #[trigger] set@.contains(c) <==> set0.contains(c) || (0 <= c < 1024
                                && lo <= c < i && c <= hi && (present matches Some(p)
                                ==> p@.contains(c))),
                    decreases 1024 - i,
                {
                    let keep = match present {
                        Some(p) => p.is_set(i as usize),
                        None => true,
                    };
                    if keep {
                        set.set(i as usize);
                    }
                    i += 1;
                }
            },
            None => {},
        }
        k += 1;
    }
    proof {
        assert(ps.take(k as int) =~= ps);
        assert(set@ =~= match present {
            Some(p) => range_cpus(spec@).intersect(p@),
            None => range_cpus(spec@),
        });
    }
    set
}

/// The first `k + 1` pieces name what the first `k` or the next one name.
proof fn lemma_names_push(ps: Seq<Seq<char>>, k: int)
    requires
        0 <= k < ps.len(),
    ensures
        forall|c: int|
            #[trigger] pieces_name(ps.take(k + 1), c) == (pieces_name(ps.take(k), c)
                || piece_names(ps[k], c)),
{
    assert forall|c: int|
        #[trigger] pieces_name(ps.take(k + 1), c) == (pieces_name(ps.take(k), c) || piece_names(
            ps[k],
            c,
        )) by {
        let a = ps.take(k + 1);
        let b = ps.take(k);
        if pieces_name(a, c) {
            let i = choose|i: int| 0 <= i < a.len() && #[trigger] piece_names(a[i], c);
            if i < k {
                assert(piece_names(b[i], c));
            }
        }
        if pieces_name(b, c) {
            let i = choose|i: int| 0 <= i < b.len() && #[trigger] piece_names(b[i], c);
            assert(piece_names(a[i], c));
        }
        if piece_names(ps[k], c) {
            assert(piece_names(a[k], c));
        }
    }
}

impl CpuSet {
    /// The CPUs in ascending order.
    pub fn iter(&self) -> (r: Vec<usize>)
        ensures
            forall|c: int| #[trigger] self@.contains(c) <==> r@.contains(c as usize) && 0 <= c < 1024,
            forall|i: int, j: int| 0 <= i < j < r@.len() ==> r@[i] < r@[j],
            forall|i: int| 0 <= i < r@.len() ==> #[trigger] r@[i] < 1024,
    {
        let mut out: Vec<usize> = Vec::new();
        let mut i: usize = 0;
        while i < CPU_SETSIZE
            invariant
                0 <= i <= 1024,
                forall|c: int| 0 <= c < i && #[trigger] self@.contains(c) ==> out@.contains(c as usize),
                forall|j: int| 0 <= j < out@.len() ==> #[trigger] out@[j] < i && self@.contains(
                    out@[j] as int,
                ),
                forall|j: int, k: int| 0 <= j < k < out@.len() ==> out@[j] < out@[k],
            decreases 1024 - i,
        {
            let ghost out0 = out@;
            if self.is_set(i) {
                out.push(i);
                proof {
                    assert(out@[out@.len() - 1] == i);
                    assert forall|c: int| 0 <= c < i + 1 && #[trigger] self@.contains(
                        c,
                    ) implies out@.contains(c as usize) by {
                        if c < i {
                            let j = choose|j: int| 0 <= j < out0.len() && out0[j] == c as usize;
                            assert(out@[j] == c as usize);
                        }
                    }
                }
            }
            i += 1;
        }
        proof {
            lemma_cpuset_finite(*self);
            assert forall|c: int| #[trigger] self@.contains(c) <==> out@.contains(c as usize) && 0
                <= c < 1024 by {
                if out@.contains(c as usize) && 0 <= c < 1024 {
                    let j = choose|j: int| 0 <= j < out@.len() && out@[j] == c as usize;
                    assert(self@.contains(out@[j] as int));
                }
            }
        }
        out
    }

    /// Compact range notation, such as `0-3,6-7`.
    pub fn to_range_string(&self) -> (r: String)
        ensures
            r@ == range_text(self@),
    {
        let mut out = String::new();
        let mut i: usize = 0;
        let ghost mut done: Seq<(int, int)> = Seq::empty();
        proof {
            lemma_cpuset_finite(*self);
            assert(run_texts(done) =~= Seq::<Seq<char>>::empty());
            assert(out@ =~= text::join(run_texts(done), seq![',']));
            assert(done + runs(self@, 0) =~= runs(self@, 0));
        }
        while i < CPU_SETSIZE
            invariant
                0 <= i <= 1024,
                out@ == text::join(run_texts(done), seq![',']),
                done + runs(self@, i as int) == runs(self@, 0),
                done.len() == 0 <==> out@.len() == 0,
            decreases 1024 - i,
        {
            if self.is_set(i) {
                let lo: usize = i;
                let mut hi: usize = i;
                while hi + 1 < CPU_SETSIZE && self.is_set(hi + 1)
                    invariant
                        0 <= lo <= hi < 1024,
                        run_end(self@, lo as int) == run_end(self@, hi as int),
                    decreases 1024 - hi,
                {
                    hi += 1;
                }
                let ghost run = (lo as int, hi as int);
                let ghost out0 = out@;
                let ghost done0 = done;
                proof {
                    assert(run_end(self@, lo as int) == hi);
                    text::lemma_join_push(run_texts(done), seq![','], run_text(run));
                    assert(run_texts(done.push(run)) =~= run_texts(done).push(run_text(run)));
                    text::lemma_decimal(lo as nat);
                    done = done.push(run);
                    assert(done + runs(self@, hi + 1) =~= done0 + runs(self@, i as int));
                }
                push_range(&mut out, lo, hi);
                proof {
                    assert(out@ =~= text::join(run_texts(done), seq![',']));
                }
                i = hi + 1;
            } else {
                i += 1;
            }
        }
        proof {
            assert(done + runs(self@, i as int) =~= done);
        }
        out
    }

    /// The CPUs that the kernel lets a task run on: the first line of a
    /// `/proc/<tid>/status` text that begins with `Cpus_allowed_list:` holds
    /// them. None without such a line, or with an empty list on it.
    pub fn read_allowed_mask(content: &str) -> (r: Option<CpuSet>)
        ensures
            match r {
                Some(set) => allowed_list(content@) matches Some(l) && set@ == range_cpus(l),
                None => allowed_list(content@) is None,
            },
    {
        let chars = text::chars_of(content);
        let lines = text::lines_of(chars.as_slice());
        let key = text::chars_of("Cpus_allowed_list:");
        let ghost all = text::lines(content@);
        let mut i: usize = 0;
        proof {
            assert(all.skip(0) =~= all);
        }
        while i < lines.len()
            invariant
                0 <= i <= lines@.len(),
                text::texts(lines@) == all,
                all == text::lines(content@),
                key@ == "Cpus_allowed_list:"@,
                allowed_in(all) == allowed_in(all.skip(i as int)),
            decreases lines@.len() - i,
        {
            proof {
                assert(all.skip(i as int)[0] == lines@[i as int]@);
                assert(all.skip(i as int).skip(1) =~= all.skip(i + 1));
            }
            if text::begins_chars(lines[i], key.as_slice()) {
                let line = lines[i];
                proof {
                    assert(line@.subrange(key@.len() as int, line@.len() as int) =~= line@.skip(
                        key@.len() as int,
                    ));
                }
                let list = text::trim_of(slice_subrange(line, key.len(), line.len()));
                if list.len() == 0 {
                    return None;
                }
                let s = text::string_of(list);
                return Some(parse_cpu_ranges(s.as_str(), None));
            }
            i += 1;
        }
        None
    }
}

/// The text after the first `Cpus_allowed_list:` at the start of a line, if
/// it is not blank.
pub open spec fn allowed_list(content: Seq<char>) -> Option<Seq<char>> {
    allowed_in(text::lines(content))
}

/// `allowed_list` on the lines of a text.
pub open spec fn allowed_in(all: Seq<Seq<char>>) -> Option<Seq<char>>
    decreases all.len(),
{
    let key = "Cpus_allowed_list:"@;
    if all.len() == 0 {
        None
    } else if text::starts_with(all[0], key) {
        let list = text::trim(all[0].skip(key.len() as int));
        if list.len() == 0 {
            None
        } else {
            Some(list)
        }
    } else {
        allowed_in(all.skip(1))
    }
}

/// Appends one run, after a comma if something stands there already.
fn push_range(s: &mut String, lo: usize, hi: usize)
    ensures
        final(s)@ == if old(s)@.len() == 0 {
            run_text((lo as int, hi as int))
        } else {
            old(s)@ + seq![','] + run_text((lo as int, hi as int))
        },
{
    if !s.as_str().is_empty() {
        s.push(',');
    }
    text::push_decimal(s, lo as u64);
    if lo != hi {
        s.push('-');
        text::push_decimal(s, hi as u64);
    }
    proof {
        if old(s)@.len() == 0 {
            assert(s@ =~= run_text((lo as int, hi as int)));
        } else {
            assert(s@ =~= old(s)@ + seq![','] + run_text((lo as int, hi as int)));
        }
    }
}

// ---------------------------------------------------------------------
// Laws of the range notation
// ---------------------------------------------------------------------

/// The runs of `s` cover exactly the CPUs of `s`.
proof fn lemma_runs(s: Set<int>, from: int)
    requires
        0 <= from <= 1024,
    ensures
        forall|i: int|
            0 <= i < runs(s, from).len() ==> from <= (#[trigger] runs(s, from)[i]).0 <= runs(
                s,
                from,
            )[i].1 < 1024,
        forall|c: int|
            from <= c < 1024 ==> (#[trigger] s.contains(c) <==> in_runs(runs(s, from), c)),
    decreases 1024 - from,
{
    let r = runs(s, from);
    if from < 1024 {
        if s.contains(from) {
            lemma_run_end(s, from);
            let hi = run_end(s, from);
            lemma_runs(s, hi + 1);
            let rest = runs(s, hi + 1);
            assert forall|i: int| 0 <= i < r.len() implies from <= (#[trigger] r[i]).0 <= r[i].1
                < 1024 by {
                if i > 0 {
                    assert(r[i] == rest[i - 1]);
                }
            }
            assert forall|c: int| from <= c < 1024 implies (#[trigger] s.contains(c) <==> in_runs(
                r,
                c,
            )) by {
                if s.contains(c) {
                    if c <= hi {
                        assert(r[0].0 <= c <= r[0].1);
                    } else {
                        let i = choose|i: int|
                            0 <= i < rest.len() && (#[trigger] rest[i]).0 <= c <= rest[i].1;
                        assert(r[i + 1] == rest[i]);
                    }
                }
                if in_runs(r, c) {
                    let i = choose|i: int| 0 <= i < r.len() && (#[trigger] r[i]).0 <= c <= r[i].1;
                    if i > 0 {
                        assert(rest[i - 1] == r[i]);
                        assert(in_runs(rest, c));
                    }
                }
            }
        } else {
            lemma_runs(s, from + 1);
            assert forall|c: int| from <= c < 1024 implies (#[trigger] s.contains(c) <==> in_runs(
                r,
                c,
            )) by {
                if c == from && in_runs(r, c) {
                    let i = choose|i: int| 0 <= i < r.len() && (#[trigger] r[i]).0 <= c <= r[i].1;
                    assert(r[i].0 >= from + 1);
                }
            }
        }
    }
}

/// Whether a list of runs covers a CPU.
pub open spec fn in_runs(r: Seq<(int, int)>, c: int) -> bool {
    exists|i: int| 0 <= i < r.len() && (#[trigger] r[i]).0 <= c <= r[i].1
}

/// A run in range notation reads back as that run.
proof fn lemma_run_text(lo: int, hi: int)
    requires
        0 <= lo <= hi < 1024,
    ensures
        piece_range(text::trim(run_text((lo, hi)))) == Some((lo as nat, hi as nat)),
        forall|j: int|
            0 <= j < run_text((lo, hi)).len() ==> !range_sep()(#[trigger] run_text((lo, hi))[j]),
{
    let t = run_text((lo, hi));
    let a = text::decimal(lo as nat);
    let b = text::decimal(hi as nat);
    text::lemma_decimal(lo as nat);
    text::lemma_decimal(hi as nat);
    assert(text::is_digit(a[0]) && text::is_digit(a[a.len() - 1]));
    assert(text::is_digit(b[0]) && text::is_digit(b[b.len() - 1]));
    assert(t[0] == a[0]);
    assert(t.last() == if lo == hi { a.last() } else { b.last() });
    text::lemma_scan_is(t, text::not_white(), 0);
    assert(t.skip(0) =~= t);
    assert(text::trim(t) == t);
    if lo == hi {
        assert(t == a);
        text::lemma_scan_is(t, text::is_char('-'), t.len() as int);
    } else {
        let d = a.len() as int;
        assert forall|i: int| 0 <= i < d implies !text::is_char('-')(#[trigger] t[i]) by {
            assert(t[i] == a[i]);
        }
        assert(t[d] == '-');
        text::lemma_scan_is(t, text::is_char('-'), d);
        assert(t.take(d) =~= a);
        assert(t.skip(d + 1) =~= b);
    }
    assert forall|j: int| 0 <= j < t.len() implies !range_sep()(#[trigger] t[j]) by {
        if j < a.len() {
            assert(t[j] == a[j]);
        } else if j > a.len() {
            assert(t[j] == b[j - a.len() - 1]);
        }
    }
}

/// A text joined with commas falls into the pieces of its parts.
proof fn lemma_pieces_comma(x: Seq<char>, y: Seq<char>)
    ensures
        text::pieces(x + seq![','] + y, range_sep()) == text::pieces(x, range_sep())
            + text::pieces(y, range_sep()),
    decreases x.len(),
{
    let sep = range_sep();
    let t = x + seq![','] + y;
    text::lemma_scan(x, sep);
    let n = text::scan(x, sep);
    assert forall|i: int| 0 <= i < n implies !sep(#[trigger] t[i]) by {
        assert(t[i] == x[i]);
    }
    if n < x.len() {
        assert(t[n] == x[n]);
        text::lemma_scan_is(t, sep, n);
        assert(t.take(n) =~= x.take(n));
        assert(t.skip(n + 1) =~= x.skip(n + 1) + seq![','] + y);
        lemma_pieces_comma(x.skip(n + 1), y);
        assert(text::pieces(t, sep) =~= text::pieces(x, sep) + text::pieces(y, sep));
    } else {
        assert(t[n] == ',');
        text::lemma_scan_is(t, sep, n);
        assert(t.take(n) =~= x);
        assert(t.skip(n + 1) =~= y);
        assert(text::pieces(t, sep) =~= text::pieces(x, sep) + text::pieces(y, sep));
    }
}

/// Joining parts without separators and cutting again gives the parts.
proof fn lemma_pieces_join(parts: Seq<Seq<char>>)
    requires
        parts.len() > 0,
        forall|i: int, j: int|
            0 <= i < parts.len() && 0 <= j < parts[i].len() ==> !range_sep()(
                #[trigger] parts[i][j],
            ),
    ensures
        text::pieces(text::join(parts, seq![',']), range_sep()) == parts,
    decreases parts.len(),
{
    let last = parts.last();
    text::lemma_scan_is(last, range_sep(), last.len() as int);
    assert(text::pieces(last, range_sep()) =~= seq![last]);
    if parts.len() == 1 {
        assert(seq![last] =~= parts);
    } else {
        let front = parts.drop_last();
        assert forall|i: int, j: int|
            0 <= i < front.len() && 0 <= j < front[i].len() implies !range_sep()(
            #[trigger] front[i][j],
        ) by {
            assert(front[i] == parts[i]);
            assert(!range_sep()(parts[i][j]));
        }
        lemma_pieces_join(front);
        lemma_pieces_comma(text::join(front, seq![',']), last);
        assert(front + seq![last] =~= parts);
    }
}

/// Reading the range notation of a set of CPUs gives that set back.
pub proof fn law_range_round_trip(s: Set<int>)
    requires
        forall|c: int| #[trigger] s.contains(c) ==> 0 <= c < 1024,
    ensures
        range_cpus(range_text(s)) == s,
{
    let r = runs(s, 0);
    let t = range_text(s);
    let ps = text::pieces(t, range_sep());
    lemma_runs(s, 0);
    if r.len() == 0 {
        assert(t =~= Seq::<char>::empty());
        text::lemma_scan_is(t, range_sep(), 0);
        assert(ps =~= seq![t]);
        text::lemma_scan_is(t, text::not_white(), 0);
        assert(text::trim(t) =~= t);
        text::lemma_scan_is(t, text::is_char('-'), 0);
        assert(piece_range(t) is None);
        assert forall|c: int| !pieces_name(ps, c) by {
            if pieces_name(ps, c) {
                let i = choose|i: int| 0 <= i < ps.len() && #[trigger] piece_names(ps[i], c);
                assert(ps[i] == t);
            }
        }
        assert forall|c: int| !s.contains(c) by {
            if s.contains(c) {
                assert(in_runs(r, c));
            }
        }
        assert(range_cpus(t) =~= s);
    } else {
        let parts = run_texts(r);
        assert forall|i: int, j: int|
            0 <= i < parts.len() && 0 <= j < parts[i].len() implies !range_sep()(
            #[trigger] parts[i][j],
        ) by {
            lemma_run_text(r[i].0, r[i].1);
            assert(parts[i] == run_text((r[i].0, r[i].1)));
        }
        lemma_pieces_join(parts);
        assert(ps == parts);
        assert forall|c: int| 0 <= c < 1024 implies pieces_name(ps, c) == #[trigger] s.contains(
            c,
        ) by {
            if s.contains(c) {
                assert(in_runs(r, c));
                let i = choose|i: int| 0 <= i < r.len() && (#[trigger] r[i]).0 <= c <= r[i].1;
                lemma_run_text(r[i].0, r[i].1);
                assert(piece_names(ps[i], c));
            }
            if pieces_name(ps, c) {
                let i = choose|i: int| 0 <= i < ps.len() && #[trigger] piece_names(ps[i], c);
                lemma_run_text(r[i].0, r[i].1);
                assert(r[i].0 <= c <= r[i].1);
                assert(in_runs(r, c));
            }
        }
        assert(range_cpus(t) =~= s);
    }
}

// ---------------------------------------------------------------------
// Clusters
// ---------------------------------------------------------------------

/// The rank of a group of CPUs of equal capacity.
#[derive(Clone, Copy, Debug, PartialEq, Eq, Structural)]
pub enum CpuClusterKind {
    /// The group of highest capacity.
    Prime,
    /// Performance cores.
    Big,
    /// The lower of two or more middle groups.
    Mid,
    /// Efficiency cores.
    Little,
    /// All cores alike, or nothing known.
    Unknown,
}

impl CpuClusterKind {
    /// The name of the kind in configuration files.
    pub open spec fn name(&self) -> Seq<char> {
        match self {
            CpuClusterKind::Prime => "prime"@,
            CpuClusterKind::Big => "big"@,
            CpuClusterKind::Mid => "mid"@,
            CpuClusterKind::Little => "little"@,
            CpuClusterKind::Unknown => "unknown"@,
        }
    }

    /// The name of the kind in configuration files.
    pub fn config_name(&self) -> (r: &'static str)
        ensures
            r@ == self.name(),
    {
        match self {
            CpuClusterKind::Prime => "prime",
            CpuClusterKind::Big => "big",
            CpuClusterKind::Mid => "mid",
            CpuClusterKind::Little => "little",
            CpuClusterKind::Unknown => "unknown",
        }
    }
}

/// Two groups count as two kinds of big cores only if the lower capacity is
/// above this.
pub const ALL_BIG_MIN_CAPACITY: u32 = 300;

/// Whether two groups, with these capacities, are both made of big cores: the
/// higher is less than twice the lower, and the lower is not small.
pub open spec fn all_big(low: u32, high: u32) -> bool {
    high < 2 * low && low > ALL_BIG_MIN_CAPACITY
}

/// The kind of group `i` of `caps.len()` groups, by their ascending
/// capacities.
pub open spec fn cluster_kind(caps: Seq<u32>, i: int) -> CpuClusterKind {
    let n = caps.len() as int;
    if n == 1 {
        CpuClusterKind::Unknown
    } else if n == 2 {
        if all_big(caps[0], caps[1]) {
            if i == 0 {
                CpuClusterKind::Big
            } else {
                CpuClusterKind::Prime
            }
        } else if i == 0 {
            CpuClusterKind::Little
        } else {
            CpuClusterKind::Big
        }
    } else if i == 0 {
        CpuClusterKind::Little
    } else if i == n - 1 {
        CpuClusterKind::Prime
    } else if n >= 4 && i == 1 {
        CpuClusterKind::Mid
    } else {
        CpuClusterKind::Big
    }
}

/// The capacities of capacity groups.
pub open spec fn group_caps(groups: Seq<(u32, Vec<usize>)>) -> Seq<u32> {
    Seq::new(groups.len(), |i: int| groups[i].0)
}

/// The kinds of capacity groups, given in ascending order of capacity.
pub fn classify_clusters(groups: &[(u32, Vec<usize>)]) -> (r: Vec<CpuClusterKind>)
    ensures
        r@.len() == groups@.len(),
        forall|i: int|
            0 <= i < r@.len() ==> #[trigger] r@[i] == cluster_kind(group_caps(groups@), i),
{
    let n: usize = groups.len();
    let mut kinds: Vec<CpuClusterKind> = Vec::new();
    let mut i: usize = 0;
    while i < n
        invariant
            0 <= i <= n,
            n == groups@.len(),
            kinds@.len() == i,
            forall|j: int|
                0 <= j < i ==> #[trigger] kinds@[j] == cluster_kind(group_caps(groups@), j),
        decreases n - i,
    {
        let kind = if n == 1 {
            CpuClusterKind::Unknown
        } else if n == 2 {
            let low: u32 = groups[0].0;
            let high: u32 = groups[1].0;
            if (high as u64) < 2 * (low as u64) && low > ALL_BIG_MIN_CAPACITY {
                if i == 0 {
                    CpuClusterKind::Big
                } else {
                    CpuClusterKind::Prime
                }
            } else if i == 0 {
                CpuClusterKind::Little
            } else {
                CpuClusterKind::Big
            }
        } else if i == 0 {
            CpuClusterKind::Little
        } else if i == n - 1 {
            CpuClusterKind::Prime
        } else if n >= 4 && i == 1 {
            CpuClusterKind::Mid
        } else {
            CpuClusterKind::Big
        };
        kinds.push(kind);
        i += 1;
    }
    kinds
}

/// A group of CPUs of equal capacity.
#[derive(Debug)]
pub struct CpuCluster {
    pub kind: CpuClusterKind,
    pub cpus: CpuSet,
    pub range_str: String,
    pub capacity: u32,
}

impl Clone for CpuCluster {
    fn clone(&self) -> (r: CpuCluster)
        ensures
            r == *self,
    {
        CpuCluster {
            kind: self.kind,
            cpus: self.cpus,
            range_str: self.range_str.clone(),
            capacity: self.capacity,
        }
    }
}

/// What one directory under `/sys/devices/system/cpu` says: its name and the
/// text of its `cpu_capacity`.
#[derive(Debug)]
pub struct CapacityReading {
    pub name: String,
    pub capacity: String,
}

impl CapacityReading {
    /// The capacity and the CPU number, if both can be read.
    pub open spec fn group_member(&self) -> Option<(u32, nat)> {
        if text::starts_with(self.name@, "cpu"@) {
            match (
                text::unsigned(self.name@.skip(3), u64::MAX as nat),
                text::unsigned(text::trim(self.capacity@), u32::MAX as nat),
            ) {
                (Some(cpu), Some(cap)) => Some((cap as u32, cpu)),
                _ => None,
            }
        } else {
            None
        }
    }

    fn parse(&self) -> (r: Option<(u32, u64)>)
        ensures
            match r {
                Some((cap, cpu)) => self.group_member() == Some((cap, cpu as nat)),
                None => self.group_member() is None,
            },
    {
        let name = text::chars_of(self.name.as_str());
        proof {
            reveal_strlit("cpu");
        }
        if !text::begins(name.as_slice(), "cpu") {
            return None;
        }
        proof {
            assert(name@.subrange(3, name@.len() as int) =~= name@.skip(3));
        }
        let cap_chars = text::chars_of(self.capacity.as_str());
        match (
            text::parse_unsigned(slice_subrange(name.as_slice(), 3, name.len()), u64::MAX),
            text::parse_unsigned(text::trim_of(cap_chars.as_slice()), 0xFFFF_FFFF),
        ) {
            (Some(cpu), Some(cap)) => Some((cap as u32, cpu)),
            _ => None,
        }
    }
}

/// Whether one of the readings gives `cpu` the capacity `cap`.
pub open spec fn reads_as(readings: Seq<CapacityReading>, cap: u32, cpu: int) -> bool {
    exists|i: int|
        0 <= i < readings.len() && #[trigger] readings[i].group_member() == Some(
            (cap, cpu as nat),
        ) && cpu >= 0
}

/// Whether one of the readings has the capacity `cap`.
pub open spec fn reads_capacity(readings: Seq<CapacityReading>, cap: u32) -> bool {
    exists|i: int|
        0 <= i < readings.len() && (#[trigger] readings[i].group_member() matches Some(m) && m.0
            == cap)
}

/// Whether a list of clusters groups the readings: one cluster for each
/// capacity that was read, in ascending order, with the CPUs of that capacity
/// and the kind that its rank gives it.
pub open spec fn groups_readings(
    clusters: Seq<CpuCluster>,
    readings: Seq<CapacityReading>,
) -> bool {
    let caps = Seq::new(clusters.len(), |i: int| clusters[i].capacity);
    &&& forall|i: int, j: int|
        0 <= i < j < clusters.len() ==> clusters[i].capacity < clusters[j].capacity
    &&& forall|cap: u32| #[trigger]
        reads_capacity(readings, cap) <==> caps.contains(cap)
    &&& forall|i: int|
        0 <= i < clusters.len() ==> {
            let c = #[trigger] clusters[i];
            &&& c.cpus@ == Set::new(
                |cpu: int| 0 <= cpu < 1024 && reads_as(readings, c.capacity, cpu),
            )
            &&& c.range_str@ == range_text(c.cpus@)
            &&& c.kind == cluster_kind(caps, i)
        }
}

/// The same for capacity groups that are not yet classified.
spec fn grouped(groups: Seq<(u32, Vec<usize>)>, readings: Seq<CapacityReading>) -> bool {
    &&& forall|i: int, j: int| 0 <= i < j < groups.len() ==> groups[i].0 < groups[j].0
    &&& forall|cap: u32| #[trigger]
        reads_capacity(readings, cap) <==> group_caps(groups).contains(cap)
    &&& forall|i: int, cpu: int|
        0 <= i < groups.len() && 0 <= cpu < 1024 ==> (groups[i].1@.contains(cpu as usize)
            <==> #[trigger] reads_as(readings, groups[i].0, cpu))
}

/// What one more reading adds.
proof fn lemma_one_more_reading(readings: Seq<CapacityReading>, k: int)
    requires
        0 <= k < readings.len(),
    ensures
        forall|cap: u32, cpu: int|
            #[trigger] reads_as(readings.take(k + 1), cap, cpu) == (reads_as(
                readings.take(k),
                cap,
                cpu,
            ) || (cpu >= 0 && readings[k].group_member() == Some((cap, cpu as nat)))),
        forall|cap: u32|
            #[trigger] reads_capacity(readings.take(k + 1), cap) == (reads_capacity(
                readings.take(k),
                cap,
            ) || (readings[k].group_member() matches Some(m) && m.0 == cap)),
{
    let a = readings.take(k + 1);
    let b = readings.take(k);
    assert(a[k] == readings[k]);
    assert forall|cap: u32, cpu: int|
        #[trigger] reads_as(a, cap, cpu) == (reads_as(b, cap, cpu) || (cpu >= 0
            && readings[k].group_member() == Some((cap, cpu as nat)))) by {
        if reads_as(a, cap, cpu) {
            let i = choose|i: int|
                0 <= i < a.len() && #[trigger] a[i].group_member() == Some((cap, cpu as nat))
                    && cpu >= 0;
            if i < k {
                assert(b[i] == a[i]);
            }
        }
        if reads_as(b, cap, cpu) {
            let i = choose|i: int|
                0 <= i < b.len() && #[trigger] b[i].group_member() == Some((cap, cpu as nat))
                    && cpu >= 0;
            assert(a[i] == b[i]);
        }
    }
    assert forall|cap: u32|
        #[trigger] reads_capacity(a, cap) == (reads_capacity(b, cap) || (
        readings[k].group_member() matches Some(m) && m.0 == cap)) by {
        if reads_capacity(a, cap) {
            let i = choose|i: int|
                0 <= i < a.len() && (#[trigger] a[i].group_member() matches Some(m) && m.0 == cap);
            if i < k {
                assert(b[i] == a[i]);
            }
        }
        if reads_capacity(b, cap) {
            let i = choose|i: int|
                0 <= i < b.len() && (#[trigger] b[i].group_member() matches Some(m) && m.0 == cap);
            assert(a[i] == b[i]);
        }
    }
}

/// Adds a CPU to the group of its capacity, making the group if need be.
fn add_member(groups: &mut Vec<(u32, Vec<usize>)>, cap: u32, cpu: u64)
    requires
        forall|i: int, j: int|
            0 <= i < j < old(groups)@.len() ==> old(groups)@[i].0 < old(groups)@[j].0,
    ensures
        forall|i: int, j: int|
            0 <= i < j < final(groups)@.len() ==> final(groups)@[i].0 < final(groups)@[j].0,
        forall|c: u32|
            #[trigger] group_caps(final(groups)@).contains(c) <==> group_caps(
                old(groups)@,
            ).contains(c) || c == cap,
        forall|i: int, x: usize|
            0 <= i < final(groups)@.len() ==> (#[trigger] final(groups)@[i].1@.contains(x) <==> (
            final(groups)@[i].0 == cap && x == cpu && cpu < 1024) || (exists|j: int|
                0 <= j < old(groups)@.len() && (#[trigger] old(groups)@[j]).0 == final(groups)@[i].0 && old(groups)@[j].1@.contains(x))),
{
    let mut p: usize = 0;
    while p < groups.len() && groups[p].0 < cap
        invariant
            0 <= p <= groups@.len(),
            groups@ == old(groups)@,
            forall|j: int| 0 <= j < p ==> (#[trigger] groups@[j]).0 < cap,
        decreases groups@.len() - p,
    {
        p += 1;
    }
    let ghost old_groups = groups@;
    let ghost old_caps = group_caps(old_groups);
    if p < groups.len() && groups[p].0 == cap {
        if cpu < 1024 {
            let ghost list0 = groups@[p as int].1@;
            groups[p].1.push(cpu as usize);
            proof {
                let list1 = groups@[p as int].1@;
                assert(list1 == list0.push(cpu as usize));
                assert forall|x: usize| #[trigger] list1.contains(x) <==> list0.contains(x) || x
                    == cpu by {
                    if list0.contains(x) {
                        let j = choose|j: int| 0 <= j < list0.len() && list0[j] == x;
                        assert(list1[j] == x);
                    }
                    if x == cpu {
                        assert(list1[list0.len() as int] == x);
                    }
                }
            }
        }
        proof {
            assert(group_caps(groups@) =~= old_caps);
            assert(old_caps[p as int] == cap);
            assert forall|i: int, x: usize| 0 <= i < groups@.len() implies (
            #[trigger] groups@[i].1@.contains(x) <==> (groups@[i].0 == cap && x == cpu && cpu
                < 1024) || (exists|j: int|
                0 <= j < old_groups.len() && (#[trigger] old_groups[j]).0 == groups@[i].0
                    && old_groups[j].1@.contains(x))) by {
                assert(old_groups[i].0 == groups@[i].0);
            }
        }
    } else {
        let mut list: Vec<usize> = Vec::new();
        if cpu < 1024 {
            list.push(cpu as usize);
            proof {
                assert(list@ =~= seq![cpu as usize]);
            }
        }
        let ghost fresh = list@;
        proof {
            assert forall|x: usize| #[trigger] fresh.contains(x) <==> x == cpu && cpu < 1024 by {
                if x == cpu && cpu < 1024 {
                    assert(fresh[0] == x);
                }
            }
        }
        groups.insert(p, (cap, list));
        proof {
            let g = groups@;
            assert(g == old_groups.insert(p as int, (cap, list)));
            assert(g[p as int].0 == cap);
            assert forall|i: int, j: int| 0 <= i < j < g.len() implies g[i].0 < g[j].0 by {
                if i < p && j == p {
                    assert(old_groups[i].0 < cap);
                } else if i == p {
                    assert(g[j] == old_groups[j - 1]);
                    assert(old_groups[p as int].0 <= old_groups[j - 1].0);
                }
            }
            let caps = group_caps(g);
            assert forall|c: u32| #[trigger] caps.contains(c) <==> old_caps.contains(c) || c
                == cap by {
                if caps.contains(c) {
                    let i = choose|i: int| 0 <= i < caps.len() && caps[i] == c;
                    if i < p {
                        assert(old_caps[i] == c);
                    } else if i > p {
                        assert(old_caps[i - 1] == c);
                    }
                }
                if old_caps.contains(c) {
                    let i = choose|i: int| 0 <= i < old_caps.len() && old_caps[i] == c;
                    if i < p {
                        assert(caps[i] == c);
                    } else {
                        assert(caps[i + 1] == c);
                    }
                }
                if c == cap {
                    assert(caps[p as int] == c);
                }
            }
            assert forall|i: int, x: usize| 0 <= i < g.len() implies (
            #[trigger] g[i].1@.contains(x) <==> (g[i].0 == cap && x == cpu && cpu < 1024) || (
            exists|j: int|
                0 <= j < old_groups.len() && (#[trigger] old_groups[j]).0 == g[i].0
                    && old_groups[j].1@.contains(x))) by {
                if i < p {
                    assert(g[i] == old_groups[i]);
                } else if i > p {
                    assert(g[i] == old_groups[i - 1]);
                } else {
                    assert forall|j: int| 0 <= j < old_groups.len() implies (
                    #[trigger] old_groups[j]).0 != cap by {
                        if j > p {
                            assert(old_groups[p as int].0 < old_groups[j].0);
                        }
                    }
                }
            }
        }
    }
}

/// Groups the CPUs by capacity. Without a single capacity reading there is
/// one cluster of unknown kind with the CPUs of `online`, the text that lists
/// the CPUs that are online, or with none when that text is missing.
pub fn detect_clusters(readings: &[CapacityReading], online: Option<&str>) -> (r: Vec<CpuCluster>)
    ensures
        if forall|i: int| 0 <= i < readings@.len() ==> (#[trigger] readings@[i]).group_member()
            is None {
            &&& r@.len() == 1
            &&& r@[0].kind == CpuClusterKind::Unknown
            &&& r@[0].cpus@ == match online {
                Some(t) => range_cpus(text::trim(t@)),
                None => Set::<int>::empty(),
            }
            &&& r@[0].range_str@ == range_text(r@[0].cpus@)
            &&& r@[0].capacity == 0
        } else {
            groups_readings(r@, readings@)
        },
{
    let mut groups: Vec<(u32, Vec<usize>)> = Vec::new();
    let mut k: usize = 0;
    while k < readings.len()
        invariant
            0 <= k <= readings@.len(),
            grouped(groups@, readings@.take(k as int)),
            groups@.len() == 0 <==> (forall|i: int|
                0 <= i < k ==> (#[trigger] readings@[i]).group_member() is None),
        decreases readings@.len() - k,
    {
        let ghost before = groups@;
        let member = readings[k].parse();
        proof {
            lemma_one_more_reading(readings@, k as int);
        }
        match member {
            Some((cap, cpu)) => {
                add_member(&mut groups, cap, cpu);
                proof {
                    let g = groups@;
                    assert forall|i: int, c: int| 0 <= i < g.len() && 0 <= c < 1024 implies (
                    g[i].1@.contains(c as usize) <==> #[trigger] reads_as(
                        readings@.take(k + 1),
                        g[i].0,
                        c,
                    )) by {
                        if reads_as(readings@.take(k as int), g[i].0, c) {
                            let w = choose|w: int|
                                0 <= w < readings@.take(k as int).len() && #[trigger] readings@.take(
                                    k as int,
                                )[w].group_member() == Some((g[i].0, c as nat)) && c >= 0;
                            assert(reads_capacity(readings@.take(k as int), g[i].0));
                            let j = choose|j: int|
                                0 <= j < group_caps(before).len() && group_caps(before)[j]
                                    == g[i].0;
                            assert(before[j].0 == g[i].0);
                            assert(before[j].1@.contains(c as usize));
                        }
                        if exists|j: int|
                            0 <= j < before.len() && (#[trigger] before[j]).0 == g[i].0
                                && before[j].1@.contains(c as usize) {
                            let j = choose|j: int|
                                0 <= j < before.len() && (#[trigger] before[j]).0 == g[i].0
                                    && before[j].1@.contains(c as usize);
                            assert(reads_as(readings@.take(k as int), before[j].0, c));
                        }
                    }
                    assert(group_caps(g).contains(cap));
                    assert(readings@[k as int].group_member() is Some);
                }
            },
            None => {},
        }
        k += 1;
    }
    proof {
        assert(readings@.take(k as int) =~= readings@);
    }
    if groups.len() == 0 {
        let cpus = match online {
            Some(t) => {
                let list = text::trimmed(t);
                parse_cpu_ranges(list.as_str(), None)
            },
            None => CpuSet::new(),
        };
        let mut only: Vec<CpuCluster> = Vec::new();
        only.push(
            CpuCluster {
                kind: CpuClusterKind::Unknown,
                range_str: cpus.to_range_string(),
                cpus,
                capacity: 0,
            },
        );
        return only;
    }
    let kinds = classify_clusters(groups.as_slice());
    let mut clusters: Vec<CpuCluster> = Vec::new();
    let mut i: usize = 0;
    while i < groups.len()
        invariant
            0 <= i <= groups@.len(),
            kinds@.len() == groups@.len(),
            forall|j: int|
                0 <= j < kinds@.len() ==> #[trigger] kinds@[j] == cluster_kind(
                    group_caps(groups@),
                    j,
                ),
            grouped(groups@, readings@),
            clusters@.len() == i,
            forall|j: int|
                0 <= j < i ==> {
                    let c = #[trigger] clusters@[j];
                    &&& c.capacity == groups@[j].0
                    &&& c.cpus@ == Set::new(
                        |cpu: int| 0 <= cpu < 1024 && reads_as(readings@, c.capacity, cpu),
                    )
                    &&& c.range_str@ == range_text(c.cpus@)
                    &&& c.kind == kinds@[j]
                },
        decreases groups@.len() - i,
    {
        let cap: u32 = groups[i].0;
        let mut cpus = CpuSet::new();
        let mut m: usize = 0;
        while m < groups[i].1.len()
            invariant
                0 <= i < groups@.len(),
                0 <= m <= groups@[i as int].1@.len(),
                forall|c: int|
                    #[trigger] cpus@.contains(c) <==> 0 <= c < 1024
                        && groups@[i as int].1@.take(m as int).contains(c as usize),
            decreases groups@[i as int].1@.len() - m,
        {
            let cpu: usize = groups[i].1[m];
            let ghost list = groups@[i as int].1@;
            let ghost cpus0 = cpus@;
            cpus.set(cpu);
            proof {
                assert forall|c: int|
                    #[trigger] cpus@.contains(c) <==> 0 <= c < 1024 && list.take(m + 1).contains(
                        c as usize,
                    ) by {
                    let a = list.take(m + 1);
                    let b = list.take(m as int);
                    assert(cpus0.contains(c) <==> 0 <= c < 1024 && b.contains(c as usize));
                    if a.contains(c as usize) {
                        let j = choose|j: int| 0 <= j < a.len() && a[j] == c as usize;
                        if j < m {
                            assert(b[j] == c as usize);
                        }
                    }
                    if b.contains(c as usize) {
                        let j = choose|j: int| 0 <= j < b.len() && b[j] == c as usize;
                        assert(a[j] == c as usize);
                    }
                    if c == cpu {
                        assert(a[m as int] == cpu);
                    }
                }
            }
            m += 1;
        }
        proof {
            assert(groups@[i as int].1@.take(m as int) =~= groups@[i as int].1@);
            assert(cpus@ =~= Set::new(
                |cpu: int| 0 <= cpu < 1024 && reads_as(readings@, cap, cpu),
            ));
        }
        let range_str = cpus.to_range_string();
        clusters.push(CpuCluster { kind: kinds[i], range_str, cpus, capacity: cap });
        i += 1;
    }
    proof {
        let caps = Seq::new(clusters@.len(), |j: int| clusters@[j].capacity);
        assert(caps =~= group_caps(groups@));
    }
    clusters
}

// ---------------------------------------------------------------------
// Frequency domains
// ---------------------------------------------------------------------

/// What one directory under `/sys/devices/system/cpu/cpufreq` says: its name
/// and the texts of its two CPU lists.
#[derive(Debug)]
pub struct PolicyReading {
    pub name: String,
    pub related: Option<String>,
    pub affected: Option<String>,
}

impl PolicyReading {
    /// The CPU list in force: `related_cpus` names the whole domain, and
    /// `affected_cpus`, its online part, stands in where that is missing.
    pub open spec fn list(&self) -> Option<Seq<char>> {
        match self.related {
            Some(t) => Some(t@),
            None => match self.affected {
                Some(t) => Some(t@),
                None => None,
            },
        }
    }

    /// The number of the policy and the CPUs of its domain, if there are any.
    pub open spec fn domain(&self) -> Option<(nat, Set<int>)> {
        if text::starts_with(self.name@, "policy"@) {
            match (text::unsigned(self.name@.skip(6), u64::MAX as nat), self.list()) {
                (Some(n), Some(l)) => if range_cpus(text::trim(l)) == Set::<int>::empty() {
                    None
                } else {
                    Some((n, range_cpus(text::trim(l))))
                },
                _ => None,
            }
        } else {
            None
        }
    }

    fn parse(&self) -> (r: Option<(u64, CpuSet)>)
        ensures
            match r {
                Some((n, set)) => self.domain() == Some((n as nat, set@)),
                None => self.domain() is None,
            },
    {
        let name = text::chars_of(self.name.as_str());
        proof {
            reveal_strlit("policy");
        }
        if !text::begins(name.as_slice(), "policy") {
            return None;
        }
        proof {
            assert(name@.subrange(6, name@.len() as int) =~= name@.skip(6));
        }
        let n: u64 = match text::parse_unsigned(
            slice_subrange(name.as_slice(), 6, name.len()),
            u64::MAX,
        ) {
            Some(n) => n,
            None => {
                return None;
            },
        };
        let list = match &self.related {
            Some(t) => text::trimmed(t.as_str()),
            None => match &self.affected {
                Some(t) => text::trimmed(t.as_str()),
                None => {
                    return None;
                },
            },
        };
        let set = parse_cpu_ranges(list.as_str(), None);
        if set.count() > 0 {
            Some((n, set))
        } else {
            None
        }
    }
}

/// `d`, ordered by policy number, with `e` behind all entries whose number is
/// not above its own.
pub open spec fn place_domain(
    d: Seq<(nat, Set<int>)>,
    e: (nat, Set<int>),
) -> Seq<(nat, Set<int>)>
    decreases d.len(),
{
    if d.len() == 0 || d.last().0 <= e.0 {
        d.push(e)
    } else {
        place_domain(d.drop_last(), e).push(d.last())
    }
}

/// The domains of the readings, by policy number; readings of one number
/// keep their order.
pub open spec fn domains(readings: Seq<PolicyReading>) -> Seq<(nat, Set<int>)>
    decreases readings.len(),
{
    if readings.len() == 0 {
        Seq::empty()
    } else {
        let before = domains(readings.drop_last());
        match readings.last().domain() {
            Some(e) => place_domain(before, e),
            None => before,
        }
    }
}

spec fn domain_views(v: Seq<(u64, CpuSet)>) -> Seq<(nat, Set<int>)> {
    Seq::new(v.len(), |i: int| (v[i].0 as nat, v[i].1@))
}

proof fn lemma_place_domain(d: Seq<(nat, Set<int>)>, e: (nat, Set<int>), p: int)
    requires
        0 <= p <= d.len(),
        p > 0 ==> d[p - 1].0 <= e.0,
        forall|i: int| p <= i < d.len() ==> (#[trigger] d[i]).0 > e.0,
    ensures
        place_domain(d, e) == d.insert(p, e),
    decreases d.len(),
{
    if p == d.len() {
        assert(d.push(e) =~= d.insert(p, e));
    } else {
        let front = d.drop_last();
        assert forall|i: int| p <= i < front.len() implies (#[trigger] front[i]).0 > e.0 by {
            assert(front[i] == d[i]);
        }
        lemma_place_domain(front, e, p);
        assert(front.insert(p, e).push(d.last()) =~= d.insert(p, e));
    }
}

/// The frequency domains that the readings describe, by policy number.
pub fn detect_dvfs_domains(readings: &[PolicyReading]) -> (r: Vec<CpuSet>)
    ensures
        r@.len() == domains(readings@).len(),
        forall|i: int| 0 <= i < r@.len() ==> (#[trigger] r@[i])@ == domains(readings@)[i].1,
{
    let mut found: Vec<(u64, CpuSet)> = Vec::new();
    let mut k: usize = 0;
    proof {
        assert(domain_views(found@) =~= domains(readings@.take(0)));
    }
    while k < readings.len()
        invariant
            0 <= k <= readings@.len(),
            domain_views(found@) == domains(readings@.take(k as int)),
        decreases readings@.len() - k,
    {
        proof {
            assert(readings@.take(k + 1).drop_last() =~= readings@.take(k as int));
            assert(readings@.take(k + 1).last() == readings@[k as int]);
        }
        match readings[k].parse() {
            Some((n, set)) => {
                let mut p: usize = found.len();
                while p > 0 && found[p - 1].0 > n
                    invariant
                        0 <= p <= found@.len(),
                        forall|i: int| p <= i < found@.len() ==> (#[trigger] found@[i]).0 > n,
                    decreases p,
                {
                    p -= 1;
                }
                let ghost before = domain_views(found@);
                proof {
                    lemma_place_domain(before, (n as nat, set@), p as int);
                }
                found.insert(p, (n, set));
                proof {
                    assert(domain_views(found@) =~= before.insert(p as int, (n as nat, set@)));
                }
            },
            None => {},
        }
        k += 1;
    }
    proof {
        assert(readings@.take(k as int) =~= readings@);
    }
    let mut out: Vec<CpuSet> = Vec::new();
    let mut i: usize = 0;
    while i < found.len()
        invariant
            0 <= i <= found@.len(),
            out@.len() == i,
            forall|j: int| 0 <= j < i ==> #[trigger] out@[j] == found@[j].1,
        decreases found@.len() - i,
    {
        out.push(found[i].1);
        i += 1;
    }
    proof {
        assert forall|j: int| 0 <= j < out@.len() implies (#[trigger] out@[j])@ == domains(
            readings@,
        )[j].1 by {
            assert(domain_views(found@)[j].1 == found@[j].1@);
        }
    }
    out
}

// ---------------------------------------------------------------------
// The topology
// ---------------------------------------------------------------------

/// The machine's CPUs and the cpuset root.
#[derive(Debug)]
pub struct CpuTopology {
    pub present_cpus: CpuSet,
    pub present_str: String,
    pub online_cpus: CpuSet,
    pub online_str: String,
    pub mems_str: String,
    pub cpuset_enabled: bool,
    /// Descriptor of the cpuset root, held for the life of the process.
    pub base_cpuset_fd: i32,
    /// Clusters in ascending order of capacity.
    pub clusters: Vec<CpuCluster>,
    /// Frequency domains by policy number.
    pub dvfs_domains: Vec<CpuSet>,
}

/// Copies clusters.
pub fn copy_clusters(v: &Vec<CpuCluster>) -> (r: Vec<CpuCluster>)
    ensures
        r@ == v@,
{
    let mut out: Vec<CpuCluster> = Vec::new();
    let mut i: usize = 0;
    while i < v.len()
        invariant
            0 <= i <= v@.len(),
            out@ == v@.take(i as int),
        decreases v@.len() - i,
    {
        out.push(v[i].clone());
        proof {
            assert(out@ =~= v@.take(i + 1));
        }
        i += 1;
    }
    proof {
        assert(v@.take(i as int) =~= v@);
    }
    out
}

fn copy_sets(v: &Vec<CpuSet>) -> (r: Vec<CpuSet>)
    ensures
        r@ == v@,
{
    let mut out: Vec<CpuSet> = Vec::new();
    let mut i: usize = 0;
    while i < v.len()
        invariant
            0 <= i <= v@.len(),
            out@ == v@.take(i as int),
        decreases v@.len() - i,
    {
        out.push(v[i]);
        proof {
            assert(out@ =~= v@.take(i + 1));
        }
        i += 1;
    }
    proof {
        assert(v@.take(i as int) =~= v@);
    }
    out
}

impl Clone for CpuTopology {
    fn clone(&self) -> (r: CpuTopology)
        ensures
            r.present_cpus == self.present_cpus,
            r.present_str == self.present_str,
            r.online_cpus == self.online_cpus,
            r.online_str == self.online_str,
            r.mems_str == self.mems_str,
            r.cpuset_enabled == self.cpuset_enabled,
            r.base_cpuset_fd == self.base_cpuset_fd,
            r.clusters@ == self.clusters@,
            r.dvfs_domains@ == self.dvfs_domains@,
    {
        CpuTopology {
            present_cpus: self.present_cpus,
            present_str: self.present_str.clone(),
            online_cpus: self.online_cpus,
            online_str: self.online_str.clone(),
            mems_str: self.mems_str.clone(),
            cpuset_enabled: self.cpuset_enabled,
            base_cpuset_fd: self.base_cpuset_fd,
            clusters: copy_clusters(&self.clusters),
            dvfs_domains: copy_sets(&self.dvfs_domains),
        }
    }
}

impl Default for CpuTopology {
    /// No CPU, no cpuset.
    fn default() -> (r: CpuTopology)
        ensures
            r.present_cpus@ == Set::<int>::empty(),
            r.present_str@ == Seq::<char>::empty(),
            r.online_cpus@ == Set::<int>::empty(),
            r.online_str@ == Seq::<char>::empty(),
            r.mems_str@ == Seq::<char>::empty(),
            !r.cpuset_enabled,
            r.base_cpuset_fd == -1,
            r.clusters@.len() == 0,
            r.dvfs_domains@.len() == 0,
    {
        CpuTopology {
            present_cpus: CpuSet::new(),
            present_str: String::new(),
            online_cpus: CpuSet::new(),
            online_str: String::new(),
            mems_str: String::new(),
            cpuset_enabled: false,
            base_cpuset_fd: -1,
            clusters: Vec::new(),
            dvfs_domains: Vec::new(),
        }
    }
}

/// What sysfs says of the CPUs: the texts of `present` and `online`, and the
/// readings of the CPU and the policy directories.
#[derive(Debug)]
pub struct TopologyReadings {
    pub present: Option<String>,
    pub online: Option<String>,
    pub capacities: Vec<CapacityReading>,
    pub policies: Vec<PolicyReading>,
}

/// The trimmed text of a file, empty when the file could not be read.
pub open spec fn trimmed_or_empty(t: Option<String>) -> Seq<char> {
    match t {
        Some(x) => text::trim(x@),
        None => Seq::empty(),
    }
}

fn trim_or_empty(t: &Option<String>) -> (r: String)
    ensures
        r@ == trimmed_or_empty(*t),
{
    match t {
        Some(x) => text::trimmed(x.as_str()),
        None => String::new(),
    }
}

/// The topology that the readings describe, before the cpuset root is opened.
pub fn init_cpu_topo(readings: &TopologyReadings) -> (r: CpuTopology)
    ensures
        r.present_str@ == trimmed_or_empty(readings.present),
        r.present_cpus@ == range_cpus(r.present_str@),
        r.online_str@ == trimmed_or_empty(readings.online),
        r.online_cpus@ == range_cpus(r.online_str@),
        if forall|i: int|
            0 <= i < readings.capacities@.len() ==> (
            #[trigger] readings.capacities@[i]).group_member() is None {
            &&& r.clusters@.len() == 1
            &&& r.clusters@[0].kind == CpuClusterKind::Unknown
            &&& r.clusters@[0].cpus@ == match readings.online {
                Some(t) => range_cpus(text::trim(t@)),
                None => Set::<int>::empty(),
            }
            &&& r.clusters@[0].range_str@ == range_text(r.clusters@[0].cpus@)
            &&& r.clusters@[0].capacity == 0
        } else {
            groups_readings(r.clusters@, readings.capacities@)
        },
        r.dvfs_domains@.len() == domains(readings.policies@).len(),
        forall|i: int|
            0 <= i < r.dvfs_domains@.len() ==> (#[trigger] r.dvfs_domains@[i])@ == domains(
                readings.policies@,
            )[i].1,
        r.mems_str@ == Seq::<char>::empty(),
        !r.cpuset_enabled,
        r.base_cpuset_fd == -1,
{
    let mut topo = CpuTopology::default();
    topo.present_str = trim_or_empty(&readings.present);
    topo.present_cpus = parse_cpu_ranges(topo.present_str.as_str(), None);
    topo.online_str = trim_or_empty(&readings.online);
    topo.online_cpus = parse_cpu_ranges(topo.online_str.as_str(), None);
    let online: Option<&str> = match &readings.online {
        Some(t) => Some(t.as_str()),
        None => None,
    };
    topo.clusters = detect_clusters(readings.capacities.as_slice(), online);
    topo.dvfs_domains = detect_dvfs_domains(readings.policies.as_slice());
    topo
}

impl CpuTopology {
    /// Takes over what opening the cpuset root gave: `base_fd` is the
    /// descriptor, or None when the root directory could not be made, and
    /// `mems` the text of its `mems` file.
    pub fn attach_cpuset(&mut self, base_fd: Option<i32>, mems: Option<&str>)
        ensures
            final(self).base_cpuset_fd == match base_fd {
                Some(fd) => fd,
                None => old(self).base_cpuset_fd,
            },
            final(self).cpuset_enabled == match base_fd {
                Some(fd) => fd != -1,
                None => old(self).cpuset_enabled,
            },
            final(self).mems_str@ == match mems {
                Some(t) => text::trim(t@),
                None => "0"@,
            },
            final(self).present_cpus == old(self).present_cpus,
            final(self).present_str == old(self).present_str,
            final(self).online_cpus == old(self).online_cpus,
            final(self).online_str == old(self).online_str,
            final(self).clusters == old(self).clusters,
            final(self).dvfs_domains == old(self).dvfs_domains,
    {
        match base_fd {
            Some(fd) => {
                self.base_cpuset_fd = fd;
                self.cpuset_enabled = fd != -1;
            },
            None => {},
        }
        self.mems_str = match mems {
            Some(t) => text::trimmed(t),
            None => "0".to_owned(),
        };
    }
}

} // verus!
