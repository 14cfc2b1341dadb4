//! Character-level scanning primitives: runs of a character class, first
//! occurrence of a literal pattern, splitting at a pattern, and trimming.
//!
//! The spec functions here are the vocabulary in which the grammar is
//! stated; the executable functions are proved against them.

use vstd::prelude::*;
use vstd::string::*;

verus! {

/// A class of characters that the scanners recognize.
#[derive(Debug, Clone, Copy)]
pub enum CharClass {
    /// The header marker `#`.
    Hash,
    /// A space or tab, the separator inside a line.
    Space,
    /// An ASCII decimal digit.
    Digit,
    /// A space, tab, newline or carriage return, the set stripped by `trim`.
    Whitespace,
    /// Any character other than the given one.
    Not(char),
}

/// Whether a character belongs to a class.
pub open spec fn in_class(k: CharClass, c: char) -> bool {
    match k {
        CharClass::Hash => c == '#',
        CharClass::Space => c == ' ' || c == '\t',
        CharClass::Digit => '0' as u32 <= c as u32 && c as u32 <= '9' as u32,
        CharClass::Whitespace => c == ' ' || c == '\t' || c == '\n' || c == '\r',
        CharClass::Not(x) => c != x,
    }
}

/// Whether a character belongs to a class.
pub fn is_in_class(k: CharClass, c: char) -> (b: bool)
    ensures
        b == in_class(k, c),
{
    match k {
        CharClass::Hash => c == '#',
        CharClass::Space => c == ' ' || c == '\t',
        CharClass::Digit => '0' as u32 <= c as u32 && c as u32 <= '9' as u32,
        CharClass::Whitespace => c == ' ' || c == '\t' || c == '\n' || c == '\r',
        CharClass::Not(x) => c != x,
    }
}

/// The length of the longest prefix of `s` whose characters all belong to
/// the class `k`.
pub open spec fn run_len(k: CharClass, s: Seq<char>) -> int
    decreases s.len(),
{
    if s.len() == 0 || !in_class(k, s[0]) {
        0
    } else {
        1 + run_len(k, s.drop_first())
    }
}

/// What `run_len` returns: the maximal run of class characters at the head.
pub proof fn lemma_run_len(k: CharClass, s: Seq<char>)
    ensures
        0 <= run_len(k, s) <= s.len(),
        forall|j: int| 0 <= j < run_len(k, s) ==> in_class(k, #[trigger] s[j]),
        run_len(k, s) < s.len() ==> !in_class(k, s[run_len(k, s)]),
    decreases s.len(),
{
    if s.len() == 0 || !in_class(k, s[0]) {
    } else {
        lemma_run_len(k, s.drop_first());
        assert forall|j: int| 0 <= j < run_len(k, s) implies in_class(k, #[trigger] s[j]) by {
            if j > 0 {
                assert(s.drop_first()[j - 1] == s[j]);
            }
        }
    }
}

/// `run_len` is the unique cut: if the first `n` characters are in the class
/// and the next one (if any) is not, the run has length `n`.
pub proof fn lemma_run_len_is(k: CharClass, s: Seq<char>, n: int)
    requires
        0 <= n <= s.len(),
        forall|j: int| 0 <= j < n ==> in_class(k, #[trigger] s[j]),
        n < s.len() ==> !in_class(k, s[n]),
    ensures
        run_len(k, s) == n,
    decreases s.len(),
{
    if n == 0 {
    } else {
        assert(in_class(k, s[0]));
        assert forall|j: int| 0 <= j < n - 1 implies in_class(k, #[trigger] s.drop_first()[j]) by {
            assert(s.drop_first()[j] == s[j + 1]);
        }
        if n - 1 < s.drop_first().len() {
            assert(s.drop_first()[n - 1] == s[n]);
        }
        lemma_run_len_is(k, s.drop_first(), n - 1);
    }
}

/// Whether the literal `pat` occurs in `s` starting at index `i`.
pub open spec fn pat_at(s: Seq<char>, i: int, pat: Seq<char>) -> bool {
    &&& 0 <= i
    &&& i + pat.len() <= s.len()
    &&& s.subrange(i, i + pat.len()) == pat
}

/// The index of the first occurrence of `pat` in `s`, if any.
pub open spec fn first_occur(s: Seq<char>, pat: Seq<char>) -> Option<int>
    decreases s.len(),
{
    if pat.len() > s.len() {
        None
    } else if s.take(pat.len() as int) == pat {
        Some(0)
    } else if s.len() == 0 {
        None
    } else {
        match first_occur(s.drop_first(), pat) {
            Some(i) => Some(i + 1),
            None => None,
        }
    }
}

/// An occurrence one step into `s` is an occurrence in the tail of `s`.
proof fn lemma_pat_at_shift(s: Seq<char>, i: int, pat: Seq<char>)
    requires
        s.len() > 0,
        1 <= i,
    ensures
        pat_at(s, i, pat) <==> pat_at(s.drop_first(), i - 1, pat),
{
    if i + pat.len() <= s.len() {
        assert(s.subrange(i, i + pat.len()) =~= s.drop_first().subrange(
            i - 1,
            i - 1 + pat.len(),
        ));
    }
}

/// What `first_occur` returns: the least index of an occurrence, or `None`
/// exactly when there is none.
pub proof fn lemma_first_occur(s: Seq<char>, pat: Seq<char>)
    ensures
        match first_occur(s, pat) {
            Some(i) => pat_at(s, i, pat) && forall|j: int| 0 <= j < i ==> !pat_at(s, j, pat),
            None => forall|j: int| !pat_at(s, j, pat),
        },
    decreases s.len(),
{
    if pat.len() > s.len() {
        assert forall|j: int| !pat_at(s, j, pat) by {}
    } else if s.take(pat.len() as int) == pat {
        assert(s.take(pat.len() as int) =~= s.subrange(0, pat.len() as int));
    } else if s.len() == 0 {
        assert forall|j: int| !pat_at(s, j, pat) by {
            if pat_at(s, j, pat) {
                assert(j == 0);
                assert(s.subrange(0, pat.len() as int) =~= s.take(pat.len() as int));
            }
        }
    } else {
        lemma_first_occur(s.drop_first(), pat);
        assert(!pat_at(s, 0, pat)) by {
            if pat_at(s, 0, pat) {
                assert(s.subrange(0, pat.len() as int) =~= s.take(pat.len() as int));
            }
        }
        match first_occur(s.drop_first(), pat) {
            Some(i) => {
                lemma_pat_at_shift(s, i + 1, pat);
                assert forall|j: int| 0 <= j < i + 1 implies !pat_at(s, j, pat) by {
                    if j > 0 {
                        lemma_pat_at_shift(s, j, pat);
                    }
                }
            },
            None => {
                assert forall|j: int| !pat_at(s, j, pat) by {
                    if j > 0 {
                        lemma_pat_at_shift(s, j, pat);
                    }
                }
            },
        }
    }
}

/// `first_occur` from a witness: an occurrence at `i` with none before it.
pub proof fn lemma_first_occur_is(s: Seq<char>, pat: Seq<char>, i: int)
    requires
        pat_at(s, i, pat),
        forall|j: int| 0 <= j < i ==> !pat_at(s, j, pat),
    ensures
        first_occur(s, pat) == Some(i),
{
    lemma_first_occur(s, pat);
    match first_occur(s, pat) {
        Some(k) => {
            if k < i {
                assert(!pat_at(s, k, pat));
            } else if k > i {
                assert(!pat_at(s, i, pat));
            }
        },
        None => {
            assert(!pat_at(s, i, pat));
        },
    }
}

/// `first_occur` is `None` when no index carries an occurrence.
pub proof fn lemma_first_occur_none(s: Seq<char>, pat: Seq<char>)
    requires
        forall|j: int| !pat_at(s, j, pat),
    ensures
        first_occur(s, pat) is None,
{
    lemma_first_occur(s, pat);
    if let Some(i) = first_occur(s, pat) {
        assert(!pat_at(s, i, pat));
    }
}

/// Split `s` at the first occurrence of `pat`: the part before it, and the
/// part after it, the delimiter consumed.  When `pat` does not occur, the
/// whole of `s` is captured and the tail is empty: end of input acts as an
/// implicit closing delimiter.
pub open spec fn split_at_pat(s: Seq<char>, pat: Seq<char>) -> (Seq<char>, Seq<char>) {
    match first_occur(s, pat) {
        Some(i) => (s.take(i), s.skip(i + pat.len())),
        None => (s, Seq::empty()),
    }
}

/// Splitting never grows the tail, and consumes at least one character from
/// a nonempty input when the pattern is nonempty.
pub proof fn lemma_split_at_pat_len(s: Seq<char>, pat: Seq<char>)
    ensures
        split_at_pat(s, pat).1.len() <= s.len(),
        s.len() > 0 && pat.len() > 0 ==> split_at_pat(s, pat).1.len() < s.len(),
{
    lemma_first_occur(s, pat);
    match first_occur(s, pat) {
        Some(i) => {},
        None => {},
    }
}

/// `s` with leading whitespace removed.
pub open spec fn trim_start(s: Seq<char>) -> Seq<char>
    decreases s.len(),
{
    if s.len() > 0 && in_class(CharClass::Whitespace, s[0]) {
        trim_start(s.drop_first())
    } else {
        s
    }
}

/// `s` with trailing whitespace removed.
pub open spec fn trim_end(s: Seq<char>) -> Seq<char>
    decreases s.len(),
{
    if s.len() > 0 && in_class(CharClass::Whitespace, s.last()) {
        trim_end(s.drop_last())
    } else {
        s
    }
}

/// `s` with leading and trailing whitespace removed, the whitespace being
/// spaces, tabs, newlines and carriage returns.
pub open spec fn trim(s: Seq<char>) -> Seq<char> {
    trim_end(trim_start(s))
}

/// Trimming the start removes exactly the leading whitespace run.
pub proof fn lemma_trim_start_run(s: Seq<char>)
    ensures
        trim_start(s) == s.skip(run_len(CharClass::Whitespace, s)),
    decreases s.len(),
{
    if s.len() > 0 && in_class(CharClass::Whitespace, s[0]) {
        lemma_trim_start_run(s.drop_first());
        lemma_run_len(CharClass::Whitespace, s);
        assert(s.drop_first().skip(run_len(CharClass::Whitespace, s) - 1) =~= s.skip(
            run_len(CharClass::Whitespace, s),
        ));
    } else {
        assert(s.skip(0) =~= s);
    }
}

/// Trimming the end cuts at the start of the trailing whitespace run: if all
/// characters from `m` on are whitespace and the one before `m` (if any) is
/// not, the result is the first `m` characters.
pub proof fn lemma_trim_end_is(s: Seq<char>, m: int)
    requires
        0 <= m <= s.len(),
        forall|j: int| m <= j < s.len() ==> in_class(CharClass::Whitespace, #[trigger] s[j]),
        m > 0 ==> !in_class(CharClass::Whitespace, s[m - 1]),
    ensures
        trim_end(s) == s.take(m),
    decreases s.len(),
{
    if m == s.len() {
        if s.len() > 0 {
            assert(!in_class(CharClass::Whitespace, s.last()));
        }
        assert(s.take(m) =~= s);
    } else {
        assert(in_class(CharClass::Whitespace, s.last()));
        assert forall|j: int|
            m <= j < s.drop_last().len() implies in_class(
            CharClass::Whitespace,
            #[trigger] s.drop_last()[j],
        ) by {
            assert(s.drop_last()[j] == s[j]);
        }
        lemma_trim_end_is(s.drop_last(), m);
        assert(s.drop_last().take(m) =~= s.take(m));
    }
}

/// Dropping leading whitespace by hand does not change what trimming the
/// start yields.
pub proof fn lemma_trim_start_skip_ws(s: Seq<char>, j: int)
    requires
        0 <= j <= s.len(),
        forall|i: int| 0 <= i < j ==> in_class(CharClass::Whitespace, #[trigger] s[i]),
    ensures
        trim_start(s.skip(j)) == trim_start(s),
    decreases j,
{
    if j > 0 {
        assert(s.drop_first() =~= s.skip(1));
        assert forall|i: int| 0 <= i < j - 1 implies in_class(
            CharClass::Whitespace,
            #[trigger] s.skip(1)[i],
        ) by {
            assert(s.skip(1)[i] == s[i + 1]);
        }
        lemma_trim_start_skip_ws(s.skip(1), j - 1);
        assert(s.skip(1).skip(j - 1) =~= s.skip(j));
    } else {
        assert(s.skip(0) =~= s);
    }
}

/// Skipping twice is skipping once by the sum.
pub proof fn lemma_skip_skip(s: Seq<char>, a: int, b: int)
    requires
        0 <= a,
        0 <= b,
        a + b <= s.len(),
    ensures
        s.skip(a).skip(b) == s.skip(a + b),
{
    assert(s.skip(a).skip(b) =~= s.skip(a + b));
}

/// A take after a skip is a subrange of the original.
pub proof fn lemma_skip_take(s: Seq<char>, a: int, n: int)
    requires
        0 <= a,
        0 <= n,
        a + n <= s.len(),
    ensures
        s.skip(a).take(n) == s.subrange(a, a + n),
{
    assert(s.skip(a).take(n) =~= s.subrange(a, a + n));
}

/// An occurrence within a suffix is an occurrence in the whole, shifted.
pub proof fn lemma_pat_at_skip(s: Seq<char>, pos: int, k: int, pat: Seq<char>)
    requires
        0 <= pos <= s.len(),
        0 <= k,
    ensures
        pat_at(s.skip(pos), k, pat) <==> pat_at(s, pos + k, pat),
{
    if pos + k + pat.len() <= s.len() {
        assert(s.skip(pos).subrange(k, k + pat.len()) =~= s.subrange(
            pos + k,
            pos + k + pat.len(),
        ));
    }
}

/// The number of characters, as opposed to bytes, of a string slice.
pub fn char_len(s: &str) -> (n: usize)
    ensures
        n == s@.len(),
{
    s.unicode_len()
}

/// The length of the run of class `k` characters in `s` starting at `from`
/// and stopping no later than `to`.
pub fn run_in(s: &str, from: usize, to: usize, k: CharClass) -> (n: usize)
    requires
        from <= to <= s@.len(),
    ensures
        n == run_len(k, s@.subrange(from as int, to as int)),
        from + n <= to,
{
    let mut i: usize = from;
    loop
        invariant
            from <= i <= to <= s@.len(),
            forall|j: int| from <= j < i ==> in_class(k, #[trigger] s@[j]),
        ensures
            from <= i <= to,
            forall|j: int| from <= j < i ==> in_class(k, #[trigger] s@[j]),
            i < to ==> !in_class(k, s@[i as int]),
        decreases to - i,
    {
        if i < to {
            let c = s.get_char(i);
            if is_in_class(k, c) {
                i = i + 1;
            } else {
                break;
            }
        } else {
            break;
        }
    }
    proof {
        let sub = s@.subrange(from as int, to as int);
        assert forall|j: int| 0 <= j < i - from implies in_class(k, #[trigger] sub[j]) by {
            assert(sub[j] == s@[from + j]);
        }
        if i - from < sub.len() {
            assert(sub[i - from] == s@[i as int]);
        }
        lemma_run_len_is(k, sub, i - from);
    }
    i - from
}

/// Whether the literal `pat` stands in `s` at character position `pos`.
pub fn match_at(s: &str, pos: usize, pat: &str) -> (b: bool)
    requires
        pos <= s@.len(),
    ensures
        b == pat_at(s@, pos as int, pat@),
{
    let n = s.unicode_len();
    let plen = pat.unicode_len();
    if plen > n - pos {
        return false;
    }
    let mut j: usize = 0;
    while j < plen
        invariant
            0 <= j <= plen,
            pos + plen <= n,
            n == s@.len(),
            plen == pat@.len(),
            forall|t: int| 0 <= t < j ==> s@[pos + t] == pat@[t],
        decreases plen - j,
    {
        let a = s.get_char(pos + j);
        let b = pat.get_char(j);
        if a != b {
            proof {
                if pat_at(s@, pos as int, pat@) {
                    assert(s@.subrange(pos as int, pos + plen)[j as int] == pat@[j as int]);
                }
            }
            return false;
        }
        j = j + 1;
    }
    proof {
        assert(s@.subrange(pos as int, pos + plen) =~= pat@);
    }
    true
}

/// The first occurrence of `pat` at or after position `pos` in `s`.
pub fn find_at(s: &str, pos: usize, pat: &str) -> (r: Option<usize>)
    requires
        pos <= s@.len(),
    ensures
        match r {
            Some(i) => pos <= i && i + pat@.len() <= s@.len() && first_occur(
                s@.skip(pos as int),
                pat@,
            ) == Some(i - pos),
            None => first_occur(s@.skip(pos as int), pat@) is None,
        },
{
    let n = s.unicode_len();
    let plen = pat.unicode_len();
    if plen == 0 {
        proof {
            assert(s@.skip(pos as int).take(0) =~= pat@);
        }
        return Some(pos);
    }
    if plen > n - pos {
        proof {
            assert(s@.skip(pos as int).len() < plen);
        }
        return None;
    }
    let mut i: usize = pos;
    while i <= n - plen
        invariant
            pos <= i <= n - plen + 1,
            1 <= plen <= n - pos,
            n == s@.len(),
            plen == pat@.len(),
            forall|k: int| pos <= k < i ==> !pat_at(s@, k, pat@),
        decreases n - i,
    {
        if match_at(s, i, pat) {
            proof {
                lemma_pat_at_skip(s@, pos as int, i - pos, pat@);
                assert forall|k: int| 0 <= k < i - pos implies !pat_at(
                    s@.skip(pos as int),
                    k,
                    pat@,
                ) by {
                    lemma_pat_at_skip(s@, pos as int, k, pat@);
                }
                lemma_first_occur_is(s@.skip(pos as int), pat@, i - pos);
            }
            return Some(i);
        }
        i = i + 1;
    }
    proof {
        assert forall|k: int| !pat_at(s@.skip(pos as int), k, pat@) by {
            if k >= 0 {
                lemma_pat_at_skip(s@, pos as int, k, pat@);
            }
        }
        lemma_first_occur_none(s@.skip(pos as int), pat@);
    }
    None
}

/// The characters of `s` from `from` to `to`, as an owned string.
pub fn extract(s: &str, from: usize, to: usize) -> (r: String)
    requires
        from <= to <= s@.len(),
    ensures
        r@ == s@.subrange(from as int, to as int),
{
    String::from_str(s.substring_char(from, to))
}

/// The characters of `s` from `from` to `to`, trimmed of leading and
/// trailing whitespace, as an owned string.
pub fn extract_trimmed(s: &str, from: usize, to: usize) -> (r: String)
    requires
        from <= to <= s@.len(),
    ensures
        r@ == trim(s@.subrange(from as int, to as int)),
{
    let w = run_in(s, from, to, CharClass::Whitespace);
    let a = from + w;
    let mut j: usize = to;
    loop
        invariant
            a <= j <= to <= s@.len(),
            forall|t: int| j <= t < to ==> in_class(CharClass::Whitespace, #[trigger] s@[t]),
        ensures
            a <= j <= to,
            forall|t: int| j <= t < to ==> in_class(CharClass::Whitespace, #[trigger] s@[t]),
            j > a ==> !in_class(CharClass::Whitespace, s@[j - 1]),
        decreases j,
    {
        if j > a {
            let c = s.get_char(j - 1);
            if is_in_class(CharClass::Whitespace, c) {
                j = j - 1;
            } else {
                break;
            }
        } else {
            break;
        }
    }
    proof {
        let sub = s@.subrange(from as int, to as int);
        lemma_trim_start_run(sub);
        let rest = sub.skip(w as int);
        assert forall|t: int| j - a <= t < rest.len() implies in_class(
            CharClass::Whitespace,
            #[trigger] rest[t],
        ) by {
            assert(rest[t] == s@[a + t]);
        }
        if j > a {
            assert(rest[j - a - 1] == s@[j - 1]);
        }
        lemma_trim_end_is(rest, j - a);
        assert(rest.take(j - a) =~= s@.subrange(a as int, j as int));
    }
    extract(s, a, j)
}

/// Split the suffix of `s` starting at `start` around the first occurrence
/// of `pat`: the captured span before the delimiter (owned) and the tail
/// after it.  When `pat` does not occur, the whole suffix is captured and
/// the tail is empty.
pub fn split_from<'a>(s: &'a str, start: usize, pat: &str) -> (r: (String, &'a str))
    requires
        start <= s@.len(),
    ensures
        r.0@ == split_at_pat(s@.skip(start as int), pat@).0,
        r.1@ == split_at_pat(s@.skip(start as int), pat@).1,
{
    let n = s.unicode_len();
    match find_at(s, start, pat) {
        Some(i) => {
            let cap = extract(s, start, i);
            let tail = s.substring_char(i + pat.unicode_len(), n);
            proof {
                lemma_skip_take(s@, start as int, i - start);
                assert(s@.skip(start as int).skip(i - start + pat@.len()) =~= s@.subrange(
                    i + pat@.len(),
                    n as int,
                ));
            }
            (cap, tail)
        },
        None => {
            let cap = extract(s, start, n);
            let tail = s.substring_char(n, n);
            proof {
                assert(s@.skip(start as int) =~= s@.subrange(start as int, n as int));
                assert(s@.subrange(n as int, n as int) =~= Seq::<char>::empty());
            }
            (cap, tail)
        },
    }
}

/// Like `split_from`, but the captured span is trimmed of leading and
/// trailing whitespace.
pub fn split_from_trimmed<'a>(s: &'a str, start: usize, pat: &str) -> (r: (String, &'a str))
    requires
        start <= s@.len(),
    ensures
        r.0@ == trim(split_at_pat(s@.skip(start as int), pat@).0),
        r.1@ == split_at_pat(s@.skip(start as int), pat@).1,
{
    let n = s.unicode_len();
    match find_at(s, start, pat) {
        Some(i) => {
            let cap = extract_trimmed(s, start, i);
            let tail = s.substring_char(i + pat.unicode_len(), n);
            proof {
                lemma_skip_take(s@, start as int, i - start);
                assert(s@.skip(start as int).skip(i - start + pat@.len()) =~= s@.subrange(
                    i + pat@.len(),
                    n as int,
                ));
            }
            (cap, tail)
        },
        None => {
            let cap = extract_trimmed(s, start, n);
            let tail = s.substring_char(n, n);
            proof {
                assert(s@.skip(start as int) =~= s@.subrange(start as int, n as int));
                assert(s@.subrange(n as int, n as int) =~= Seq::<char>::empty());
            }
            (cap, tail)
        },
    }
}

/// Find the first occurrence of the literal `pat` in `input` and split
/// there: the span before the delimiter is captured (owned), the delimiter
/// is consumed, and the rest is returned as the tail.  When `pat` does not
/// occur, the whole input is captured and the tail is empty.
pub fn till_pat_consuming<'a>(input: &'a str, pat: &str) -> (r: (String, &'a str))
    ensures
        r.0@ == split_at_pat(input@, pat@).0,
        r.1@ == split_at_pat(input@, pat@).1,
{
    proof {
        assert(input@.skip(0) =~= input@);
    }
    split_from(input, 0, pat)
}

/// Whether two string slices hold the same characters.
pub fn str_eq(a: &str, b: &str) -> (r: bool)
    ensures
        r == (a@ == b@),
{
    let n = a.unicode_len();
    let m = b.unicode_len();
    if n != m {
        return false;
    }
    let eq = match_at(a, 0, b);
    proof {
        assert(a@.subrange(0, b@.len() as int) =~= a@);
    }
    eq
}

} // verus!
