//! Character-level text primitives shared by the lexer, the grammar and the
//! template resolver. Strings are modelled by their `Seq<char>` views; every
//! executable helper here works on a `Vec<char>` slice `[lo, hi)` and states
//! its result over the corresponding subsequence.

use vstd::prelude::*;
use vstd::string::StringExecFns;

verus! {

/// True for the characters that carry the Unicode `White_Space` property,
/// which is what `char::is_whitespace` (and so `str::trim` and
/// `str::split_whitespace`) test for.
pub open spec fn is_ws(c: char) -> bool {
    let u = c as u32;
    ||| 0x09 <= u && u <= 0x0D
    ||| u == 0x20
    ||| u == 0x85
    ||| u == 0xA0
    ||| u == 0x1680
    ||| 0x2000 <= u && u <= 0x200A
    ||| u == 0x2028
    ||| u == 0x2029
    ||| u == 0x202F
    ||| u == 0x205F
    ||| u == 0x3000
}

/// Executable `White_Space` test.
pub fn is_whitespace(c: char) -> (b: bool)
    ensures
        b == is_ws(c),
{
    let u = c as u32;
    (0x09 <= u && u <= 0x0D) || u == 0x20 || u == 0x85 || u == 0xA0 || u == 0x1680 || (0x2000
        <= u && u <= 0x200A) || u == 0x2028 || u == 0x2029 || u == 0x202F || u == 0x205F || u
        == 0x3000
}

/// `s` with its leading whitespace removed.
pub open spec fn trim_start(s: Seq<char>) -> Seq<char>
    decreases s.len(),
{
    if s.len() > 0 && is_ws(s[0]) {
        trim_start(s.drop_first())
    } else {
        s
    }
}

/// `s` with its trailing whitespace removed.
pub open spec fn trim_end(s: Seq<char>) -> Seq<char>
    decreases s.len(),
{
    if s.len() > 0 && is_ws(s.last()) {
        trim_end(s.drop_last())
    } else {
        s
    }
}

/// `s` with leading and trailing whitespace removed (`str::trim`).
pub open spec fn trim(s: Seq<char>) -> Seq<char> {
    trim_end(trim_start(s))
}

/// Length of the run of non-whitespace characters that starts `s`.
pub open spec fn word_len(s: Seq<char>) -> nat
    decreases s.len(),
{
    if s.len() == 0 || is_ws(s[0]) {
        0
    } else {
        1 + word_len(s.drop_first())
    }
}

pub proof fn lemma_word_len_bound(s: Seq<char>)
    ensures
        word_len(s) <= s.len(),
        s.len() > 0 && !is_ws(s[0]) ==> word_len(s) >= 1,
    decreases s.len(),
{
    if s.len() > 0 && !is_ws(s[0]) {
        lemma_word_len_bound(s.drop_first());
    }
}

/// The whitespace-separated words of `s` (`str::split_whitespace`).
pub open spec fn words(s: Seq<char>) -> Seq<Seq<char>>
    decreases s.len(),
{
    if s.len() == 0 {
        seq![]
    } else if is_ws(s[0]) {
        words(s.drop_first())
    } else {
        proof {
            lemma_word_len_bound(s);
        }
        seq![s.take(word_len(s) as int)] + words(s.skip(word_len(s) as int))
    }
}

/// `p` is a prefix of `s`.
pub open spec fn starts_with(s: Seq<char>, p: Seq<char>) -> bool {
    p.len() <= s.len() && s.take(p.len() as int) == p
}

/// Index of the first occurrence of `c` in `s`.
pub open spec fn index_of_char(s: Seq<char>, c: char) -> Option<nat>
    decreases s.len(),
{
    if s.len() == 0 {
        None
    } else if s[0] == c {
        Some(0)
    } else {
        match index_of_char(s.drop_first(), c) {
            Some(i) => Some(i + 1),
            None => None,
        }
    }
}

/// Index of the first place where the two-character sequence `a b` starts in `s`.
pub open spec fn index_of_pair(s: Seq<char>, a: char, b: char) -> Option<nat>
    decreases s.len(),
{
    if s.len() < 2 {
        None
    } else if s[0] == a && s[1] == b {
        Some(0)
    } else {
        match index_of_pair(s.drop_first(), a, b) {
            Some(i) => Some(i + 1),
            None => None,
        }
    }
}

/// A line without the `\r` of a `\r\n` ending.
pub open spec fn strip_cr(l: Seq<char>) -> Seq<char> {
    if l.len() > 0 && l.last() == '\r' {
        l.drop_last()
    } else {
        l
    }
}

/// The lines of `s` as `str::lines` yields them: split at `\n`, a `\r`
/// directly before the `\n` dropped, and no empty last line after a final `\n`.
pub open spec fn lines(s: Seq<char>) -> Seq<Seq<char>>
    decreases s.len(),
{
    if s.len() == 0 {
        seq![]
    } else {
        match index_of_char(s, '\n') {
            None => seq![s],
            Some(i) => {
                proof {
                    lemma_index_of_char_bound(s, '\n');
                }
                seq![strip_cr(s.take(i as int))] + lines(s.skip(i + 1int))
            },
        }
    }
}

/// There are never more lines than characters.
pub proof fn lemma_lines_len(s: Seq<char>)
    ensures
        lines(s).len() <= s.len(),
    decreases s.len(),
{
    if s.len() > 0 {
        lemma_index_of_char_bound(s, '\n');
        if let Some(i) = index_of_char(s, '\n') {
            lemma_lines_len(s.skip(i + 1int));
        }
    }
}

/// No line is longer, in bytes, than the text it comes from.
pub proof fn lemma_lines_utf8_len(s: Seq<char>)
    ensures
        forall|k: int| 0 <= k < lines(s).len() ==> utf8_len(#[trigger] lines(s)[k]) <= utf8_len(s),
    decreases s.len(),
{
    if s.len() > 0 {
        lemma_index_of_char_bound(s, '\n');
        match index_of_char(s, '\n') {
            None => {
                assert(lines(s) =~= seq![s]);
            },
            Some(i) => {
                let rest = s.skip(i + 1int);
                lemma_lines_utf8_len(rest);
                lemma_utf8_len_subrange(s, 0, i as int);
                lemma_utf8_len_subrange(s, i + 1int, s.len() as int);
                assert(s.take(i as int) =~= s.subrange(0, i as int));
                assert(rest =~= s.subrange(i + 1int, s.len() as int));
                let first = s.take(i as int);
                if first.len() > 0 && first.last() == '\r' {
                    lemma_utf8_len_subrange(first, 0, first.len() - 1);
                    assert(first.drop_last() =~= first.subrange(0, first.len() - 1));
                }
                assert forall|k: int| 0 <= k < lines(s).len() implies utf8_len(#[trigger] lines(s)[k])
                    <= utf8_len(s) by {
                    if k > 0 {
                        assert(lines(s)[k] == lines(rest)[k - 1]);
                    }
                }
            },
        }
    }
}

/// Number of bytes that UTF-8 takes for `c` (`char::len_utf8`).
pub open spec fn char_utf8_len(c: char) -> nat {
    let u = c as u32;
    if u < 0x80 {
        1
    } else if u < 0x800 {
        2
    } else if u < 0x10000 {
        3
    } else {
        4
    }
}

/// Number of bytes of the UTF-8 encoding of `s` (what `str::len` returns).
pub open spec fn utf8_len(s: Seq<char>) -> nat
    decreases s.len(),
{
    if s.len() == 0 {
        0
    } else {
        char_utf8_len(s[0]) + utf8_len(s.drop_first())
    }
}

pub proof fn lemma_index_of_char_bound(s: Seq<char>, c: char)
    ensures
        index_of_char(s, c) matches Some(i) ==> i < s.len() && s[i as int] == c && forall|j: int|
            0 <= j < i ==> s[j] != c,
        index_of_char(s, c) is None ==> forall|j: int| 0 <= j < s.len() ==> s[j] != c,
    decreases s.len(),
{
    if s.len() > 0 && s[0] != c {
        lemma_index_of_char_bound(s.drop_first(), c);
        if let Some(i) = index_of_char(s.drop_first(), c) {
            assert forall|j: int| 0 <= j < i + 1 implies s[j] != c by {
                if j > 0 {
                    assert(s[j] == s.drop_first()[j - 1]);
                }
            }
        } else {
            assert forall|j: int| 0 <= j < s.len() implies s[j] != c by {
                if j > 0 {
                    assert(s[j] == s.drop_first()[j - 1]);
                }
            }
        }
    }
}

pub proof fn lemma_index_of_char_at(s: Seq<char>, c: char, i: int)
    requires
        0 <= i <= s.len(),
        i < s.len() ==> s[i] == c,
        forall|j: int| 0 <= j < i ==> s[j] != c,
    ensures
        index_of_char(s, c) == (if i < s.len() { Some(i as nat) } else { None::<nat> }),
    decreases s.len(),
{
    if s.len() > 0 && i > 0 {
        assert forall|j: int| 0 <= j < i - 1 implies s.drop_first()[j] != c by {
            assert(s.drop_first()[j] == s[j + 1]);
        }
        lemma_index_of_char_at(s.drop_first(), c, i - 1);
    }
}

/// `a b` starts at position `j` of `s`.
pub open spec fn pair_at(s: Seq<char>, j: int, a: char, b: char) -> bool {
    0 <= j && j + 1 < s.len() && s[j] == a && s[j + 1] == b
}

pub proof fn lemma_index_of_pair_at(s: Seq<char>, a: char, b: char, i: int)
    requires
        0 <= i,
        i + 1 < s.len() ==> s[i] == a && s[i + 1] == b,
        i + 1 >= s.len() ==> i == s.len(),
        forall|j: int| 0 <= j < i ==> !#[trigger] pair_at(s, j, a, b),
    ensures
        index_of_pair(s, a, b) == (if i + 1 < s.len() { Some(i as nat) } else { None::<nat> }),
    decreases s.len(),
{
    if s.len() >= 2 && i > 0 {
        assert forall|j: int| 0 <= j < i - 1 implies !#[trigger] pair_at(s.drop_first(), j, a, b) by {
            assert(!pair_at(s, j + 1, a, b));
            if j + 1 < s.drop_first().len() {
                assert(s.drop_first()[j] == s[j + 1]);
                assert(s.drop_first()[j + 1] == s[j + 2]);
            }
        }
        assert(!pair_at(s, 0, a, b));
        lemma_index_of_pair_at(s.drop_first(), a, b, i - 1);
    } else if s.len() < 2 {
    }
}

/// Without a first occurrence there is no occurrence.
pub proof fn lemma_index_of_pair_none(s: Seq<char>, a: char, b: char, j: int)
    requires
        index_of_pair(s, a, b) is None,
    ensures
        !pair_at(s, j, a, b),
    decreases s.len(),
{
    if s.len() >= 2 && j > 0 {
        lemma_index_of_pair_none(s.drop_first(), a, b, j - 1);
        assert(pair_at(s, j, a, b) ==> pair_at(s.drop_first(), j - 1, a, b));
    }
}

/// In `x + y`, where `y` starts with `a b` and `x` followed by `a` holds no
/// `a b`, the first `a b` is where `y` starts.
pub proof fn lemma_first_pair_at_join(x: Seq<char>, y: Seq<char>, a: char, b: char)
    requires
        index_of_pair(x + seq![a], a, b) is None,
        y.len() >= 2,
        y[0] == a,
        y[1] == b,
    ensures
        index_of_pair(x + y, a, b) == Some(x.len()),
{
    let s = x + y;
    let xa = x + seq![a];
    assert forall|j: int| 0 <= j < x.len() implies !#[trigger] pair_at(s, j, a, b) by {
        lemma_index_of_pair_none(xa, a, b, j);
        assert(s[j] == xa[j] && s[j + 1] == xa[j + 1]);
    }
    lemma_index_of_pair_at(s, a, b, x.len() as int);
}

pub proof fn lemma_index_of_pair_bound(s: Seq<char>, a: char, b: char)
    ensures
        index_of_pair(s, a, b) matches Some(i) ==> i + 1 < s.len() && s[i as int] == a && s[i + 1int] == b,
    decreases s.len(),
{
    if s.len() >= 2 && !(s[0] == a && s[1] == b) {
        lemma_index_of_pair_bound(s.drop_first(), a, b);
    }
}

pub proof fn lemma_utf8_len_add(a: Seq<char>, b: Seq<char>)
    ensures
        utf8_len(a + b) == utf8_len(a) + utf8_len(b),
    decreases a.len(),
{
    if a.len() > 0 {
        assert((a + b).drop_first() =~= a.drop_first() + b);
        lemma_utf8_len_add(a.drop_first(), b);
    } else {
        assert(a + b =~= b);
    }
}

pub proof fn lemma_utf8_len_ge_len(a: Seq<char>)
    ensures
        utf8_len(a) >= a.len(),
    decreases a.len(),
{
    if a.len() > 0 {
        lemma_utf8_len_ge_len(a.drop_first());
    }
}

/// The bytes of a part of `s` are at most the bytes of `s`.
pub proof fn lemma_utf8_len_subrange(s: Seq<char>, lo: int, hi: int)
    requires
        0 <= lo <= hi <= s.len(),
    ensures
        utf8_len(s.subrange(lo, hi)) <= utf8_len(s),
        utf8_len(s.subrange(0, lo)) + utf8_len(s.subrange(lo, hi)) + utf8_len(
            s.subrange(hi, s.len() as int),
        ) == utf8_len(s),
{
    assert(s =~= s.subrange(0, lo) + s.subrange(lo, hi) + s.subrange(hi, s.len() as int));
    lemma_utf8_len_add(s.subrange(0, lo), s.subrange(lo, hi));
    lemma_utf8_len_add(s.subrange(0, lo) + s.subrange(lo, hi), s.subrange(hi, s.len() as int));
}

/// Calls std's `str::len`. Trusted: the result is the length of `s` in
/// UTF-8 bytes, as that method's documentation states, and like the size of
/// every value it does not exceed `isize::MAX`.
#[verifier::external_body]
pub(crate) fn byte_len(s: &str) -> (n: usize)
    ensures
        n == utf8_len(s@),
        n <= isize::MAX,
{
    s.len()
}

/// Calls std's `String::push`. Trusted: afterwards `s` holds its old
/// characters followed by `c`, as that method's documentation states.
#[verifier::external_body]
pub(crate) fn push_char(s: &mut String, c: char)
    ensures
        final(s)@ == old(s)@.push(c),
{
    s.push(c);
}

/// The characters of `s`, in order.
pub fn to_chars(s: &str) -> (v: Vec<char>)
    ensures
        v@ == s@,
{
    broadcast use vstd::string::group_string_axioms;

    let mut v: Vec<char> = Vec::new();
    for c in it: s.chars()
        invariant
            v@ == it.seq().take(it.index() as int),
    {
        v.push(c);
    }
    assert(v@ =~= s@);
    v
}

/// A `String` holding `v[lo..hi]`.
pub fn from_chars(v: &Vec<char>, lo: usize, hi: usize) -> (s: String)
    requires
        lo <= hi <= v.len(),
    ensures
        s@ == v@.subrange(lo as int, hi as int),
{
    let mut s = String::new();
    let mut i = lo;
    while i < hi
        invariant
            lo <= i <= hi <= v.len(),
            s@ == v@.subrange(lo as int, i as int),
        decreases hi - i,
    {
        push_char(&mut s, v[i]);
        i = i + 1;
        assert(s@ =~= v@.subrange(lo as int, i as int));
    }
    s
}

/// Appends `v[lo..hi]` to `s`.
pub fn push_chars(s: &mut String, v: &Vec<char>, lo: usize, hi: usize)
    requires
        lo <= hi <= v.len(),
    ensures
        final(s)@ == old(s)@ + v@.subrange(lo as int, hi as int),
{
    let mut i = lo;
    while i < hi
        invariant
            lo <= i <= hi <= v.len(),
            s@ == old(s)@ + v@.subrange(lo as int, i as int),
        decreases hi - i,
    {
        push_char(s, v[i]);
        i = i + 1;
        assert(s@ =~= old(s)@ + v@.subrange(lo as int, i as int));
    }
}

/// Bounds of `trim(v[lo..hi])` inside `v`.
pub fn trim_bounds(v: &Vec<char>, lo: usize, hi: usize) -> (r: (usize, usize))
    requires
        lo <= hi <= v.len(),
    ensures
        lo <= r.0 <= r.1 <= hi,
        v@.subrange(r.0 as int, r.1 as int) == trim(v@.subrange(lo as int, hi as int)),
        v@.subrange(r.0 as int, hi as int) == trim_start(v@.subrange(lo as int, hi as int)),
{
    let mut a = lo;
    while a < hi && is_whitespace(v[a])
        invariant
            lo <= a <= hi <= v.len(),
            trim_start(v@.subrange(lo as int, hi as int)) == trim_start(
                v@.subrange(a as int, hi as int),
            ),
        decreases hi - a,
    {
        assert(v@.subrange(a as int, hi as int).drop_first() =~= v@.subrange(a + 1, hi as int));
        a = a + 1;
    }
    assert(trim_start(v@.subrange(a as int, hi as int)) == v@.subrange(a as int, hi as int));
    let mut b = hi;
    while b > a && is_whitespace(v[b - 1])
        invariant
            lo <= a <= b <= hi <= v.len(),
            trim_end(v@.subrange(a as int, hi as int)) == trim_end(v@.subrange(a as int, b as int)),
        decreases b - a,
    {
        assert(v@.subrange(a as int, b as int).drop_last() =~= v@.subrange(a as int, b - 1));
        b = b - 1;
    }
    (a, b)
}

/// The first word of `v[lo..hi]`, as bounds inside `v`.
pub fn next_word(v: &Vec<char>, lo: usize, hi: usize) -> (r: Option<(usize, usize)>)
    requires
        lo <= hi <= v.len(),
    ensures
        r is None ==> words(v@.subrange(lo as int, hi as int)).len() == 0,
        r matches Some((a, b)) ==> {
            &&& lo <= a < b <= hi
            &&& words(v@.subrange(lo as int, hi as int)) == seq![v@.subrange(a as int, b as int)]
                + words(v@.subrange(b as int, hi as int))
        },
{
    let mut a = lo;
    while a < hi && is_whitespace(v[a])
        invariant
            lo <= a <= hi <= v.len(),
            words(v@.subrange(lo as int, hi as int)) == words(v@.subrange(a as int, hi as int)),
        decreases hi - a,
    {
        assert(v@.subrange(a as int, hi as int).drop_first() =~= v@.subrange(a + 1, hi as int));
        a = a + 1;
    }
    if a == hi {
        assert(v@.subrange(a as int, hi as int).len() == 0);
        return None;
    }
    let mut b = a;
    while b < hi && !is_whitespace(v[b])
        invariant
            a <= b <= hi <= v.len(),
            word_len(v@.subrange(a as int, hi as int)) == (b - a) + word_len(
                v@.subrange(b as int, hi as int),
            ),
        decreases hi - b,
    {
        assert(v@.subrange(b as int, hi as int).drop_first() =~= v@.subrange(b + 1, hi as int));
        b = b + 1;
    }
    let ghost s = v@.subrange(a as int, hi as int);
    assert(word_len(v@.subrange(b as int, hi as int)) == 0);
    assert(s.take((b - a) as int) =~= v@.subrange(a as int, b as int));
    assert(s.skip((b - a) as int) =~= v@.subrange(b as int, hi as int));
    Some((a, b))
}

/// `v[lo..hi]` starts with `p`.
pub fn starts_with_at(v: &Vec<char>, lo: usize, hi: usize, p: &Vec<char>) -> (b: bool)
    requires
        lo <= hi <= v.len(),
    ensures
        b == starts_with(v@.subrange(lo as int, hi as int), p@),
{
    if p.len() > hi - lo {
        return false;
    }
    let mut i: usize = 0;
    while i < p.len()
        invariant
            p.len() <= hi - lo,
            lo <= hi <= v.len(),
            i <= p.len(),
            forall|j: int| 0 <= j < i ==> v@[lo + j] == p@[j],
        decreases p.len() - i,
    {
        if v[lo + i] != p[i] {
            assert(v@.subrange(lo as int, hi as int).take(p.len() as int)[i as int] != p@[i as int]);
            return false;
        }
        i = i + 1;
    }
    assert(v@.subrange(lo as int, hi as int).take(p.len() as int) =~= p@);
    true
}

/// `v[lo..hi]` equals `p`.
pub fn range_eq(v: &Vec<char>, lo: usize, hi: usize, p: &Vec<char>) -> (b: bool)
    requires
        lo <= hi <= v.len(),
    ensures
        b == (v@.subrange(lo as int, hi as int) == p@),
{
    if hi - lo != p.len() {
        return false;
    }
    let b = starts_with_at(v, lo, hi, p);
    assert(v@.subrange(lo as int, hi as int).take(p.len() as int) =~= v@.subrange(
        lo as int,
        hi as int,
    ));
    b
}

/// `v[lo..hi]` equals the string `p`.
pub fn range_eq_str(v: &Vec<char>, lo: usize, hi: usize, p: &str) -> (b: bool)
    requires
        lo <= hi <= v.len(),
    ensures
        b == (v@.subrange(lo as int, hi as int) == p@),
{
    let pc = to_chars(p);
    range_eq(v, lo, hi, &pc)
}

/// `v[lo..hi]` starts with the string `p`.
pub fn starts_with_str(v: &Vec<char>, lo: usize, hi: usize, p: &str) -> (b: bool)
    requires
        lo <= hi <= v.len(),
    ensures
        b == starts_with(v@.subrange(lo as int, hi as int), p@),
{
    let pc = to_chars(p);
    starts_with_at(v, lo, hi, &pc)
}

/// First position of `c` in `v[lo..hi]`, as an index into `v`.
pub fn find_char(v: &Vec<char>, lo: usize, hi: usize, c: char) -> (r: Option<usize>)
    requires
        lo <= hi <= v.len(),
    ensures
        r is None ==> index_of_char(v@.subrange(lo as int, hi as int), c) is None,
        r matches Some(i) ==> lo <= i < hi && index_of_char(v@.subrange(lo as int, hi as int), c)
            == Some((i - lo) as nat),
{
    let mut i = lo;
    while i < hi
        invariant
            lo <= i <= hi <= v.len(),
            forall|j: int| lo <= j < i ==> v@[j] != c,
        decreases hi - i,
    {
        if v[i] == c {
            proof {
                lemma_index_of_char_at(v@.subrange(lo as int, hi as int), c, i - lo);
            }
            return Some(i);
        }
        i = i + 1;
    }
    proof {
        lemma_index_of_char_at(v@.subrange(lo as int, hi as int), c, hi - lo);
    }
    None
}

/// First position where `a b` starts in `v[lo..hi]`, as an index into `v`.
pub fn find_pair(v: &Vec<char>, lo: usize, hi: usize, a: char, b: char) -> (r: Option<usize>)
    requires
        lo <= hi <= v.len(),
    ensures
        r is None ==> index_of_pair(v@.subrange(lo as int, hi as int), a, b) is None,
        r matches Some(i) ==> lo <= i && i + 1 < hi && index_of_pair(
            v@.subrange(lo as int, hi as int),
            a,
            b,
        ) == Some((i - lo) as nat),
{
    let ghost s = v@.subrange(lo as int, hi as int);
    let mut i = lo;
    while i < hi && i + 1 < hi
        invariant
            lo <= i <= hi <= v.len(),
            s == v@.subrange(lo as int, hi as int),
            forall|j: int| 0 <= j < i - lo ==> !#[trigger] pair_at(s, j, a, b),
        decreases hi - i,
    {
        if v[i] == a && v[i + 1] == b {
            proof {
                lemma_index_of_pair_at(s, a, b, i - lo);
            }
            return Some(i);
        }
        assert(!pair_at(s, i - lo, a, b));
        i = i + 1;
    }
    proof {
        assert forall|j: int| 0 <= j < s.len() implies !#[trigger] pair_at(s, j, a, b) by {
            if j >= i - lo {
                assert(j + 1 >= s.len());
            }
        }
        lemma_index_of_pair_at(s, a, b, s.len() as int);
    }
    None
}

/// Bytes of the UTF-8 encoding of `v[lo..hi]`.
pub fn utf8_len_of(v: &Vec<char>, lo: usize, hi: usize) -> (n: usize)
    requires
        lo <= hi <= v.len(),
        utf8_len(v@.subrange(lo as int, hi as int)) <= usize::MAX,
    ensures
        n == utf8_len(v@.subrange(lo as int, hi as int)),
{
    let mut n: usize = 0;
    let mut i = hi;
    while i > lo
        invariant
            lo <= i <= hi <= v.len(),
            utf8_len(v@.subrange(lo as int, hi as int)) <= usize::MAX,
            n == utf8_len(v@.subrange(i as int, hi as int)),
        decreases i - lo,
    {
        proof {
            lemma_utf8_len_subrange(v@.subrange(lo as int, hi as int), i - 1 - lo, hi - lo);
            assert(v@.subrange(lo as int, hi as int).subrange(i - 1 - lo, hi - lo) =~= v@.subrange(
                i - 1,
                hi as int,
            ));
            assert(v@.subrange(i - 1, hi as int).drop_first() =~= v@.subrange(i as int, hi as int));
        }
        let c = v[i - 1] as u32;
        let w: usize = if c < 0x80 {
            1
        } else if c < 0x800 {
            2
        } else if c < 0x10000 {
            3
        } else {
            4
        };
        n = n + w;
        i = i - 1;
    }
    n
}

/// The line contents denoted by a list of bounds into `v`.
pub open spec fn spans_of(v: Seq<char>, r: Seq<(usize, usize)>) -> Seq<Seq<char>> {
    Seq::new(r.len(), |k: int| v.subrange(r[k].0 as int, r[k].1 as int))
}

/// Bounds of the lines of `v` (see [`lines`]).
pub fn split_lines(v: &Vec<char>) -> (r: Vec<(usize, usize)>)
    ensures
        spans_of(v@, r@) == lines(v@),
        r@.len() <= v@.len(),
        forall|k: int| 0 <= k < r@.len() ==> (#[trigger] r@[k]).0 <= r@[k].1 <= v@.len(),
{
    let n = v.len();
    let mut r: Vec<(usize, usize)> = Vec::new();
    let mut start: usize = 0;
    let mut i: usize = 0;
    assert(v@.subrange(0, n as int) =~= v@);
    assert(spans_of(v@, r@) =~= Seq::<Seq<char>>::empty());
    while i < n
        invariant
            n == v.len(),
            start <= i <= n,
            r@.len() <= start,
            forall|j: int| start <= j < i ==> v@[j] != '\n',
            forall|k: int| 0 <= k < r@.len() ==> (#[trigger] r@[k]).0 <= r@[k].1 <= n,
            lines(v@) == spans_of(v@, r@) + lines(v@.subrange(start as int, n as int)),
        decreases n - i,
    {
        if v[i] == '\n' {
            let ghost rest = v@.subrange(start as int, n as int);
            proof {
                lemma_index_of_char_at(rest, '\n', i - start);
                assert(rest.take(i - start) =~= v@.subrange(start as int, i as int));
                assert(rest.skip(i - start + 1) =~= v@.subrange(i + 1, n as int));
            }
            let end = if i > start && v[i - 1] == '\r' {
                i - 1
            } else {
                i
            };
            assert(v@.subrange(start as int, end as int) =~= strip_cr(
                v@.subrange(start as int, i as int),
            ));
            let ghost old_r = r@;
            r.push((start, end));
            assert(spans_of(v@, r@) =~= spans_of(v@, old_r).push(
                v@.subrange(start as int, end as int),
            ));
            start = i + 1;
            assert(lines(v@) =~= spans_of(v@, r@) + lines(v@.subrange(start as int, n as int)));
        }
        i = i + 1;
    }
    let ghost rest = v@.subrange(start as int, n as int);
    if start < n {
        proof {
            lemma_index_of_char_at(rest, '\n', rest.len() as int);
        }
        let ghost old_r = r@;
        r.push((start, n));
        assert(spans_of(v@, r@) =~= spans_of(v@, old_r).push(rest));
        assert(lines(rest) =~= seq![rest]);
    } else {
        assert(lines(rest) =~= Seq::<Seq<char>>::empty());
    }
    assert(lines(v@) =~= spans_of(v@, r@));
    r
}

/// `ls` joined with `sep` between consecutive elements (`[T]::join`).
pub open spec fn join_with(ls: Seq<Seq<char>>, sep: Seq<char>) -> Seq<char>
    decreases ls.len(),
{
    if ls.len() == 0 {
        seq![]
    } else if ls.len() == 1 {
        ls[0]
    } else {
        join_with(ls.drop_last(), sep) + sep + ls.last()
    }
}

/// Values of a list of strings.
pub open spec fn string_views(v: Seq<String>) -> Seq<Seq<char>> {
    v.map_values(|l: String| l@)
}

/// Joins `lines` with `sep`.
pub fn join_strings(lines: &Vec<String>, sep: &str) -> (s: String)
    ensures
        s@ == join_with(string_views(lines@), sep@),
{
    let ghost ls = string_views(lines@);
    let mut s = String::new();
    let mut i: usize = 0;
    while i < lines.len()
        invariant
            i <= lines@.len(),
            ls == string_views(lines@),
            s@ == join_with(ls.take(i as int), sep@),
        decreases lines@.len() - i,
    {
        if i > 0 {
            s.append(sep);
        }
        s.append(lines[i].as_str());
        assert(ls.take(i + 1).drop_last() =~= ls.take(i as int));
        if i == 0 {
            assert(ls.take(1) =~= seq![ls[0]]);
            assert(s@ =~= join_with(ls.take(1), sep@));
        } else {
            assert(s@ =~= join_with(ls.take(i + 1), sep@));
        }
        i = i + 1;
    }
    assert(ls.take(ls.len() as int) =~= ls);
    s
}

/// The character of decimal digit `d`.
pub open spec fn digit_char(d: nat) -> char {
    ((d + 48) as u32) as char
}

/// Decimal notation of `n`, without leading zeros.
pub open spec fn decimal(n: nat) -> Seq<char>
    decreases n,
{
    if n < 10 {
        seq![digit_char(n)]
    } else {
        decimal(n / 10).push(digit_char(n % 10))
    }
}

fn digit(d: u64) -> (c: char)
    requires
        d < 10,
    ensures
        c == digit_char(d as nat),
{
    if d == 0 {
        '0'
    } else if d == 1 {
        '1'
    } else if d == 2 {
        '2'
    } else if d == 3 {
        '3'
    } else if d == 4 {
        '4'
    } else if d == 5 {
        '5'
    } else if d == 6 {
        '6'
    } else if d == 7 {
        '7'
    } else if d == 8 {
        '8'
    } else {
        '9'
    }
}

/// Appends the decimal notation of `n` to `s`.
pub fn push_decimal(s: &mut String, n: u64)
    ensures
        final(s)@ == old(s)@ + decimal(n as nat),
    decreases n,
{
    if n < 10 {
        push_char(s, digit(n));
        assert(old(s)@.push(digit_char(n as nat)) =~= old(s)@ + decimal(n as nat));
    } else {
        push_decimal(s, n / 10);
        push_char(s, digit(n % 10));
        assert(old(s)@ + decimal((n / 10) as nat) + seq![digit_char((n % 10) as nat)] =~= old(s)@
            + decimal(n as nat));
    }
}

} // verus!
