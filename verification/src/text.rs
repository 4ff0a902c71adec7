//! Character-sequence utilities shared by the parser and the serializer:
//! space trimming, first-occurrence search, and line splitting.

use vstd::prelude::*;

verus! {

/// Characters treated as padding around keys and values and as the
/// content of a blank line.
pub open spec fn is_space(c: char) -> bool {
    c == ' ' || c == '\t'
}

/// Every character of `s` is a space (true of the empty sequence).
pub open spec fn all_space(s: Seq<char>) -> bool {
    forall|i: int| 0 <= i < s.len() ==> is_space(#[trigger] s[i])
}

/// `s` without its leading spaces.
pub open spec fn trim_front(s: Seq<char>) -> Seq<char>
    decreases s.len(),
{
    if s.len() > 0 && is_space(s[0]) {
        trim_front(s.drop_first())
    } else {
        s
    }
}

/// `s` without its trailing spaces.
pub open spec fn trim_back(s: Seq<char>) -> Seq<char>
    decreases s.len(),
{
    if s.len() > 0 && is_space(s.last()) {
        trim_back(s.drop_last())
    } else {
        s
    }
}

/// `s` without leading or trailing spaces.
pub open spec fn trim_spec(s: Seq<char>) -> Seq<char> {
    trim_back(trim_front(s))
}

/// Index of the first occurrence of `c` in `s`, if any.
pub open spec fn find_char(s: Seq<char>, c: char) -> Option<int>
    decreases s.len(),
{
    if s.len() == 0 {
        None
    } else if s[0] == c {
        Some(0)
    } else {
        match find_char(s.drop_first(), c) {
            Some(i) => Some(i + 1),
            None => None,
        }
    }
}

/// `find_char` returns the first index holding `c`, or `None` when `c`
/// does not occur.
pub proof fn lemma_find_char_props(s: Seq<char>, c: char)
    ensures
        match find_char(s, c) {
            Some(i) => 0 <= i < s.len() && s[i] == c && (forall|j: int|
                0 <= j < i ==> s[j] != c),
            None => forall|j: int| 0 <= j < s.len() ==> s[j] != c,
        },
    decreases s.len(),
{
    if s.len() > 0 && s[0] != c {
        lemma_find_char_props(s.drop_first(), c);
        assert(forall|j: int| 0 <= j < s.drop_first().len() ==> #[trigger] s.drop_first()[j] == s[
            j + 1
        ]);
        match find_char(s.drop_first(), c) {
            Some(i) => {
                assert forall|j: int| 0 <= j < i + 1 implies s[j] != c by {
                    if j > 0 {
                        assert(s.drop_first()[j - 1] != c);
                    }
                }
            },
            None => {
                assert forall|j: int| 0 <= j < s.len() implies s[j] != c by {
                    if j > 0 {
                        assert(s.drop_first()[j - 1] != c);
                    }
                }
            },
        }
    }
}

/// Splitting `s` into the lines before and after its first newline:
/// a text with no newline is one line; a trailing newline opens no
/// further line.
pub open spec fn split_lines(t: Seq<char>) -> Seq<Seq<char>>
    decreases t.len(),
    via split_lines_decreases
{
    if t.len() == 0 {
        Seq::empty()
    } else {
        match find_char(t, '\n') {
            Some(i) => seq![t.take(i)] + split_lines(t.skip(i + 1)),
            None => seq![t],
        }
    }
}

#[via_fn]
proof fn split_lines_decreases(t: Seq<char>) {
    if t.len() != 0 {
        lemma_find_char_props(t, '\n');
    }
}

/// Index of the first non-space character of `s`, or the length of `s`
/// when every character is a space.
pub fn first_non_space(s: &str) -> (r: usize)
    ensures
        r <= s@.len(),
        forall|j: int| 0 <= j < r ==> is_space(#[trigger] s@[j]),
        r < s@.len() ==> !is_space(s@[r as int]),
{
    let n = s.unicode_len();
    let mut a: usize = 0;
    loop
        invariant
            n == s@.len(),
            a <= n,
            forall|j: int| 0 <= j < a ==> is_space(#[trigger] s@[j]),
        ensures
            a <= n,
            forall|j: int| 0 <= j < a ==> is_space(#[trigger] s@[j]),
            a == n || !is_space(s@[a as int]),
        decreases n - a,
    {
        if a >= n {
            break ;
        }
        let c = s.get_char(a);
        if !(c == ' ' || c == '\t') {
            break ;
        }
        a = a + 1;
    }
    a
}

/// If the first `a` characters of `s` are spaces and the character at
/// `a` (when there is one) is not, then trimming the front drops
/// exactly those `a` characters.
pub proof fn lemma_trim_front_at(s: Seq<char>, a: int)
    requires
        0 <= a <= s.len(),
        forall|j: int| 0 <= j < a ==> is_space(#[trigger] s[j]),
        a == s.len() || !is_space(s[a]),
    ensures
        trim_front(s) == s.skip(a),
    decreases a,
{
    if a == 0 {
        assert(s.skip(0) =~= s);
    } else {
        lemma_trim_front_at(s.drop_first(), a - 1);
        assert(s.drop_first().skip(a - 1) =~= s.skip(a));
    }
}

/// If the characters of `s` from `b` on are spaces and the character
/// before `b` (when there is one) is not, then trimming the back keeps
/// exactly the first `b` characters.
pub proof fn lemma_trim_back_at(s: Seq<char>, b: int)
    requires
        0 <= b <= s.len(),
        forall|j: int| b <= j < s.len() ==> is_space(#[trigger] s[j]),
        b == 0 || !is_space(s[b - 1]),
    ensures
        trim_back(s) == s.take(b),
    decreases s.len(),
{
    if b == s.len() {
        if s.len() > 0 {
            assert(!is_space(s.last()));
        }
        assert(s.take(b) =~= s);
    } else {
        assert(is_space(s.last()));
        lemma_trim_back_at(s.drop_last(), b);
        assert(s.drop_last().take(b) =~= s.take(b));
    }
}

/// Remove leading and trailing spaces from `s`.
pub fn trim(s: &str) -> (r: String)
    ensures
        r@ == trim_spec(s@),
{
    let n = s.unicode_len();
    let a = first_non_space(s);
    if a == n {
        proof {
            lemma_trim_front_at(s@, a as int);
            assert(s@.skip(n as int) =~= Seq::<char>::empty());
        }
        return String::new();
    }
    let mut e: usize = n;
    loop
        invariant
            n == s@.len(),
            a < n,
            !is_space(s@[a as int]),
            a < e <= n,
            forall|j: int| e <= j < n ==> is_space(#[trigger] s@[j]),
        ensures
            a < e <= n,
            forall|j: int| e <= j < n ==> is_space(#[trigger] s@[j]),
            !is_space(s@[e - 1]),
        decreases e,
    {
        let c = s.get_char(e - 1);
        if !(c == ' ' || c == '\t') {
            break ;
        }
        e = e - 1;
    }
    let r = s.substring_char(a, e).to_owned();
    proof {
        lemma_trim_front_at(s@, a as int);
        lemma_trim_back_at(s@.skip(a as int), e - a);
        assert(s@.skip(a as int).take(e - a) =~= s@.subrange(a as int, e as int));
    }
    r
}

/// Character-for-character equality of two strings.
pub fn str_eq(a: &str, b: &str) -> (r: bool)
    ensures
        r == (a@ == b@),
{
    let na = a.unicode_len();
    let nb = b.unicode_len();
    if na != nb {
        return false;
    }
    let mut i: usize = 0;
    let mut same = true;
    loop
        invariant_except_break
            same,
        invariant
            na == a@.len(),
            na == b@.len(),
            i <= na,
            forall|j: int| 0 <= j < i ==> a@[j] == b@[j],
        ensures
            same ==> i == na,
            same ==> forall|j: int| 0 <= j < i ==> a@[j] == b@[j],
            !same ==> a@ != b@,
        decreases na - i,
    {
        if i >= na {
            break ;
        }
        if a.get_char(i) != b.get_char(i) {
            same = false;
            break ;
        }
        i = i + 1;
    }
    if same {
        assert(a@ =~= b@);
    }
    same
}

/// Index of the first occurrence of `c` in `s` at or after `start`,
/// reported against the suffix that begins at `start`.
pub fn find_char_from(s: &str, start: usize, c: char) -> (r: Option<usize>)
    requires
        start <= s@.len(),
    ensures
        match r {
            Some(i) => start <= i < s@.len() && find_char(s@.skip(start as int), c) == Some(
                i - start,
            ),
            None => find_char(s@.skip(start as int), c) is None,
        },
{
    let n = s.unicode_len();
    let mut i: usize = start;
    loop
        invariant
            n == s@.len(),
            start <= i <= n,
            forall|j: int| start <= j < i ==> s@[j] != c,
        ensures
            start <= i <= n,
            forall|j: int| start <= j < i ==> s@[j] != c,
            i == n || s@[i as int] == c,
        decreases n - i,
    {
        if i >= n {
            break ;
        }
        if s.get_char(i) == c {
            break ;
        }
        i = i + 1;
    }
    proof {
        lemma_find_char_props(s@.skip(start as int), c);
    }
    if i == n {
        assert forall|j: int| 0 <= j < s@.skip(start as int).len() implies s@.skip(
            start as int,
        )[j] != c by {
            assert(s@.skip(start as int)[j] == s@[start + j]);
        }
        None
    } else {
        assert(s@.skip(start as int)[i - start] == c);
        assert forall|j: int| 0 <= j < i - start implies s@.skip(start as int)[j] != c by {
            assert(s@.skip(start as int)[j] == s@[start + j]);
        }
        Some(i)
    }
}

} // verus!
