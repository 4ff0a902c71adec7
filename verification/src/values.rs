//! Multi-value strings: a key's value list is rendered as a single
//! string with the items separated by `", "`, and such a string is
//! decoded back into its items. Decoding inverts rendering for lists
//! of non-empty, delimiter-free items (`lemma_split_join_inverse`).

use vstd::prelude::*;

verus! {

/// The character sequences of a vector of strings.
pub open spec fn views_of(v: Seq<String>) -> Seq<Seq<char>> {
    Seq::new(v.len(), |i: int| v[i]@)
}

/// Index of the first value delimiter `", "` in `s`, if any.
pub open spec fn find_delim(s: Seq<char>) -> Option<int>
    decreases s.len(),
{
    if s.len() < 2 {
        None
    } else if s[0] == ',' && s[1] == ' ' {
        Some(0)
    } else {
        match find_delim(s.drop_first()) {
            Some(i) => Some(i + 1),
            None => None,
        }
    }
}

/// `find_delim` returns the first index where `", "` begins, or `None`
/// when the delimiter does not occur.
pub proof fn lemma_find_delim_props(s: Seq<char>)
    ensures
        match find_delim(s) {
            Some(i) => 0 <= i && i + 2 <= s.len() && s[i] == ',' && s[i + 1] == ' ' && (forall|
                j: int,
            |
                0 <= j < i ==> !((#[trigger] s[j]) == ',' && s[j + 1] == ' ')),
            None => forall|j: int|
                0 <= j && j + 2 <= s.len() ==> !((#[trigger] s[j]) == ',' && s[j + 1] == ' '),
        },
    decreases s.len(),
{
    if s.len() >= 2 && !(s[0] == ',' && s[1] == ' ') {
        lemma_find_delim_props(s.drop_first());
        assert(forall|j: int| 0 <= j < s.drop_first().len() ==> #[trigger] s.drop_first()[j] == s[
            j + 1
        ]);
        match find_delim(s.drop_first()) {
            Some(i) => {
                assert forall|j: int| 0 <= j < i + 1 implies !((#[trigger] s[j]) == ',' && s[j + 1]
                    == ' ') by {
                    if j > 0 {
                        assert(!(s.drop_first()[j - 1] == ',' && s.drop_first()[j] == ' '));
                    }
                }
            },
            None => {
                assert forall|j: int| 0 <= j && j + 2 <= s.len() implies !((#[trigger] s[j]) == ','
                    && s[j + 1] == ' ') by {
                    if j > 0 {
                        assert(!(s.drop_first()[j - 1] == ',' && s.drop_first()[j] == ' '));
                    }
                }
            },
        }
    }
}

/// The items of a rendered value list: the segments of `v` between
/// occurrences of `", "`. Empty text holds no item.
pub open spec fn split_value(v: Seq<char>) -> Seq<Seq<char>>
    decreases v.len(),
    via split_value_decreases
{
    if v.len() == 0 {
        Seq::empty()
    } else {
        match find_delim(v) {
            Some(i) => seq![v.take(i)] + split_value(v.skip(i + 2)),
            None => seq![v],
        }
    }
}

#[via_fn]
proof fn split_value_decreases(v: Seq<char>) {
    if v.len() != 0 {
        lemma_find_delim_props(v);
    }
}

/// The rendering of a value list as one string, the items separated by
/// `", "`.
pub open spec fn join_values(items: Seq<Seq<char>>) -> Seq<char>
    decreases items.len(),
{
    if items.len() == 0 {
        Seq::empty()
    } else if items.len() == 1 {
        items[0]
    } else {
        items[0] + seq![',', ' '] + join_values(items.drop_first())
    }
}

/// Joining appends item by item.
pub proof fn lemma_join_values_push(items: Seq<Seq<char>>, x: Seq<char>)
    requires
        items.len() >= 1,
    ensures
        join_values(items.push(x)) == join_values(items) + seq![',', ' '] + x,
    decreases items.len(),
{
    if items.len() == 1 {
        assert(items.push(x).drop_first() =~= seq![x]);
        assert(join_values(seq![x]) == x);
        assert(items.push(x)[0] == items[0]);
        assert(join_values(items.push(x)) =~= join_values(items) + seq![',', ' '] + x);
    } else {
        assert(items.push(x).drop_first() =~= items.drop_first().push(x));
        lemma_join_values_push(items.drop_first(), x);
        assert(items.push(x)[0] == items[0]);
        assert(join_values(items.push(x)) == items[0] + seq![',', ' '] + (join_values(
            items.drop_first(),
        ) + seq![',', ' '] + x));
        assert(join_values(items.push(x)) =~= join_values(items) + seq![',', ' '] + x);
    }
}

/// The first index where `", "` begins determines `find_delim`.
pub proof fn lemma_find_delim_is(s: Seq<char>, i: int)
    requires
        0 <= i,
        i + 2 <= s.len(),
        s[i] == ',',
        s[i + 1] == ' ',
        forall|j: int| 0 <= j < i ==> !((#[trigger] s[j]) == ',' && s[j + 1] == ' '),
    ensures
        find_delim(s) == Some(i),
{
    lemma_find_delim_props(s);
}

/// Ahead of a delimiter-free prefix, the first delimiter of the
/// concatenation stands right where the prefix ends.
pub proof fn lemma_find_delim_after(x: Seq<char>, r: Seq<char>)
    requires
        find_delim(x) is None,
        r.len() >= 2,
        r[0] == ',',
        r[1] == ' ',
    ensures
        find_delim(x + r) == Some(x.len() as int),
{
    lemma_find_delim_props(x);
    let s = x + r;
    let n = x.len() as int;
    assert(s[n] == ',');
    assert(s[n + 1] == ' ');
    assert forall|j: int| 0 <= j < n implies !((#[trigger] s[j]) == ',' && s[j + 1] == ' ') by {
        assert(s[j] == x[j]);
        if j + 1 < n {
            assert(s[j + 1] == x[j + 1]);
            assert(!(x[j] == ',' && x[j + 1] == ' '));
        } else {
            assert(s[j + 1] == r[0]);
        }
    }
    lemma_find_delim_is(s, n);
}

/// Decoding inverts rendering: splitting the rendering of a list of
/// non-empty, delimiter-free items yields the list back.
pub proof fn lemma_split_join_inverse(vs: Seq<Seq<char>>)
    requires
        forall|i: int|
            0 <= i < vs.len() ==> (#[trigger] vs[i]).len() > 0 && find_delim(vs[i]) is None,
    ensures
        split_value(join_values(vs)) == vs,
    decreases vs.len(),
{
    if vs.len() == 0 {
        assert(split_value(join_values(vs)) =~= vs);
    } else if vs.len() == 1 {
        assert(join_values(vs) == vs[0]);
        assert(split_value(vs[0]) == seq![vs[0]]);
        assert(split_value(join_values(vs)) =~= vs);
    } else {
        let x = vs[0];
        let r = seq![',', ' '] + join_values(vs.drop_first());
        assert(join_values(vs) =~= x + r);
        assert(r[0] == ',' && r[1] == ' ');
        lemma_find_delim_after(x, r);
        let s = join_values(vs);
        assert(find_delim(s) == Some(x.len() as int));
        assert(s.take(x.len() as int) =~= x);
        assert(s.skip(x.len() as int + 2) =~= join_values(vs.drop_first()));
        assert(s.len() > 0);
        assert(split_value(s) == seq![x] + split_value(join_values(vs.drop_first())));
        assert forall|i: int| 0 <= i < vs.drop_first().len() implies (#[trigger] vs.drop_first()[
            i
        ]).len() > 0 && find_delim(vs.drop_first()[i]) is None by {
            assert(vs.drop_first()[i] == vs[i + 1]);
        }
        lemma_split_join_inverse(vs.drop_first());
        assert(split_value(join_values(vs)) =~= vs);
    }
}

/// Index of the first `", "` in `s` at or after `start`, reported
/// against the suffix that begins at `start`.
fn find_delim_from(s: &str, start: usize) -> (r: Option<usize>)
    requires
        start <= s@.len(),
    ensures
        match r {
            Some(i) => start <= i && i + 2 <= s@.len() && find_delim(s@.skip(start as int))
                == Some(i - start),
            None => find_delim(s@.skip(start as int)) is None,
        },
{
    let n = s.unicode_len();
    let mut i: usize = start;
    let mut found = false;
    loop
        invariant_except_break
            !found,
        invariant
            n == s@.len(),
            start <= i <= n,
            forall|j: int|
                start <= j < i && j + 1 < n ==> !((#[trigger] s@[j]) == ',' && s@[j + 1] == ' '),
        ensures
            start <= i <= n,
            forall|j: int|
                start <= j < i && j + 1 < n ==> !((#[trigger] s@[j]) == ',' && s@[j + 1] == ' '),
            found ==> i + 1 < n && s@[i as int] == ',' && s@[i + 1] == ' ',
            !found ==> i as int + 1 >= n as int,
        decreases n - i,
    {
        if i >= n {
            break ;
        }
        if i + 1 >= n {
            break ;
        }
        if s.get_char(i) == ',' && s.get_char(i + 1) == ' ' {
            found = true;
            break ;
        }
        i = i + 1;
    }
    proof {
        lemma_find_delim_props(s@.skip(start as int));
        assert(forall|k: int|
            0 <= k < s@.skip(start as int).len() ==> #[trigger] s@.skip(start as int)[k] == s@[
                start + k
            ]);
    }
    if found {
        assert(i - start + 2 <= s@.skip(start as int).len());
        assert(s@.skip(start as int)[i - start] == ',');
        assert(s@.skip(start as int)[i - start + 1] == ' ');
        assert forall|k: int| 0 <= k < i - start implies !((#[trigger] s@.skip(start as int)[k])
            == ',' && s@.skip(start as int)[k + 1] == ' ') by {
            assert(start + k + 1 < n);
            assert(!(s@[start + k] == ',' && s@[start + k + 1] == ' '));
        }
        assert(find_delim(s@.skip(start as int)) == Some(i - start));
        Some(i)
    } else {
        assert forall|k: int| 0 <= k && k + 2 <= s@.skip(start as int).len() implies !((
        #[trigger] s@.skip(start as int)[k]) == ',' && s@.skip(start as int)[k + 1] == ' ') by {
            assert(start + k < i && start + k + 1 < n);
            assert(!(s@[start + k] == ',' && s@[start + k + 1] == ' '));
        }
        None
    }
}

/// Decode a rendered value list into its items.
pub fn split_value_exec(v: &str) -> (r: Vec<String>)
    ensures
        views_of(r@) == split_value(v@),
{
    let n = v.unicode_len();
    let mut pos: usize = 0;
    let mut out: Vec<String> = Vec::new();
    proof {
        assert(v@.skip(0int) =~= v@);
        assert(views_of(out@) + split_value(v@) =~= split_value(v@));
    }
    loop
        invariant
            n == v@.len(),
            pos <= n,
            split_value(v@) == views_of(out@) + split_value(v@.skip(pos as int)),
        ensures
            pos == n,
            split_value(v@) == views_of(out@) + split_value(v@.skip(pos as int)),
        decreases n - pos,
    {
        if pos >= n {
            break ;
        }
        let ghost suffix = v@.skip(pos as int);
        let ghost done_old = views_of(out@);
        let d = find_delim_from(v, pos);
        let (end, next): (usize, usize) = match d {
            Some(i) => (i, i + 2),
            None => (n, n),
        };
        let item = v.substring_char(pos, end).to_owned();
        proof {
            assert(suffix.len() > 0);
            match d {
                Some(i) => {
                    assert(item@ =~= suffix.take(end - pos));
                    assert(suffix.skip(end - pos + 2) =~= v@.skip(next as int));
                    assert(split_value(suffix) == seq![item@] + split_value(v@.skip(next as int)));
                },
                None => {
                    assert(item@ =~= suffix);
                    assert(split_value(suffix) == seq![item@]);
                    assert(v@.skip(n as int) =~= Seq::<char>::empty());
                    assert(seq![item@] =~= seq![item@] + split_value(v@.skip(n as int)));
                },
            }
        }
        out.push(item);
        proof {
            assert(views_of(out@) =~= done_old.push(out@[out@.len() - 1]@));
            assert(done_old + (seq![out@[out@.len() - 1]@] + split_value(v@.skip(next as int)))
                =~= views_of(out@) + split_value(v@.skip(next as int)));
        }
        pos = next;
    }
    proof {
        assert(v@.skip(n as int) =~= Seq::<char>::empty());
        assert(views_of(out@) + Seq::<Seq<char>>::empty() =~= views_of(out@));
    }
    out
}

/// Render a value list as one string, the items separated by `", "`.
pub fn join_values_exec(items: &Vec<String>) -> (r: String)
    ensures
        r@ == join_values(views_of(items@)),
{
    let n = items.len();
    if n == 0 {
        let r = String::new();
        assert(views_of(items@).len() == 0);
        return r;
    }
    let mut r = items[0].clone();
    proof {
        assert(views_of(items@).take(1int).len() == 1);
        assert(r@ == join_values(views_of(items@).take(1int)));
    }
    let mut i: usize = 1;
    while i < n
        invariant
            1 <= i <= n,
            n == items@.len(),
            r@ == join_values(views_of(items@).take(i as int)),
        decreases n - i,
    {
        r.append(", ");
        r.append(items[i].as_str());
        proof {
            reveal_strlit(", ");
            assert(", "@ =~= seq![',', ' ']);
            assert(views_of(items@).take(i as int).push(views_of(items@)[i as int]) =~= views_of(
                items@,
            ).take(i + 1));
            lemma_join_values_push(views_of(items@).take(i as int), views_of(items@)[i as int]);
            assert(r@ =~= join_values(views_of(items@).take(i + 1)));
        }
        i = i + 1;
    }
    proof {
        assert(views_of(items@).take(n as int) =~= views_of(items@));
    }
    r
}

} // verus!
