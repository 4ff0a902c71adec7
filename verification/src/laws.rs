//! The laws of the library, each stated over the spec-level models and
//! proved once and for all: the round-trip identity of parsing and
//! rendering, and the idempotence, order preservation and
//! no-duplication of the upsert.

use vstd::prelude::*;

use crate::entries::{render_doc, render_line, EntrySpec};
use crate::parsing::{classify_line, parse_lines, parse_spec};
use crate::sections::{
    has_key, has_section, key_index, keymap_upsert, lemma_key_index_is, lemma_key_index_props,
    lemma_section_index_is, lemma_section_index_props, map_upsert, section_index, upsert_values,
    values_or_empty, KeyEntrySpec, SectionSpec,
};
use crate::text::{find_char, lemma_find_char_props, split_lines};

verus! {

/// A line already in the shape the serializer writes: it classifies
/// successfully and rendering its entry reproduces it. Header and
/// comment lines that parse are always canonical; a blank line is
/// canonical only when empty; a key/value line only in the exact form
/// `key = value`.
pub open spec fn line_canonical(l: Seq<char>) -> bool {
    &&& classify_line(l) is Ok
    &&& render_line(classify_line(l)->Ok_0) == l
}

/// Text in the shape the serializer writes: empty or
/// newline-terminated, every line canonical.
pub open spec fn canonical_text(t: Seq<char>) -> bool {
    &&& t.len() == 0 || t.last() == '\n'
    &&& forall|i: int|
        0 <= i < split_lines(t).len() ==> line_canonical(#[trigger] split_lines(t)[i])
}

/// Round-trip identity: canonical text parses successfully, and
/// rendering the parsed document reproduces the text exactly.
pub proof fn lemma_round_trip(t: Seq<char>)
    requires
        canonical_text(t),
    ensures
        parse_spec(t) is Ok,
        render_doc(parse_spec(t)->Ok_0) == t,
    decreases t.len(),
{
    if t.len() == 0 {
        assert(split_lines(t) =~= Seq::<Seq<char>>::empty());
        assert(render_doc(Seq::<EntrySpec>::empty()) =~= t);
    } else {
        lemma_find_char_props(t, '\n');
        assert(t[t.len() - 1] == '\n');
        match find_char(t, '\n') {
            None => {
                assert(false);
            },
            Some(i) => {
                let l = t.take(i);
                let rest = t.skip(i + 1);
                assert(split_lines(t) == seq![l] + split_lines(rest));
                assert((seq![l] + split_lines(rest))[0] == l);
                assert((seq![l] + split_lines(rest)).drop_first() =~= split_lines(rest));
                assert(line_canonical(l)) by {
                    assert(split_lines(t)[0] == l);
                }
                assert(canonical_text(rest)) by {
                    if rest.len() > 0 {
                        assert(rest.last() == t.last());
                    }
                    assert forall|k: int| 0 <= k < split_lines(rest).len() implies line_canonical(
                        #[trigger] split_lines(rest)[k],
                    ) by {
                        assert(split_lines(rest)[k] == split_lines(t)[k + 1]);
                    }
                }
                lemma_round_trip(rest);
                let e = classify_line(l)->Ok_0;
                let es_rest = parse_spec(rest)->Ok_0;
                assert(parse_lines(split_lines(t)) == Ok::<Seq<EntrySpec>, crate::entries::ParseError>(
                    seq![e] + es_rest,
                ));
                assert((seq![e] + es_rest)[0] == e);
                assert((seq![e] + es_rest).drop_first() =~= es_rest);
                assert(render_doc(seq![e] + es_rest) == render_line(e) + seq!['\n'] + render_doc(
                    es_rest,
                ));
                assert(render_line(e) + seq!['\n'] + rest =~= t);
            },
        }
    }
}

/// `v` is among the values after it is upserted.
pub proof fn lemma_upsert_values_contains(vs: Option<Seq<Seq<char>>>, v: Seq<char>)
    ensures
        upsert_values(vs, v).contains(v),
{
    match vs {
        None => {
            assert(seq![v][0] == v);
        },
        Some(l) => {
            if !l.contains(v) {
                assert(l.push(v)[l.len() as int] == v);
            }
        },
    }
}

/// Upsert idempotence at the key level.
pub proof fn lemma_keymap_upsert_idempotent(ks: Seq<KeyEntrySpec>, key: Seq<char>, v: Seq<char>)
    ensures
        keymap_upsert(keymap_upsert(ks, key, v), key, v) == keymap_upsert(ks, key, v),
{
    lemma_key_index_props(ks, key);
    let ks1 = keymap_upsert(ks, key, v);
    match key_index(ks, key) {
        Some(i) => {
            assert(ks1[i].key == key);
            assert forall|j: int| 0 <= j < i implies (#[trigger] ks1[j]).key != key by {
                assert(ks1[j] == ks[j]);
            }
            lemma_key_index_is(ks1, key, i);
            lemma_upsert_values_contains(ks[i].values, v);
            assert(upsert_values(ks1[i].values, v) == upsert_values(ks[i].values, v));
            assert(keymap_upsert(ks1, key, v) =~~= ks1);
        },
        None => {
            let n = ks.len() as int;
            assert(ks1[n].key == key);
            assert forall|j: int| 0 <= j < n implies (#[trigger] ks1[j]).key != key by {
                assert(ks1[j] == ks[j]);
            }
            lemma_key_index_is(ks1, key, n);
            assert(seq![v][0] == v);
            assert(upsert_values(ks1[n].values, v) == seq![v]);
            assert(keymap_upsert(ks1, key, v) =~~= ks1);
        },
    }
}

/// Upsert idempotence: applying the same upsert twice in sequence
/// yields the same section map as applying it once.
pub proof fn lemma_upsert_idempotent(
    ss: Seq<SectionSpec>,
    name: Seq<char>,
    key: Seq<char>,
    v: Seq<char>,
)
    ensures
        map_upsert(map_upsert(ss, name, key, v), name, key, v) == map_upsert(ss, name, key, v),
{
    lemma_section_index_props(ss, name);
    let ss1 = map_upsert(ss, name, key, v);
    match section_index(ss, name) {
        Some(i) => {
            assert(ss1[i].name == name);
            assert forall|j: int| 0 <= j < i implies (#[trigger] ss1[j]).name != name by {
                assert(ss1[j] == ss[j]);
            }
            lemma_section_index_is(ss1, name, i);
            lemma_keymap_upsert_idempotent(ss[i].keys, key, v);
            assert(map_upsert(ss1, name, key, v) =~~= ss1);
        },
        None => {
            let n = ss.len() as int;
            assert(ss1[n].name == name);
            assert forall|j: int| 0 <= j < n implies (#[trigger] ss1[j]).name != name by {
                assert(ss1[j] == ss[j]);
            }
            lemma_section_index_is(ss1, name, n);
            lemma_keymap_upsert_idempotent(Seq::empty(), key, v);
            assert(map_upsert(ss1, name, key, v) =~~= ss1);
        },
    }
}

/// The names of the sections of a map, in stored order.
pub open spec fn section_names(ss: Seq<SectionSpec>) -> Seq<Seq<char>> {
    Seq::new(ss.len(), |i: int| ss[i].name)
}

/// The keys of a key map, in stored order.
pub open spec fn key_names(ks: Seq<KeyEntrySpec>) -> Seq<Seq<char>> {
    Seq::new(ks.len(), |i: int| ks[i].key)
}

/// Order preservation at the key level: an upsert keeps the key order
/// of a present key, appends an absent one at the end, and leaves
/// every other entry untouched.
pub proof fn lemma_keymap_upsert_order(ks: Seq<KeyEntrySpec>, key: Seq<char>, v: Seq<char>)
    ensures
        has_key(ks, key) ==> key_names(keymap_upsert(ks, key, v)) == key_names(ks),
        !has_key(ks, key) ==> key_names(keymap_upsert(ks, key, v)) == key_names(ks).push(key),
        forall|j: int|
            0 <= j < ks.len() && (#[trigger] ks[j]).key != key ==> keymap_upsert(ks, key, v)[j]
                == ks[j],
{
    lemma_key_index_props(ks, key);
    match key_index(ks, key) {
        Some(i) => {
            assert(key_names(keymap_upsert(ks, key, v)) =~= key_names(ks));
        },
        None => {
            assert(key_names(keymap_upsert(ks, key, v)) =~= key_names(ks).push(key));
        },
    }
}

/// Order preservation: sections and keys present before an upsert keep
/// their relative order and untouched content; a new section or key is
/// appended at the end, never interleaved.
pub proof fn lemma_upsert_order(
    ss: Seq<SectionSpec>,
    name: Seq<char>,
    key: Seq<char>,
    v: Seq<char>,
)
    ensures
        has_section(ss, name) ==> section_names(map_upsert(ss, name, key, v)) == section_names(ss),
        !has_section(ss, name) ==> section_names(map_upsert(ss, name, key, v)) == section_names(
            ss,
        ).push(name),
        forall|j: int|
            0 <= j < ss.len() && (#[trigger] ss[j]).name != name ==> map_upsert(ss, name, key, v)[j]
                == ss[j],
        match section_index(ss, name) {
            Some(i) => {
                &&& map_upsert(ss, name, key, v)[i].name == ss[i].name
                &&& (has_key(ss[i].keys, key) ==> key_names(map_upsert(ss, name, key, v)[i].keys)
                    == key_names(ss[i].keys))
                &&& (!has_key(ss[i].keys, key) ==> key_names(map_upsert(ss, name, key, v)[i].keys)
                    == key_names(ss[i].keys).push(key))
                &&& forall|j: int|
                    0 <= j < ss[i].keys.len() && (#[trigger] ss[i].keys[j]).key != key
                        ==> map_upsert(ss, name, key, v)[i].keys[j] == ss[i].keys[j]
            },
            None => true,
        },
{
    lemma_section_index_props(ss, name);
    match section_index(ss, name) {
        Some(i) => {
            lemma_keymap_upsert_order(ss[i].keys, key, v);
            assert(section_names(map_upsert(ss, name, key, v)) =~= section_names(ss));
        },
        None => {
            assert(section_names(map_upsert(ss, name, key, v)) =~= section_names(ss).push(name));
        },
    }
}

/// How often `v` occurs in a value list.
pub open spec fn occurrences(l: Seq<Seq<char>>, v: Seq<char>) -> nat
    decreases l.len(),
{
    if l.len() == 0 {
        0
    } else {
        (if l[0] == v {
            1nat
        } else {
            0nat
        }) + occurrences(l.drop_first(), v)
    }
}

/// Appending adds one occurrence of the appended value.
pub proof fn lemma_occurrences_push(l: Seq<Seq<char>>, v: Seq<char>, x: Seq<char>)
    ensures
        occurrences(l.push(x), v) == occurrences(l, v) + (if x == v {
            1nat
        } else {
            0nat
        }),
    decreases l.len(),
{
    if l.len() == 0 {
        assert(l.push(x).drop_first() =~= Seq::<Seq<char>>::empty());
        assert(l.push(x)[0] == x);
        assert(occurrences(Seq::<Seq<char>>::empty(), v) == 0);
    } else {
        assert(l.push(x).drop_first() =~= l.drop_first().push(x));
        assert(l.push(x)[0] == l[0]);
        lemma_occurrences_push(l.drop_first(), v, x);
    }
}

/// A value occurs in a list exactly when it occurs at least once.
pub proof fn lemma_occurrences_zero(l: Seq<Seq<char>>, v: Seq<char>)
    ensures
        (occurrences(l, v) == 0) <==> !l.contains(v),
    decreases l.len(),
{
    if l.len() > 0 {
        lemma_occurrences_zero(l.drop_first(), v);
        assert(forall|j: int| 0 <= j < l.drop_first().len() ==> #[trigger] l.drop_first()[j] == l[
            j + 1
        ]);
        if occurrences(l, v) == 0 {
            if l.contains(v) {
                let w = choose|w: int| 0 <= w < l.len() && l[w] == v;
                if w == 0 {
                    assert(false);
                } else {
                    assert(l.drop_first()[w - 1] == v);
                    assert(l.drop_first().contains(v));
                    assert(false);
                }
            }
        } else {
            if l[0] == v {
                assert(l.contains(v));
            } else {
                assert(occurrences(l.drop_first(), v) > 0);
                let w = choose|w: int| 0 <= w < l.drop_first().len() && l.drop_first()[w] == v;
                assert(l[w + 1] == v);
                assert(l.contains(v));
            }
        }
    }
}

/// Upserting a value yields exactly one occurrence when it was absent
/// and leaves the count unchanged when it was present.
pub proof fn lemma_upsert_values_occurrences(vs: Option<Seq<Seq<char>>>, v: Seq<char>)
    ensures
        occurrences(upsert_values(vs, v), v) == (if occurrences(values_or_empty(vs), v) == 0 {
            1nat
        } else {
            occurrences(values_or_empty(vs), v)
        }),
{
    match vs {
        None => {
            assert(seq![v].drop_first() =~= Seq::<Seq<char>>::empty());
            assert(occurrences(Seq::<Seq<char>>::empty(), v) == 0);
            assert(occurrences(seq![v], v) == 1);
        },
        Some(l) => {
            lemma_occurrences_zero(l, v);
            if !l.contains(v) {
                lemma_occurrences_push(l, v, v);
            }
        },
    }
}

/// The values recorded for `key` in the section named `name`: empty
/// when the section or the key is absent or the key holds no values.
pub open spec fn values_at(ss: Seq<SectionSpec>, name: Seq<char>, key: Seq<char>) -> Seq<
    Seq<char>,
> {
    match section_index(ss, name) {
        None => Seq::empty(),
        Some(i) => match key_index(ss[i].keys, key) {
            None => Seq::empty(),
            Some(j) => values_or_empty(ss[i].keys[j].values),
        },
    }
}

/// No duplication: after an upsert the value is present, recorded once
/// when it was absent, and its count is unchanged when it was already
/// present.
pub proof fn lemma_upsert_no_duplication(
    ss: Seq<SectionSpec>,
    name: Seq<char>,
    key: Seq<char>,
    v: Seq<char>,
)
    ensures
        values_at(map_upsert(ss, name, key, v), name, key).contains(v),
        occurrences(values_at(map_upsert(ss, name, key, v), name, key), v) == (if occurrences(
            values_at(ss, name, key),
            v,
        ) == 0 {
            1nat
        } else {
            occurrences(values_at(ss, name, key), v)
        }),
{
    lemma_section_index_props(ss, name);
    let ss1 = map_upsert(ss, name, key, v);
    match section_index(ss, name) {
        Some(i) => {
            assert(ss1[i].name == name);
            assert forall|j: int| 0 <= j < i implies (#[trigger] ss1[j]).name != name by {
                assert(ss1[j] == ss[j]);
            }
            lemma_section_index_is(ss1, name, i);
            let ks = ss[i].keys;
            lemma_key_index_props(ks, key);
            match key_index(ks, key) {
                Some(j) => {
                    assert(ss1[i].keys[j].key == key);
                    assert forall|w: int| 0 <= w < j implies (#[trigger] ss1[i].keys[w]).key
                        != key by {
                        assert(ss1[i].keys[w] == ks[w]);
                    }
                    lemma_key_index_is(ss1[i].keys, key, j);
                    assert(values_at(ss1, name, key) == upsert_values(ks[j].values, v));
                    assert(values_at(ss, name, key) == values_or_empty(ks[j].values));
                    lemma_upsert_values_occurrences(ks[j].values, v);
                    lemma_upsert_values_contains(ks[j].values, v);
                },
                None => {
                    let n = ks.len() as int;
                    assert(ss1[i].keys[n].key == key);
                    assert forall|w: int| 0 <= w < n implies (#[trigger] ss1[i].keys[w]).key
                        != key by {
                        assert(ss1[i].keys[w] == ks[w]);
                    }
                    lemma_key_index_is(ss1[i].keys, key, n);
                    assert(values_at(ss1, name, key) == seq![v]);
                    assert(seq![v].drop_first() =~= Seq::<Seq<char>>::empty());
                    assert(occurrences(Seq::<Seq<char>>::empty(), v) == 0);
                    assert(occurrences(seq![v], v) == 1);
                    assert(seq![v][0] == v);
                    assert(values_at(ss, name, key) =~= Seq::<Seq<char>>::empty());
                },
            }
        },
        None => {
            let n = ss.len() as int;
            assert(ss1[n].name == name);
            assert forall|j: int| 0 <= j < n implies (#[trigger] ss1[j]).name != name by {
                assert(ss1[j] == ss[j]);
            }
            lemma_section_index_is(ss1, name, n);
            let ks1 = ss1[n].keys;
            assert(ks1 == keymap_upsert(Seq::empty(), key, v));
            lemma_key_index_props(Seq::<KeyEntrySpec>::empty(), key);
            assert(ks1 =~~= seq![KeyEntrySpec { key: key, values: Some(seq![v]) }]);
            assert(ks1[0].key == key);
            lemma_key_index_is(ks1, key, 0);
            assert(values_at(ss1, name, key) == seq![v]);
            assert(seq![v].drop_first() =~= Seq::<Seq<char>>::empty());
            assert(occurrences(Seq::<Seq<char>>::empty(), v) == 0);
            assert(occurrences(seq![v], v) == 1);
            assert(seq![v][0] == v);
            assert(values_at(ss, name, key) =~= Seq::<Seq<char>>::empty());
        },
    }
}

} // verus!
