//! The section map: an ordered projection of the structural document
//! onto section -> key -> values, the idempotent upsert on it, and the
//! regeneration of a document from it.

use vstd::prelude::*;

use crate::entries::{Document, EntrySpec, LineEntry};
use crate::text::str_eq;
use crate::values::{join_values, join_values_exec, split_value, split_value_exec, views_of};

verus! {

/// One key of a section: `values` is `None` when the key was declared
/// with an empty value, and otherwise the ordered list of its values.
#[derive(Debug, PartialEq, Eq)]
pub struct KeyEntry {
    pub key: String,
    pub values: Option<Vec<String>>,
}

/// The mathematical form of a key entry.
#[verifier::ext_equal]
pub struct KeyEntrySpec {
    pub key: Seq<char>,
    pub values: Option<Seq<Seq<char>>>,
}

impl View for KeyEntry {
    type V = KeyEntrySpec;

    open spec fn view(&self) -> KeyEntrySpec {
        KeyEntrySpec {
            key: self.key@,
            values: match self.values {
                None => None,
                Some(l) => Some(views_of(l@)),
            },
        }
    }
}

/// The keys of one section, in order of first appearance.
#[derive(Debug, PartialEq, Eq)]
pub struct KeyMap {
    pub entries: Vec<KeyEntry>,
}

impl View for KeyMap {
    type V = Seq<KeyEntrySpec>;

    open spec fn view(&self) -> Seq<KeyEntrySpec> {
        Seq::new(self.entries@.len(), |i: int| self.entries@[i]@)
    }
}

/// A named section with its keys.
#[derive(Debug, PartialEq, Eq)]
pub struct Section {
    pub name: String,
    pub keys: KeyMap,
}

/// The mathematical form of a section.
#[verifier::ext_equal]
pub struct SectionSpec {
    pub name: Seq<char>,
    pub keys: Seq<KeyEntrySpec>,
}

impl View for Section {
    type V = SectionSpec;

    open spec fn view(&self) -> SectionSpec {
        SectionSpec { name: self.name@, keys: self.keys@ }
    }
}

/// The section map: sections in order of first appearance.
#[derive(Debug, PartialEq, Eq)]
pub struct SectionMap {
    pub sections: Vec<Section>,
}

impl View for SectionMap {
    type V = Seq<SectionSpec>;

    open spec fn view(&self) -> Seq<SectionSpec> {
        Seq::new(self.sections@.len(), |i: int| self.sections@[i]@)
    }
}

/// Index of the first entry of `ks` whose key is `key`, if any.
pub open spec fn key_index(ks: Seq<KeyEntrySpec>, key: Seq<char>) -> Option<int>
    decreases ks.len(),
{
    if ks.len() == 0 {
        None
    } else if ks[0].key == key {
        Some(0)
    } else {
        match key_index(ks.drop_first(), key) {
            Some(i) => Some(i + 1),
            None => None,
        }
    }
}

/// Whether `ks` holds an entry for `key`.
pub open spec fn has_key(ks: Seq<KeyEntrySpec>, key: Seq<char>) -> bool {
    key_index(ks, key) is Some
}

/// `key_index` returns the first index whose key matches, or `None`
/// when no key matches.
pub proof fn lemma_key_index_props(ks: Seq<KeyEntrySpec>, key: Seq<char>)
    ensures
        match key_index(ks, key) {
            Some(i) => 0 <= i < ks.len() && ks[i].key == key && (forall|j: int|
                0 <= j < i ==> (#[trigger] ks[j]).key != key),
            None => forall|j: int| 0 <= j < ks.len() ==> (#[trigger] ks[j]).key != key,
        },
    decreases ks.len(),
{
    if ks.len() > 0 && ks[0].key != key {
        lemma_key_index_props(ks.drop_first(), key);
        assert(forall|j: int| 0 <= j < ks.drop_first().len() ==> #[trigger] ks.drop_first()[j]
            == ks[j + 1]);
        match key_index(ks.drop_first(), key) {
            Some(i) => {
                assert forall|j: int| 0 <= j < i + 1 implies (#[trigger] ks[j]).key != key by {
                    if j > 0 {
                        assert(ks.drop_first()[j - 1].key != key);
                    }
                }
            },
            None => {
                assert forall|j: int| 0 <= j < ks.len() implies (#[trigger] ks[j]).key != key by {
                    if j > 0 {
                        assert(ks.drop_first()[j - 1].key != key);
                    }
                }
            },
        }
    }
}

/// The first index with a matching key determines `key_index`.
pub proof fn lemma_key_index_is(ks: Seq<KeyEntrySpec>, key: Seq<char>, i: int)
    requires
        0 <= i < ks.len(),
        ks[i].key == key,
        forall|j: int| 0 <= j < i ==> (#[trigger] ks[j]).key != key,
    ensures
        key_index(ks, key) == Some(i),
{
    lemma_key_index_props(ks, key);
}

/// With no matching key, `key_index` is `None`.
pub proof fn lemma_key_index_none(ks: Seq<KeyEntrySpec>, key: Seq<char>)
    requires
        forall|j: int| 0 <= j < ks.len() ==> (#[trigger] ks[j]).key != key,
    ensures
        key_index(ks, key) is None,
{
    lemma_key_index_props(ks, key);
}

/// Index of the first section of `ss` named `name`, if any.
pub open spec fn section_index(ss: Seq<SectionSpec>, name: Seq<char>) -> Option<int>
    decreases ss.len(),
{
    if ss.len() == 0 {
        None
    } else if ss[0].name == name {
        Some(0)
    } else {
        match section_index(ss.drop_first(), name) {
            Some(i) => Some(i + 1),
            None => None,
        }
    }
}

/// Whether `ss` holds a section named `name`.
pub open spec fn has_section(ss: Seq<SectionSpec>, name: Seq<char>) -> bool {
    section_index(ss, name) is Some
}

/// `section_index` returns the first index whose name matches, or
/// `None` when no name matches.
pub proof fn lemma_section_index_props(ss: Seq<SectionSpec>, name: Seq<char>)
    ensures
        match section_index(ss, name) {
            Some(i) => 0 <= i < ss.len() && ss[i].name == name && (forall|j: int|
                0 <= j < i ==> (#[trigger] ss[j]).name != name),
            None => forall|j: int| 0 <= j < ss.len() ==> (#[trigger] ss[j]).name != name,
        },
    decreases ss.len(),
{
    if ss.len() > 0 && ss[0].name != name {
        lemma_section_index_props(ss.drop_first(), name);
        assert(forall|j: int| 0 <= j < ss.drop_first().len() ==> #[trigger] ss.drop_first()[j]
            == ss[j + 1]);
        match section_index(ss.drop_first(), name) {
            Some(i) => {
                assert forall|j: int| 0 <= j < i + 1 implies (#[trigger] ss[j]).name != name by {
                    if j > 0 {
                        assert(ss.drop_first()[j - 1].name != name);
                    }
                }
            },
            None => {
                assert forall|j: int| 0 <= j < ss.len() implies (#[trigger] ss[j]).name != name by {
                    if j > 0 {
                        assert(ss.drop_first()[j - 1].name != name);
                    }
                }
            },
        }
    }
}

/// The first index with a matching name determines `section_index`.
pub proof fn lemma_section_index_is(ss: Seq<SectionSpec>, name: Seq<char>, i: int)
    requires
        0 <= i < ss.len(),
        ss[i].name == name,
        forall|j: int| 0 <= j < i ==> (#[trigger] ss[j]).name != name,
    ensures
        section_index(ss, name) == Some(i),
{
    lemma_section_index_props(ss, name);
}

/// With no matching name, `section_index` is `None`.
pub proof fn lemma_section_index_none(ss: Seq<SectionSpec>, name: Seq<char>)
    requires
        forall|j: int| 0 <= j < ss.len() ==> (#[trigger] ss[j]).name != name,
    ensures
        section_index(ss, name) is None,
{
    lemma_section_index_props(ss, name);
}

/// A value list after `v` is upserted: a missing list becomes `[v]`, a
/// list that holds `v` is unchanged, and otherwise `v` is appended.
pub open spec fn upsert_values(vs: Option<Seq<Seq<char>>>, v: Seq<char>) -> Seq<Seq<char>> {
    match vs {
        None => seq![v],
        Some(l) => if l.contains(v) {
            l
        } else {
            l.push(v)
        },
    }
}

/// A key map after `v` is upserted under `key`: an absent key is
/// appended with the single value `v`; a present key has `v` upserted
/// into its value list.
pub open spec fn keymap_upsert(ks: Seq<KeyEntrySpec>, key: Seq<char>, v: Seq<char>) -> Seq<
    KeyEntrySpec,
> {
    match key_index(ks, key) {
        Some(i) => ks.update(
            i,
            KeyEntrySpec { key: ks[i].key, values: Some(upsert_values(ks[i].values, v)) },
        ),
        None => ks.push(KeyEntrySpec { key: key, values: Some(seq![v]) }),
    }
}

/// A section map after `v` is upserted under `key` in the section
/// named `name`: an absent section is created and appended.
pub open spec fn map_upsert(
    ss: Seq<SectionSpec>,
    name: Seq<char>,
    key: Seq<char>,
    v: Seq<char>,
) -> Seq<SectionSpec> {
    match section_index(ss, name) {
        Some(i) => ss.update(
            i,
            SectionSpec { name: ss[i].name, keys: keymap_upsert(ss[i].keys, key, v) },
        ),
        None => ss.push(SectionSpec { name: name, keys: keymap_upsert(Seq::empty(), key, v) }),
    }
}

/// Position of `key` in the key map.
fn keymap_find(km: &KeyMap, key: &str) -> (r: Option<usize>)
    ensures
        match r {
            Some(i) => i < km.entries@.len() && key_index(km@, key@) == Some(i as int),
            None => key_index(km@, key@) is None,
        },
{
    let n = km.entries.len();
    let mut i: usize = 0;
    let mut found = false;
    loop
        invariant_except_break
            !found,
        invariant
            n == km.entries@.len(),
            i <= n,
            forall|j: int| 0 <= j < i ==> (#[trigger] km@[j]).key != key@,
        ensures
            i <= n,
            forall|j: int| 0 <= j < i ==> (#[trigger] km@[j]).key != key@,
            found ==> i < n && km@[i as int].key == key@,
            !found ==> i == n,
        decreases n - i,
    {
        if i >= n {
            break ;
        }
        if str_eq(km.entries[i].key.as_str(), key) {
            found = true;
            break ;
        }
        i = i + 1;
    }
    if found {
        proof {
            lemma_key_index_is(km@, key@, i as int);
        }
        Some(i)
    } else {
        proof {
            lemma_key_index_none(km@, key@);
        }
        None
    }
}

/// Position of the section named `name` in the map.
fn section_find(m: &SectionMap, name: &str) -> (r: Option<usize>)
    ensures
        match r {
            Some(i) => i < m.sections@.len() && section_index(m@, name@) == Some(i as int),
            None => section_index(m@, name@) is None,
        },
{
    let n = m.sections.len();
    let mut i: usize = 0;
    let mut found = false;
    loop
        invariant_except_break
            !found,
        invariant
            n == m.sections@.len(),
            i <= n,
            forall|j: int| 0 <= j < i ==> (#[trigger] m@[j]).name != name@,
        ensures
            i <= n,
            forall|j: int| 0 <= j < i ==> (#[trigger] m@[j]).name != name@,
            found ==> i < n && m@[i as int].name == name@,
            !found ==> i == n,
        decreases n - i,
    {
        if i >= n {
            break ;
        }
        if str_eq(m.sections[i].name.as_str(), name) {
            found = true;
            break ;
        }
        i = i + 1;
    }
    if found {
        proof {
            lemma_section_index_is(m@, name@, i as int);
        }
        Some(i)
    } else {
        proof {
            lemma_section_index_none(m@, name@);
        }
        None
    }
}

/// Whether some element of `l` equals `v`.
fn vec_contains_str(l: &Vec<String>, v: &str) -> (r: bool)
    ensures
        r == views_of(l@).contains(v@),
{
    let n = l.len();
    let mut i: usize = 0;
    let mut found = false;
    loop
        invariant_except_break
            !found,
        invariant
            n == l@.len(),
            i <= n,
            forall|j: int| 0 <= j < i ==> views_of(l@)[j] != v@,
        ensures
            i <= n,
            forall|j: int| 0 <= j < i ==> views_of(l@)[j] != v@,
            found ==> i < n && views_of(l@)[i as int] == v@,
            !found ==> i == n,
        decreases n - i,
    {
        if i >= n {
            break ;
        }
        if str_eq(l[i].as_str(), v) {
            found = true;
            break ;
        }
        i = i + 1;
    }
    if found {
        assert(views_of(l@).contains(v@));
        true
    } else {
        assert(!views_of(l@).contains(v@)) by {
            if views_of(l@).contains(v@) {
                let w = choose|w: int| 0 <= w < views_of(l@).len() && views_of(l@)[w] == v@;
                assert(views_of(l@)[w] != v@);
            }
        }
        false
    }
}

/// Register `nozzle` as a value of the printer entry `name`: create
/// the entry when it is absent, give it the single value `nozzle` when
/// it has no values yet, append `nozzle` when it is not yet listed,
/// and change nothing when it is.
pub fn has_printer_and_nozzle(printers: &mut KeyMap, name: &str, nozzle: &str)
    ensures
        final(printers)@ == keymap_upsert(old(printers)@, name@, nozzle@),
{
    let r = keymap_find(printers, name);
    match r {
        Some(i) => {
            let ghost old_entries = printers.entries@;
            let e = printers.entries.remove(i);
            let KeyEntry { key, values } = e;
            let new_values: Vec<String> = match values {
                None => {
                    let mut l: Vec<String> = Vec::new();
                    l.push(nozzle.to_owned());
                    proof {
                        assert(views_of(l@) =~= seq![nozzle@]);
                    }
                    l
                },
                Some(mut l) => {
                    let ghost lv = views_of(l@);
                    if !vec_contains_str(&l, nozzle) {
                        l.push(nozzle.to_owned());
                        proof {
                            assert(views_of(l@) =~= lv.push(nozzle@));
                        }
                    }
                    l
                },
            };
            let e2 = KeyEntry { key, values: Some(new_values) };
            proof {
                assert(e2@ =~~= (KeyEntrySpec {
                    key: old(printers)@[i as int].key,
                    values: Some(upsert_values(old(printers)@[i as int].values, nozzle@)),
                }));
            }
            printers.entries.insert(i, e2);
            proof {
                assert(printers.entries@ =~= old_entries.update(i as int, e2));
                assert(printers@ =~~= old(printers)@.update(
                    i as int,
                    KeyEntrySpec {
                        key: old(printers)@[i as int].key,
                        values: Some(upsert_values(old(printers)@[i as int].values, nozzle@)),
                    },
                ));
            }
        },
        None => {
            let mut l: Vec<String> = Vec::new();
            l.push(nozzle.to_owned());
            printers.entries.push(KeyEntry { key: name.to_owned(), values: Some(l) });
            proof {
                assert(printers@ =~~= old(printers)@.push(
                    KeyEntrySpec { key: name@, values: Some(seq![nozzle@]) },
                ));
            }
        },
    }
}

/// Idempotent insertion into the section map: ensure the section named
/// `section` exists, ensure `key` exists in it, and record `value` in
/// its value list unless it is already present. Existing sections,
/// keys and values are never removed, renamed or reordered.
pub fn upsert(m: &mut SectionMap, section: &str, key: &str, value: &str)
    ensures
        final(m)@ == map_upsert(old(m)@, section@, key@, value@),
{
    let r = section_find(m, section);
    match r {
        Some(i) => {
            let ghost old_sections = m.sections@;
            let mut sec = m.sections.remove(i);
            has_printer_and_nozzle(&mut sec.keys, key, value);
            let ghost sec2 = sec;
            m.sections.insert(i, sec);
            proof {
                assert(m.sections@ =~= old_sections.update(i as int, sec2));
                assert(m@ =~~= old(m)@.update(
                    i as int,
                    SectionSpec {
                        name: old(m)@[i as int].name,
                        keys: keymap_upsert(old(m)@[i as int].keys, key@, value@),
                    },
                ));
            }
        },
        None => {
            let mut keys = KeyMap { entries: Vec::new() };
            proof {
                assert(keys@ =~= Seq::<KeyEntrySpec>::empty());
            }
            has_printer_and_nozzle(&mut keys, key, value);
            m.sections.push(Section { name: section.to_owned(), keys });
            proof {
                assert(m@ =~~= old(m)@.push(
                    SectionSpec { name: section@, keys: keymap_upsert(Seq::empty(), key@, value@) },
                ));
            }
        },
    }
}

/// Well-formed key map: keys are unique, so the first match of a
/// lookup is the only one.
pub open spec fn keymap_wf(ks: Seq<KeyEntrySpec>) -> bool {
    forall|i: int, j: int|
        #![trigger ks[i], ks[j]]
        0 <= i < j < ks.len() ==> ks[i].key != ks[j].key
}

/// Well-formed section map: section names are unique and every key map
/// is well formed.
pub open spec fn map_wf(ss: Seq<SectionSpec>) -> bool {
    &&& forall|i: int, j: int|
        #![trigger ss[i], ss[j]]
        0 <= i < j < ss.len() ==> ss[i].name != ss[j].name
    &&& forall|i: int| 0 <= i < ss.len() ==> keymap_wf((#[trigger] ss[i]).keys)
}

/// An upsert keeps a key map well formed.
pub proof fn lemma_keymap_upsert_wf(ks: Seq<KeyEntrySpec>, key: Seq<char>, v: Seq<char>)
    requires
        keymap_wf(ks),
    ensures
        keymap_wf(keymap_upsert(ks, key, v)),
{
    lemma_key_index_props(ks, key);
    let ks1 = keymap_upsert(ks, key, v);
    match key_index(ks, key) {
        Some(i) => {
            assert forall|a: int, b: int|
                #![trigger ks1[a], ks1[b]]
                0 <= a < b < ks1.len() implies ks1[a].key != ks1[b].key by {
                assert(ks1[a].key == ks[a].key);
                assert(ks1[b].key == ks[b].key);
            }
        },
        None => {
            assert forall|a: int, b: int|
                #![trigger ks1[a], ks1[b]]
                0 <= a < b < ks1.len() implies ks1[a].key != ks1[b].key by {
                if b == ks.len() {
                    assert(ks1[a].key == ks[a].key);
                    assert(ks[a].key != key);
                } else {
                    assert(ks1[a] == ks[a] && ks1[b] == ks[b]);
                }
            }
        },
    }
}

/// An upsert keeps the section map well formed.
pub proof fn lemma_map_upsert_wf(ss: Seq<SectionSpec>, name: Seq<char>, key: Seq<char>, v: Seq<char>)
    requires
        map_wf(ss),
    ensures
        map_wf(map_upsert(ss, name, key, v)),
{
    lemma_section_index_props(ss, name);
    let ss1 = map_upsert(ss, name, key, v);
    match section_index(ss, name) {
        Some(i) => {
            lemma_keymap_upsert_wf(ss[i].keys, key, v);
            assert forall|a: int, b: int|
                #![trigger ss1[a], ss1[b]]
                0 <= a < b < ss1.len() implies ss1[a].name != ss1[b].name by {
                assert(ss1[a].name == ss[a].name);
                assert(ss1[b].name == ss[b].name);
            }
            assert forall|a: int| 0 <= a < ss1.len() implies keymap_wf(
                (#[trigger] ss1[a]).keys,
            ) by {
                if a != i {
                    assert(ss1[a] == ss[a]);
                }
            }
        },
        None => {
            assert(keymap_wf(Seq::<KeyEntrySpec>::empty()));
            lemma_keymap_upsert_wf(Seq::empty(), key, v);
            assert forall|a: int, b: int|
                #![trigger ss1[a], ss1[b]]
                0 <= a < b < ss1.len() implies ss1[a].name != ss1[b].name by {
                if b == ss.len() {
                    assert(ss1[a].name == ss[a].name);
                    assert(ss[a].name != name);
                } else {
                    assert(ss1[a] == ss[a] && ss1[b] == ss[b]);
                }
            }
            assert forall|a: int| 0 <= a < ss1.len() implies keymap_wf(
                (#[trigger] ss1[a]).keys,
            ) by {
                if a < ss.len() {
                    assert(ss1[a] == ss[a]);
                }
            }
        },
    }
}

/// A key map after every item of `items` is upserted in order under
/// `key`.
pub open spec fn keymap_upsert_all(
    ks: Seq<KeyEntrySpec>,
    key: Seq<char>,
    items: Seq<Seq<char>>,
) -> Seq<KeyEntrySpec>
    decreases items.len(),
{
    if items.len() == 0 {
        ks
    } else {
        keymap_upsert_all(keymap_upsert(ks, key, items[0]), key, items.drop_first())
    }
}

/// Upserting item by item appends at the back of the item list.
pub proof fn lemma_keymap_upsert_all_push(
    ks: Seq<KeyEntrySpec>,
    key: Seq<char>,
    items: Seq<Seq<char>>,
    x: Seq<char>,
)
    ensures
        keymap_upsert_all(ks, key, items.push(x)) == keymap_upsert(
            keymap_upsert_all(ks, key, items),
            key,
            x,
        ),
    decreases items.len(),
{
    if items.len() == 0 {
        assert(items.push(x).drop_first() =~= Seq::<Seq<char>>::empty());
        assert(items.push(x)[0] == x);
        assert(keymap_upsert_all(keymap_upsert(ks, key, x), key, Seq::empty()) == keymap_upsert(
            ks,
            key,
            x,
        ));
    } else {
        assert(items.push(x).drop_first() =~= items.drop_first().push(x));
        assert(items.push(x)[0] == items[0]);
        lemma_keymap_upsert_all_push(keymap_upsert(ks, key, items[0]), key, items.drop_first(), x);
    }
}

/// One key/value line applied to a key map: an empty value only
/// declares the key, a non-empty one upserts each decoded item in
/// order.
pub open spec fn keymap_insert_line(
    ks: Seq<KeyEntrySpec>,
    key: Seq<char>,
    value: Seq<char>,
) -> Seq<KeyEntrySpec> {
    let items = split_value(value);
    if items.len() == 0 {
        if has_key(ks, key) {
            ks
        } else {
            ks.push(KeyEntrySpec { key: key, values: None })
        }
    } else {
        keymap_upsert_all(ks, key, items)
    }
}

/// One key/value line applied to the map, in the section named `cur`;
/// an absent current section is created and appended.
pub open spec fn map_insert_line(
    ss: Seq<SectionSpec>,
    cur: Seq<char>,
    key: Seq<char>,
    value: Seq<char>,
) -> Seq<SectionSpec> {
    match section_index(ss, cur) {
        Some(i) => ss.update(
            i,
            SectionSpec { name: ss[i].name, keys: keymap_insert_line(ss[i].keys, key, value) },
        ),
        None => ss.push(
            SectionSpec { name: cur, keys: keymap_insert_line(Seq::empty(), key, value) },
        ),
    }
}

/// The forward projection's walking state: the sections built so far
/// and the name of the current section.
#[verifier::ext_equal]
pub struct ProjState {
    pub sections: Seq<SectionSpec>,
    pub cur: Seq<char>,
}

/// One entry's effect on the projection state: a header switches the
/// current section (creating it when new), a key/value line lands in
/// the current section, comments and blanks change nothing.
pub open spec fn proj_step(st: ProjState, e: EntrySpec) -> ProjState {
    match e {
        EntrySpec::Header { name } => ProjState {
            sections: if has_section(st.sections, name) {
                st.sections
            } else {
                st.sections.push(SectionSpec { name: name, keys: Seq::empty() })
            },
            cur: name,
        },
        EntrySpec::Pair { key, value } => ProjState {
            sections: map_insert_line(st.sections, st.cur, key, value),
            cur: st.cur,
        },
        EntrySpec::Comment { .. } => st,
        EntrySpec::Blank => st,
    }
}

/// The projection state after walking `es` from `st`.
pub open spec fn proj_fold(es: Seq<EntrySpec>, st: ProjState) -> ProjState
    decreases es.len(),
{
    if es.len() == 0 {
        st
    } else {
        proj_fold(es.drop_first(), proj_step(st, es[0]))
    }
}

/// The section map of a document: its entries walked in order,
/// starting with no sections in the implicit top-level section (the
/// empty name).
pub open spec fn map_of_doc(es: Seq<EntrySpec>) -> Seq<SectionSpec> {
    proj_fold(es, ProjState { sections: Seq::empty(), cur: Seq::empty() }).sections
}

/// Walking one more entry steps the fold once.
pub proof fn lemma_proj_fold_push(es: Seq<EntrySpec>, st: ProjState, e: EntrySpec)
    ensures
        proj_fold(es.push(e), st) == proj_step(proj_fold(es, st), e),
    decreases es.len(),
{
    if es.len() == 0 {
        assert(es.push(e).drop_first() =~= Seq::<EntrySpec>::empty());
        assert(es.push(e)[0] == e);
        assert(proj_fold(Seq::<EntrySpec>::empty(), proj_step(st, e)) == proj_step(st, e));
    } else {
        assert(es.push(e).drop_first() =~= es.drop_first().push(e));
        assert(es.push(e)[0] == es[0]);
        lemma_proj_fold_push(es.drop_first(), proj_step(st, es[0]), e);
    }
}

/// Upserting any number of items keeps a key map well formed.
pub proof fn lemma_keymap_upsert_all_wf(ks: Seq<KeyEntrySpec>, key: Seq<char>, items: Seq<Seq<char>>)
    requires
        keymap_wf(ks),
    ensures
        keymap_wf(keymap_upsert_all(ks, key, items)),
    decreases items.len(),
{
    if items.len() > 0 {
        lemma_keymap_upsert_wf(ks, key, items[0]);
        lemma_keymap_upsert_all_wf(keymap_upsert(ks, key, items[0]), key, items.drop_first());
    }
}

/// Applying one key/value line keeps a key map well formed.
pub proof fn lemma_keymap_insert_line_wf(ks: Seq<KeyEntrySpec>, key: Seq<char>, value: Seq<char>)
    requires
        keymap_wf(ks),
    ensures
        keymap_wf(keymap_insert_line(ks, key, value)),
{
    let items = split_value(value);
    if items.len() == 0 {
        if !has_key(ks, key) {
            lemma_key_index_props(ks, key);
            let ks1 = ks.push(KeyEntrySpec { key: key, values: None });
            assert forall|a: int, b: int|
                #![trigger ks1[a], ks1[b]]
                0 <= a < b < ks1.len() implies ks1[a].key != ks1[b].key by {
                if b == ks.len() {
                    assert(ks1[a].key == ks[a].key);
                    assert(ks[a].key != key);
                } else {
                    assert(ks1[a] == ks[a] && ks1[b] == ks[b]);
                }
            }
        }
    } else {
        lemma_keymap_upsert_all_wf(ks, key, items);
    }
}

/// Applying one key/value line keeps the section map well formed.
pub proof fn lemma_map_insert_line_wf(
    ss: Seq<SectionSpec>,
    cur: Seq<char>,
    key: Seq<char>,
    value: Seq<char>,
)
    requires
        map_wf(ss),
    ensures
        map_wf(map_insert_line(ss, cur, key, value)),
{
    lemma_section_index_props(ss, cur);
    let ss1 = map_insert_line(ss, cur, key, value);
    match section_index(ss, cur) {
        Some(i) => {
            lemma_keymap_insert_line_wf(ss[i].keys, key, value);
            assert forall|a: int, b: int|
                #![trigger ss1[a], ss1[b]]
                0 <= a < b < ss1.len() implies ss1[a].name != ss1[b].name by {
                assert(ss1[a].name == ss[a].name);
                assert(ss1[b].name == ss[b].name);
            }
            assert forall|a: int| 0 <= a < ss1.len() implies keymap_wf(
                (#[trigger] ss1[a]).keys,
            ) by {
                if a != i {
                    assert(ss1[a] == ss[a]);
                }
            }
        },
        None => {
            assert(keymap_wf(Seq::<KeyEntrySpec>::empty()));
            lemma_keymap_insert_line_wf(Seq::empty(), key, value);
            assert forall|a: int, b: int|
                #![trigger ss1[a], ss1[b]]
                0 <= a < b < ss1.len() implies ss1[a].name != ss1[b].name by {
                if b == ss.len() {
                    assert(ss1[a].name == ss[a].name);
                    assert(ss[a].name != cur);
                } else {
                    assert(ss1[a] == ss[a] && ss1[b] == ss[b]);
                }
            }
            assert forall|a: int| 0 <= a < ss1.len() implies keymap_wf(
                (#[trigger] ss1[a]).keys,
            ) by {
                if a < ss.len() {
                    assert(ss1[a] == ss[a]);
                }
            }
        },
    }
}

/// One projection step keeps the section map well formed.
pub proof fn lemma_proj_step_wf(st: ProjState, e: EntrySpec)
    requires
        map_wf(st.sections),
    ensures
        map_wf(proj_step(st, e).sections),
{
    match e {
        EntrySpec::Header { name } => {
            if !has_section(st.sections, name) {
                lemma_section_index_props(st.sections, name);
                let ss1 = st.sections.push(SectionSpec { name: name, keys: Seq::empty() });
                assert forall|a: int, b: int|
                    #![trigger ss1[a], ss1[b]]
                    0 <= a < b < ss1.len() implies ss1[a].name != ss1[b].name by {
                    if b == st.sections.len() {
                        assert(ss1[a].name == st.sections[a].name);
                        assert(st.sections[a].name != name);
                    } else {
                        assert(ss1[a] == st.sections[a] && ss1[b] == st.sections[b]);
                    }
                }
                assert forall|a: int| 0 <= a < ss1.len() implies keymap_wf(
                    (#[trigger] ss1[a]).keys,
                ) by {
                    if a < st.sections.len() {
                        assert(ss1[a] == st.sections[a]);
                    } else {
                        assert(ss1[a].keys =~= Seq::<KeyEntrySpec>::empty());
                    }
                }
            }
        },
        EntrySpec::Pair { key, value } => {
            lemma_map_insert_line_wf(st.sections, st.cur, key, value);
        },
        EntrySpec::Comment { .. } => {},
        EntrySpec::Blank => {},
    }
}

/// The whole projection keeps the section map well formed.
pub proof fn lemma_proj_fold_wf(es: Seq<EntrySpec>, st: ProjState)
    requires
        map_wf(st.sections),
    ensures
        map_wf(proj_fold(es, st).sections),
    decreases es.len(),
{
    if es.len() > 0 {
        lemma_proj_step_wf(st, es[0]);
        lemma_proj_fold_wf(es.drop_first(), proj_step(st, es[0]));
    }
}

/// The section map of any document is well formed: section names are
/// unique and keys are unique within each section.
pub proof fn lemma_map_of_doc_wf(es: Seq<EntrySpec>)
    ensures
        map_wf(map_of_doc(es)),
{
    lemma_proj_fold_wf(es, ProjState { sections: Seq::empty(), cur: Seq::empty() });
}

/// Apply one decoded key/value line to a key map.
fn apply_line(km: &mut KeyMap, key: &String, items: &Vec<String>)
    ensures
        final(km)@ == (if views_of(items@).len() == 0 {
            if has_key(old(km)@, key@) {
                old(km)@
            } else {
                old(km)@.push(KeyEntrySpec { key: key@, values: None })
            }
        } else {
            keymap_upsert_all(old(km)@, key@, views_of(items@))
        }),
{
    let n = items.len();
    if n == 0 {
        let r = keymap_find(km, key.as_str());
        match r {
            Some(_) => {},
            None => {
                km.entries.push(KeyEntry { key: key.clone(), values: None });
                proof {
                    assert(km@ =~~= old(km)@.push(KeyEntrySpec { key: key@, values: None }));
                }
            },
        }
        return ;
    }
    let ghost items_v = views_of(items@);
    proof {
        assert(items_v.take(0int) =~= Seq::<Seq<char>>::empty());
    }
    let mut j: usize = 0;
    while j < n
        invariant
            n == items@.len(),
            n >= 1,
            j <= n,
            items_v == views_of(items@),
            km@ == keymap_upsert_all(old(km)@, key@, items_v.take(j as int)),
        decreases n - j,
    {
        has_printer_and_nozzle(km, key.as_str(), items[j].as_str());
        proof {
            assert(items_v.take(j as int).push(items_v[j as int]) =~= items_v.take(j + 1));
            lemma_keymap_upsert_all_push(old(km)@, key@, items_v.take(j as int), items_v[j as int]);
        }
        j = j + 1;
    }
    proof {
        assert(items_v.take(n as int) =~= items_v);
    }
}

impl Document {
    /// Project the document onto its section map: sections and keys in
    /// order of first appearance, comments and blanks dropped, each
    /// value string decoded into a value list.
    pub fn to_map(&self) -> (m: SectionMap)
        ensures
            m@ == map_of_doc(self@),
    {
        let ghost init = ProjState { sections: Seq::empty(), cur: Seq::empty() };
        let mut m = SectionMap { sections: Vec::new() };
        let mut cur = String::new();
        proof {
            assert(self@.take(0int) =~= Seq::<EntrySpec>::empty());
            assert((ProjState { sections: m@, cur: cur@ }) =~~= proj_fold(self@.take(0int), init));
        }
        let n = self.entries.len();
        let mut i: usize = 0;
        while i < n
            invariant
                n == self.entries@.len(),
                i <= n,
                (ProjState { sections: m@, cur: cur@ }) == proj_fold(self@.take(i as int), init),
            decreases n - i,
        {
            let ghost st_old = ProjState { sections: m@, cur: cur@ };
            let ghost e = self@[i as int];
            match &self.entries[i] {
                LineEntry::SectionHeader { name } => {
                    let r = section_find(&m, name.as_str());
                    match r {
                        Some(_) => {},
                        None => {
                            m.sections.push(
                                Section { name: name.clone(), keys: KeyMap { entries: Vec::new() } },
                            );
                            proof {
                                assert(m@ =~~= st_old.sections.push(
                                    SectionSpec { name: name@, keys: Seq::empty() },
                                ));
                            }
                        },
                    }
                    cur = name.clone();
                },
                LineEntry::KeyValue { key, value } => {
                    let items = split_value_exec(value.as_str());
                    let r = section_find(&m, cur.as_str());
                    match r {
                        Some(si) => {
                            let ghost old_sections = m.sections@;
                            let mut sec = m.sections.remove(si);
                            apply_line(&mut sec.keys, key, &items);
                            let ghost sec2 = sec;
                            m.sections.insert(si, sec);
                            proof {
                                assert(m.sections@ =~= old_sections.update(si as int, sec2));
                                assert(m@ =~~= st_old.sections.update(
                                    si as int,
                                    SectionSpec {
                                        name: st_old.sections[si as int].name,
                                        keys: keymap_insert_line(
                                            st_old.sections[si as int].keys,
                                            key@,
                                            value@,
                                        ),
                                    },
                                ));
                            }
                        },
                        None => {
                            let mut keys = KeyMap { entries: Vec::new() };
                            proof {
                                assert(keys@ =~= Seq::<KeyEntrySpec>::empty());
                            }
                            apply_line(&mut keys, key, &items);
                            m.sections.push(Section { name: cur.clone(), keys });
                            proof {
                                assert(m@ =~~= st_old.sections.push(
                                    SectionSpec {
                                        name: cur@,
                                        keys: keymap_insert_line(Seq::empty(), key@, value@),
                                    },
                                ));
                            }
                        },
                    }
                },
                LineEntry::Comment { .. } => {},
                LineEntry::Blank => {},
            }
            proof {
                assert((ProjState { sections: m@, cur: cur@ }) =~~= proj_step(st_old, e));
                assert(self@.take(i as int).push(e) =~= self@.take(i + 1));
                lemma_proj_fold_push(self@.take(i as int), init, e);
            }
            i = i + 1;
        }
        proof {
            assert(self@.take(n as int) =~= self@);
        }
        m
    }
}

/// The value list of a key entry, the empty list standing for a key
/// that holds no values.
pub open spec fn values_or_empty(vs: Option<Seq<Seq<char>>>) -> Seq<Seq<char>> {
    match vs {
        None => Seq::empty(),
        Some(l) => l,
    }
}

/// The line entries that one section regenerates: its header (omitted
/// for the implicit top-level section) and one key/value line per key,
/// the value list rendered as one delimited string.
pub open spec fn entries_of_section(s: SectionSpec) -> Seq<EntrySpec> {
    let kvs = Seq::new(
        s.keys.len(),
        |i: int|
            EntrySpec::Pair {
                key: s.keys[i].key,
                value: join_values(values_or_empty(s.keys[i].values)),
            },
    );
    if s.name.len() == 0 {
        kvs
    } else {
        seq![EntrySpec::Header { name: s.name }] + kvs
    }
}

/// The document a section map regenerates: every section in stored
/// order, each key in stored order.
pub open spec fn doc_of_map(ss: Seq<SectionSpec>) -> Seq<EntrySpec>
    decreases ss.len(),
{
    if ss.len() == 0 {
        Seq::empty()
    } else {
        entries_of_section(ss[0]) + doc_of_map(ss.drop_first())
    }
}

/// Regeneration appends section by section.
pub proof fn lemma_doc_of_map_push(ss: Seq<SectionSpec>, s: SectionSpec)
    ensures
        doc_of_map(ss.push(s)) == doc_of_map(ss) + entries_of_section(s),
    decreases ss.len(),
{
    if ss.len() == 0 {
        assert(ss.push(s).drop_first() =~= Seq::<SectionSpec>::empty());
        assert(doc_of_map(ss.push(s).drop_first()) == Seq::<EntrySpec>::empty());
        assert(ss.push(s)[0] == s);
        assert(doc_of_map(ss.push(s)) =~= doc_of_map(ss) + entries_of_section(s));
    } else {
        assert(ss.push(s).drop_first() =~= ss.drop_first().push(s));
        lemma_doc_of_map_push(ss.drop_first(), s);
        assert(ss.push(s)[0] == ss[0]);
        assert(doc_of_map(ss.push(s)) == entries_of_section(ss[0]) + (doc_of_map(ss.drop_first())
            + entries_of_section(s)));
        assert(doc_of_map(ss.push(s)) =~= doc_of_map(ss) + entries_of_section(s));
    }
}

impl SectionMap {
    /// Regenerate a structural document from the map: for every
    /// section in stored order a header line (none for the implicit
    /// top-level section) followed by one key/value line per key in
    /// stored order.
    pub fn to_document(&self) -> (d: Document)
        ensures
            d@ == doc_of_map(self@),
    {
        let mut entries: Vec<LineEntry> = Vec::new();
        proof {
            assert(self@.take(0int) =~= Seq::<SectionSpec>::empty());
            assert(Seq::new(entries@.len(), |k: int| entries@[k]@) =~= doc_of_map(
                self@.take(0int),
            ));
        }
        let n = self.sections.len();
        let mut i: usize = 0;
        while i < n
            invariant
                n == self.sections@.len(),
                i <= n,
                Seq::new(entries@.len(), |k: int| entries@[k]@) == doc_of_map(self@.take(i as int)),
            decreases n - i,
        {
            let ghost sec_spec = self@[i as int];
            let ghost kvs = Seq::new(
                sec_spec.keys.len(),
                |k: int|
                    EntrySpec::Pair {
                        key: sec_spec.keys[k].key,
                        value: join_values(values_or_empty(sec_spec.keys[k].values)),
                    },
            );
            let ghost head: Seq<EntrySpec> = if sec_spec.name.len() == 0 {
                Seq::empty()
            } else {
                seq![EntrySpec::Header { name: sec_spec.name }]
            };
            proof {
                assert(entries_of_section(sec_spec) =~= head + kvs);
            }
            let ghost done = doc_of_map(self@.take(i as int));
            let sec = &self.sections[i];
            if sec.name.unicode_len() > 0 {
                entries.push(LineEntry::SectionHeader { name: sec.name.clone() });
            }
            proof {
                assert(Seq::new(entries@.len(), |k: int| entries@[k]@) =~= done + head);
                assert(kvs.take(0int) =~= Seq::<EntrySpec>::empty());
                assert(Seq::new(entries@.len(), |k: int| entries@[k]@) =~= done + head + kvs.take(
                    0int,
                ));
            }
            let kn = sec.keys.entries.len();
            let mut j: usize = 0;
            while j < kn
                invariant
                    kn == sec.keys.entries@.len(),
                    j <= kn,
                    sec == self.sections@[i as int],
                    0 <= i < self.sections@.len(),
                    sec_spec == self@[i as int],
                    kvs == Seq::new(
                        sec_spec.keys.len(),
                        |k: int|
                            EntrySpec::Pair {
                                key: sec_spec.keys[k].key,
                                value: join_values(values_or_empty(sec_spec.keys[k].values)),
                            },
                    ),
                    Seq::new(entries@.len(), |k: int| entries@[k]@) == done + head + kvs.take(
                        j as int,
                    ),
                decreases kn - j,
            {
                let e = &sec.keys.entries[j];
                let value_text: String = match &e.values {
                    None => String::new(),
                    Some(l) => join_values_exec(l),
                };
                proof {
                    assert(sec_spec.keys[j as int] == e@);
                    assert(value_text@ == join_values(values_or_empty(e@.values))) by {
                        match e.values {
                            None => {
                                assert(join_values(Seq::<Seq<char>>::empty()) =~= Seq::<
                                    char,
                                >::empty());
                            },
                            Some(_) => {},
                        }
                    }
                }
                let ghost pre = entries@;
                entries.push(LineEntry::KeyValue { key: e.key.clone(), value: value_text });
                proof {
                    assert(entries@[entries@.len() - 1]@ =~~= kvs[j as int]);
                    assert(kvs.take(j as int).push(kvs[j as int]) =~= kvs.take(j + 1));
                    assert((done + head + kvs.take(j as int)).push(kvs[j as int]) =~= done + head
                        + kvs.take(j + 1));
                    assert(Seq::new(entries@.len(), |k: int| entries@[k]@) =~~= Seq::new(
                        pre.len(),
                        |k: int| pre[k]@,
                    ).push(entries@[entries@.len() - 1]@)) by {
                        assert(forall|k: int| 0 <= k < pre.len() ==> entries@[k] == #[trigger] pre[
                            k
                        ]);
                    }
                    assert(Seq::new(entries@.len(), |k: int| entries@[k]@) =~~= done + head
                        + kvs.take(j + 1));
                }
                j = j + 1;
            }
            proof {
                assert(kvs.take(kn as int) =~= kvs);
                lemma_doc_of_map_push(self@.take(i as int), sec_spec);
                assert(self@.take(i as int).push(sec_spec) =~= self@.take(i + 1));
                assert(Seq::new(entries@.len(), |k: int| entries@[k]@) =~= doc_of_map(
                    self@.take(i + 1),
                ));
            }
            i = i + 1;
        }
        proof {
            assert(self@.take(n as int) =~= self@);
        }
        let d = Document { entries };
        proof {
            assert(d@ =~= Seq::new(d.entries@.len(), |k: int| d.entries@[k]@));
        }
        d
    }
}

/// The key/value line `key = value` refreshed against the map `m`
/// while the walk stands in the section named `cur`: when the map
/// holds the key there, the line carries the rendering of the key's
/// current value list; otherwise the line is kept as it was.
pub open spec fn refresh_line(
    m: Seq<SectionSpec>,
    cur: Seq<char>,
    key: Seq<char>,
    value: Seq<char>,
) -> EntrySpec {
    match section_index(m, cur) {
        None => EntrySpec::Pair { key: key, value: value },
        Some(i) => match key_index(m[i].keys, key) {
            None => EntrySpec::Pair { key: key, value: value },
            Some(j) => EntrySpec::Pair {
                key: key,
                value: join_values(values_or_empty(m[i].keys[j].values)),
            },
        },
    }
}

/// One original entry refreshed against the map: comments, blanks and
/// headers are kept unchanged.
pub open spec fn refresh_entry(m: Seq<SectionSpec>, cur: Seq<char>, e: EntrySpec) -> EntrySpec {
    match e {
        EntrySpec::Pair { key, value } => refresh_line(m, cur, key, value),
        _ => e,
    }
}

/// The current section after one entry: a header switches it.
pub open spec fn cur_after(cur: Seq<char>, e: EntrySpec) -> Seq<char> {
    match e {
        EntrySpec::Header { name } => name,
        _ => cur,
    }
}

/// The current section after walking `es` from `cur`.
pub open spec fn cur_through(es: Seq<EntrySpec>, cur: Seq<char>) -> Seq<char>
    decreases es.len(),
{
    if es.len() == 0 {
        cur
    } else {
        cur_through(es.drop_first(), cur_after(cur, es[0]))
    }
}

/// The original entries refreshed in place against the map.
pub open spec fn refresh_doc(es: Seq<EntrySpec>, m: Seq<SectionSpec>, cur: Seq<char>) -> Seq<
    EntrySpec,
>
    decreases es.len(),
{
    if es.len() == 0 {
        Seq::empty()
    } else {
        seq![refresh_entry(m, cur, es[0])] + refresh_doc(es.drop_first(), m, cur_after(cur, es[0]))
    }
}

/// Walking one more entry steps the current section once.
pub proof fn lemma_cur_through_push(es: Seq<EntrySpec>, cur: Seq<char>, e: EntrySpec)
    ensures
        cur_through(es.push(e), cur) == cur_after(cur_through(es, cur), e),
    decreases es.len(),
{
    if es.len() == 0 {
        assert(es.push(e).drop_first() =~= Seq::<EntrySpec>::empty());
        assert(es.push(e)[0] == e);
        assert(cur_through(Seq::<EntrySpec>::empty(), cur_after(cur, e)) == cur_after(cur, e));
    } else {
        assert(es.push(e).drop_first() =~= es.drop_first().push(e));
        assert(es.push(e)[0] == es[0]);
        lemma_cur_through_push(es.drop_first(), cur_after(cur, es[0]), e);
    }
}

/// Refreshing one more entry appends one refreshed line.
pub proof fn lemma_refresh_doc_push(
    es: Seq<EntrySpec>,
    m: Seq<SectionSpec>,
    cur: Seq<char>,
    e: EntrySpec,
)
    ensures
        refresh_doc(es.push(e), m, cur) == refresh_doc(es, m, cur).push(
            refresh_entry(m, cur_through(es, cur), e),
        ),
    decreases es.len(),
{
    if es.len() == 0 {
        assert(es.push(e).drop_first() =~= Seq::<EntrySpec>::empty());
        assert(es.push(e)[0] == e);
        assert(refresh_doc(Seq::<EntrySpec>::empty(), m, cur_after(cur, e)) == Seq::<
            EntrySpec,
        >::empty());
        assert(refresh_doc(es.push(e), m, cur) =~= refresh_doc(es, m, cur).push(
            refresh_entry(m, cur_through(es, cur), e),
        ));
    } else {
        assert(es.push(e).drop_first() =~= es.drop_first().push(e));
        assert(es.push(e)[0] == es[0]);
        lemma_refresh_doc_push(es.drop_first(), m, cur_after(cur, es[0]), e);
        assert(refresh_doc(es.push(e), m, cur) =~= refresh_doc(es, m, cur).push(
            refresh_entry(m, cur_through(es, cur), e),
        ));
    }
}

/// Whether the original map already holds `key` under the section
/// named `name`.
pub open spec fn covered(orig: Seq<SectionSpec>, name: Seq<char>, key: Seq<char>) -> bool {
    match section_index(orig, name) {
        None => false,
        Some(i) => has_key(orig[i].keys, key),
    }
}

/// The entries of `ks` whose keys the original map does not hold under
/// `name`, in stored order.
pub open spec fn new_keys(
    orig: Seq<SectionSpec>,
    name: Seq<char>,
    ks: Seq<KeyEntrySpec>,
) -> Seq<KeyEntrySpec>
    decreases ks.len(),
{
    if ks.len() == 0 {
        Seq::empty()
    } else {
        let rest = new_keys(orig, name, ks.drop_first());
        if covered(orig, name, ks[0].key) {
            rest
        } else {
            seq![ks[0]] + rest
        }
    }
}

/// One more key extends the uncovered keys exactly when it is
/// uncovered.
pub proof fn lemma_new_keys_push(
    orig: Seq<SectionSpec>,
    name: Seq<char>,
    ks: Seq<KeyEntrySpec>,
    x: KeyEntrySpec,
)
    ensures
        new_keys(orig, name, ks.push(x)) == (if covered(orig, name, x.key) {
            new_keys(orig, name, ks)
        } else {
            new_keys(orig, name, ks).push(x)
        }),
    decreases ks.len(),
{
    if ks.len() == 0 {
        assert(ks.push(x).drop_first() =~= Seq::<KeyEntrySpec>::empty());
        assert(ks.push(x)[0] == x);
        assert(new_keys(orig, name, Seq::<KeyEntrySpec>::empty()) == Seq::<KeyEntrySpec>::empty());
        if !covered(orig, name, x.key) {
            assert(new_keys(orig, name, ks.push(x)) =~= new_keys(orig, name, ks).push(x));
        }
    } else {
        assert(ks.push(x).drop_first() =~= ks.drop_first().push(x));
        assert(ks.push(x)[0] == ks[0]);
        lemma_new_keys_push(orig, name, ks.drop_first(), x);
        if !covered(orig, name, ks[0].key) && !covered(orig, name, x.key) {
            assert(new_keys(orig, name, ks.push(x)) =~= new_keys(orig, name, ks).push(x));
        }
    }
}

/// The key/value line of one key entry.
pub open spec fn pair_of(e: KeyEntrySpec) -> EntrySpec {
    EntrySpec::Pair { key: e.key, value: join_values(values_or_empty(e.values)) }
}

/// What one map section appends after the original content: nothing
/// when the original already holds all its keys; otherwise its header
/// once more, then one line per key the original lacks, in map order.
pub open spec fn appendix_of_section(orig: Seq<SectionSpec>, s: SectionSpec) -> Seq<EntrySpec> {
    let nk = new_keys(orig, s.name, s.keys);
    if nk.len() == 0 {
        Seq::empty()
    } else {
        seq![EntrySpec::Header { name: s.name }] + Seq::new(nk.len(), |i: int| pair_of(nk[i]))
    }
}

/// What the whole map appends: each section's appendix, in map order.
pub open spec fn appendix(orig: Seq<SectionSpec>, m: Seq<SectionSpec>) -> Seq<EntrySpec>
    decreases m.len(),
{
    if m.len() == 0 {
        Seq::empty()
    } else {
        appendix_of_section(orig, m[0]) + appendix(orig, m.drop_first())
    }
}

/// The appendix grows section by section.
pub proof fn lemma_appendix_push(orig: Seq<SectionSpec>, m: Seq<SectionSpec>, s: SectionSpec)
    ensures
        appendix(orig, m.push(s)) == appendix(orig, m) + appendix_of_section(orig, s),
    decreases m.len(),
{
    if m.len() == 0 {
        assert(m.push(s).drop_first() =~= Seq::<SectionSpec>::empty());
        assert(appendix(orig, m.push(s).drop_first()) == Seq::<EntrySpec>::empty());
        assert(m.push(s)[0] == s);
        assert(appendix(orig, m.push(s)) =~= appendix(orig, m) + appendix_of_section(orig, s));
    } else {
        assert(m.push(s).drop_first() =~= m.drop_first().push(s));
        lemma_appendix_push(orig, m.drop_first(), s);
        assert(m.push(s)[0] == m[0]);
        assert(appendix(orig, m.push(s)) == appendix_of_section(orig, m[0]) + (appendix(
            orig,
            m.drop_first(),
        ) + appendix_of_section(orig, s)));
        assert(appendix(orig, m.push(s)) =~= appendix(orig, m) + appendix_of_section(orig, s));
    }
}

/// The document regenerated from the original document and the mutated
/// map: the original entries refreshed in place, then the appendix of
/// new sections and keys.
pub open spec fn regen_doc(es: Seq<EntrySpec>, m: Seq<SectionSpec>) -> Seq<EntrySpec> {
    refresh_doc(es, m, Seq::empty()) + appendix(map_of_doc(es), m)
}

/// Regenerate a structural document from the original document and the
/// mutated section map: every original entry is re-emitted in place —
/// comments, blanks and headers verbatim, and each key/value line of a
/// key the map holds carries the key's current value list — and
/// sections and keys the original lacks are appended after all
/// pre-existing content, in map order, under their section's header.
pub fn regenerate(original: &Document, m: &SectionMap) -> (d: Document)
    ensures
        d@ == regen_doc(original@, m@),
        d@.len() == original@.len() + appendix(map_of_doc(original@), m@).len(),
        forall|i: int|
            0 <= i < original@.len() ==> d@[i] == refresh_entry(
                m@,
                cur_through(original@.take(i), Seq::empty()),
                original@[i],
            ),
        forall|i: int|
            0 <= i < original@.len() && !((#[trigger] original@[i]) is Pair) ==> d@[i]
                == original@[i],
        d@.skip(original@.len() as int) == appendix(map_of_doc(original@), m@),
{
    proof {
        lemma_regenerate_preserves(original@, m@);
    }
    let orig = original.to_map();
    let mut entries: Vec<LineEntry> = Vec::new();
    let mut cur = String::new();
    proof {
        assert(original@.take(0int) =~= Seq::<EntrySpec>::empty());
        assert(Seq::new(entries@.len(), |k: int| entries@[k]@) =~= refresh_doc(
            original@.take(0int),
            m@,
            Seq::empty(),
        ));
    }
    let n = original.entries.len();
    let mut i: usize = 0;
    while i < n
        invariant
            n == original.entries@.len(),
            i <= n,
            Seq::new(entries@.len(), |k: int| entries@[k]@) == refresh_doc(
                original@.take(i as int),
                m@,
                Seq::empty(),
            ),
            cur@ == cur_through(original@.take(i as int), Seq::empty()),
        decreases n - i,
    {
        let ghost e = original@[i as int];
        let ghost pre = entries@;
        let ghost cur_pre = cur@;
        match &original.entries[i] {
            LineEntry::SectionHeader { name } => {
                entries.push(LineEntry::SectionHeader { name: name.clone() });
                cur = name.clone();
            },
            LineEntry::Comment { text } => {
                entries.push(LineEntry::Comment { text: text.clone() });
            },
            LineEntry::Blank => {
                entries.push(LineEntry::Blank);
            },
            LineEntry::KeyValue { key, value } => {
                let mut out_value = value.clone();
                let sr = section_find(m, cur.as_str());
                match sr {
                    None => {},
                    Some(si) => {
                        proof {
                            assert(m@[si as int].keys == m.sections@[si as int].keys@);
                        }
                        let kr = keymap_find(&m.sections[si].keys, key.as_str());
                        match kr {
                            None => {},
                            Some(kj) => {
                                proof {
                                    assert(m@[si as int].keys[kj as int]
                                        == m.sections@[si as int].keys.entries@[kj as int]@);
                                }
                                out_value = match &m.sections[si].keys.entries[kj].values {
                                    None => String::new(),
                                    Some(l) => join_values_exec(l),
                                };
                                proof {
                                    assert(join_values(Seq::<Seq<char>>::empty()) =~= Seq::<
                                        char,
                                    >::empty());
                                }
                            },
                        }
                    },
                }
                entries.push(LineEntry::KeyValue { key: key.clone(), value: out_value });
            },
        }
        proof {
            assert(entries@[entries@.len() - 1]@ =~~= refresh_entry(m@, cur_pre, e));
            assert(original@.take(i as int).push(e) =~= original@.take(i + 1));
            lemma_refresh_doc_push(original@.take(i as int), m@, Seq::empty(), e);
            lemma_cur_through_push(original@.take(i as int), Seq::empty(), e);
            assert(Seq::new(entries@.len(), |k: int| entries@[k]@) =~~= Seq::new(
                pre.len(),
                |k: int| pre[k]@,
            ).push(entries@[entries@.len() - 1]@)) by {
                assert(forall|k: int| 0 <= k < pre.len() ==> entries@[k] == #[trigger] pre[k]);
            }
            assert(Seq::new(entries@.len(), |k: int| entries@[k]@) =~~= refresh_doc(
                original@.take(i + 1),
                m@,
                Seq::empty(),
            ));
            assert(cur@ == cur_through(original@.take(i + 1), Seq::empty()));
        }
        i = i + 1;
    }
    proof {
        assert(original@.take(n as int) =~= original@);
    }
    let ghost base = refresh_doc(original@, m@, Seq::empty());
    proof {
        assert(m@.take(0int) =~= Seq::<SectionSpec>::empty());
        assert(Seq::new(entries@.len(), |k: int| entries@[k]@) =~= base + appendix(
            orig@,
            m@.take(0int),
        ));
    }
    let mn = m.sections.len();
    let mut si: usize = 0;
    while si < mn
        invariant
            mn == m.sections@.len(),
            si <= mn,
            orig@ == map_of_doc(original@),
            base == refresh_doc(original@, m@, Seq::empty()),
            Seq::new(entries@.len(), |k: int| entries@[k]@) == base + appendix(
                orig@,
                m@.take(si as int),
            ),
        decreases mn - si,
    {
        let s = &m.sections[si];
        let ghost s_spec = m@[si as int];
        let ghost done = base + appendix(orig@, m@.take(si as int));
        proof {
            assert(s_spec.keys == s.keys@);
            assert(s_spec.name == s.name@);
        }
        let osec = section_find(&orig, s.name.as_str());
        let kn = s.keys.entries.len();
        let mut j: usize = 0;
        let mut pushed = false;
        while j < kn
            invariant
                kn == s.keys.entries@.len(),
                0 <= si < m.sections@.len(),
                s == m.sections@[si as int],
                s_spec == m@[si as int],
                s_spec.keys == s.keys@,
                s_spec.name == s.name@,
                j <= kn,
                kn == s_spec.keys.len(),
                (match osec {
                    Some(oi) => oi < orig.sections@.len() && section_index(orig@, s_spec.name)
                        == Some(oi as int),
                    None => section_index(orig@, s_spec.name) is None,
                }),
                pushed <==> new_keys(orig@, s_spec.name, s_spec.keys.take(j as int)).len() > 0,
                Seq::new(entries@.len(), |k: int| entries@[k]@) == done + (if pushed {
                    seq![EntrySpec::Header { name: s_spec.name }] + Seq::new(
                        new_keys(orig@, s_spec.name, s_spec.keys.take(j as int)).len(),
                        |w: int| pair_of(new_keys(orig@, s_spec.name, s_spec.keys.take(j as int))[w]),
                    )
                } else {
                    Seq::<EntrySpec>::empty()
                }),
            decreases kn - j,
        {
            let e = &s.keys.entries[j];
            proof {
                assert(s_spec.keys[j as int] == e@);
            }
            let is_covered: bool = match osec {
                None => false,
                Some(oi) => {
                    proof {
                        assert(orig@[oi as int].keys == orig.sections@[oi as int].keys@);
                    }
                    let kr = keymap_find(&orig.sections[oi].keys, e.key.as_str());
                    match kr {
                        Some(_) => true,
                        None => false,
                    }
                },
            };
            proof {
                assert(is_covered == covered(orig@, s_spec.name, s_spec.keys[j as int].key));
            }
            let ghost nk_pre = new_keys(orig@, s_spec.name, s_spec.keys.take(j as int));
            if !is_covered {
                if !pushed {
                    let ghost pre = entries@;
                    entries.push(LineEntry::SectionHeader { name: s.name.clone() });
                    pushed = true;
                    proof {
                        assert(Seq::new(entries@.len(), |k: int| entries@[k]@) =~~= Seq::new(
                            pre.len(),
                            |k: int| pre[k]@,
                        ).push(entries@[entries@.len() - 1]@)) by {
                            assert(forall|k: int|
                                0 <= k < pre.len() ==> entries@[k] == #[trigger] pre[k]);
                        }
                        assert(nk_pre =~= Seq::<KeyEntrySpec>::empty());
                        assert(Seq::new(entries@.len(), |k: int| entries@[k]@) =~~= done + seq![
                            EntrySpec::Header { name: s_spec.name },
                        ]);
                    }
                }
                let ghost pre = entries@;
                let ghost nk_now = new_keys(orig@, s_spec.name, s_spec.keys.take(j as int));
                let value_text: String = match &e.values {
                    None => String::new(),
                    Some(l) => join_values_exec(l),
                };
                proof {
                    assert(join_values(Seq::<Seq<char>>::empty()) =~= Seq::<char>::empty());
                    assert(value_text@ == join_values(values_or_empty(e@.values)));
                }
                entries.push(LineEntry::KeyValue { key: e.key.clone(), value: value_text });
                proof {
                    assert(entries@[entries@.len() - 1]@ =~~= pair_of(s_spec.keys[j as int]));
                    assert(Seq::new(entries@.len(), |k: int| entries@[k]@) =~~= Seq::new(
                        pre.len(),
                        |k: int| pre[k]@,
                    ).push(entries@[entries@.len() - 1]@)) by {
                        assert(forall|k: int|
                            0 <= k < pre.len() ==> entries@[k] == #[trigger] pre[k]);
                    }
                    let nk_next = nk_now.push(s_spec.keys[j as int]);
                    assert(Seq::new(nk_next.len(), |w: int| pair_of(nk_next[w])) =~~= Seq::new(
                        nk_now.len(),
                        |w: int| pair_of(nk_now[w]),
                    ).push(pair_of(s_spec.keys[j as int])));
                    assert(Seq::new(entries@.len(), |k: int| entries@[k]@) =~~= done + (seq![
                        EntrySpec::Header { name: s_spec.name },
                    ] + Seq::new(nk_next.len(), |w: int| pair_of(nk_next[w]))));
                }
            }
            proof {
                assert(s_spec.keys.take(j as int).push(s_spec.keys[j as int]) =~= s_spec.keys.take(
                    j + 1,
                ));
                lemma_new_keys_push(orig@, s_spec.name, s_spec.keys.take(j as int), s_spec.keys[
                    j as int
                ]);
            }
            j = j + 1;
        }
        proof {
            assert(s_spec.keys.take(kn as int) =~= s_spec.keys);
            let nk = new_keys(orig@, s_spec.name, s_spec.keys);
            if pushed {
                assert(appendix_of_section(orig@, s_spec) == seq![
                    EntrySpec::Header { name: s_spec.name },
                ] + Seq::new(nk.len(), |w: int| pair_of(nk[w])));
            } else {
                assert(appendix_of_section(orig@, s_spec) == Seq::<EntrySpec>::empty());
            }
            assert(m@.take(si as int).push(s_spec) =~= m@.take(si + 1));
            lemma_appendix_push(orig@, m@.take(si as int), s_spec);
            assert(Seq::new(entries@.len(), |k: int| entries@[k]@) =~~= base + appendix(
                orig@,
                m@.take(si + 1),
            ));
        }
        si = si + 1;
    }
    proof {
        assert(m@.take(mn as int) =~= m@);
    }
    let d = Document { entries };
    proof {
        assert(d@ =~= Seq::new(d.entries@.len(), |k: int| d.entries@[k]@));
    }
    d
}

/// Refreshing keeps one entry per original entry, each refreshed in
/// the section the walk stands in at its position.
pub proof fn lemma_refresh_doc_at(es: Seq<EntrySpec>, m: Seq<SectionSpec>, cur: Seq<char>)
    ensures
        refresh_doc(es, m, cur).len() == es.len(),
        forall|i: int|
            0 <= i < es.len() ==> refresh_doc(es, m, cur)[i] == refresh_entry(
                m,
                cur_through(es.take(i), cur),
                es[i],
            ),
    decreases es.len(),
{
    if es.len() > 0 {
        lemma_refresh_doc_at(es.drop_first(), m, cur_after(cur, es[0]));
        assert forall|i: int| 0 <= i < es.len() implies refresh_doc(es, m, cur)[i] == refresh_entry(
            m,
            cur_through(es.take(i), cur),
            es[i],
        ) by {
            if i == 0 {
                assert(es.take(0int) =~= Seq::<EntrySpec>::empty());
                assert(cur_through(Seq::<EntrySpec>::empty(), cur) == cur);
            } else {
                assert(refresh_doc(es, m, cur)[i] == refresh_doc(
                    es.drop_first(),
                    m,
                    cur_after(cur, es[0]),
                )[i - 1]);
                assert(es.take(i).drop_first() =~= es.drop_first().take(i - 1));
                assert(es.take(i)[0] == es[0]);
                assert(cur_through(es.take(i), cur) == cur_through(
                    es.drop_first().take(i - 1),
                    cur_after(cur, es[0]),
                ));
                assert(es.drop_first()[i - 1] == es[i]);
            }
        }
    }
}

/// Regeneration preserves the original layout: one entry per original
/// entry, in place — comments, blanks and headers verbatim, each
/// key/value line refreshed in its section — and after them exactly
/// the appendix of new sections and keys, in map order.
pub proof fn lemma_regenerate_preserves(es: Seq<EntrySpec>, m: Seq<SectionSpec>)
    ensures
        regen_doc(es, m).len() == es.len() + appendix(map_of_doc(es), m).len(),
        forall|i: int|
            0 <= i < es.len() ==> regen_doc(es, m)[i] == refresh_entry(
                m,
                cur_through(es.take(i), Seq::empty()),
                es[i],
            ),
        forall|i: int|
            0 <= i < es.len() && !((#[trigger] es[i]) is Pair) ==> regen_doc(es, m)[i] == es[i],
        regen_doc(es, m).skip(es.len() as int) == appendix(map_of_doc(es), m),
{
    lemma_refresh_doc_at(es, m, Seq::empty());
    assert(regen_doc(es, m).skip(es.len() as int) =~= appendix(map_of_doc(es), m));
    assert forall|i: int| 0 <= i < es.len() && !((#[trigger] es[i]) is Pair) implies regen_doc(
        es,
        m,
    )[i] == es[i] by {
        assert(regen_doc(es, m)[i] == refresh_entry(m, cur_through(es.take(i), Seq::empty()), es[
            i
        ]));
    }
}

} // verus!
