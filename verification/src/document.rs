//! The configuration document: an ordered mapping from names to scalar
//! string values and to sections, each section an ordered mapping from
//! subkeys to scalar string values.  Nesting is exactly one level deep.
//!
//! Addressing uses dotted key paths split on the first `.` only: a path
//! with no dot names a top-level scalar, and `section.key` names a leaf
//! inside a section (further dots belong to the subkey).  Writing a
//! dotted path whose first component is already bound to a scalar is a
//! structure conflict, not an overwrite.

use vstd::prelude::*;

use crate::errors::ConfigError;

verus! {

/// A key paired with its scalar string value, at the model level.
pub type Pair = (Seq<char>, Seq<char>);

/// Mathematical model of a configuration document: top-level scalars in
/// order, then sections in order, each with its entries in order.
#[verifier::ext_equal]
pub struct DocModel {
    pub tops: Seq<Pair>,
    pub sections: Seq<(Seq<char>, Seq<Pair>)>,
}

/// Value bound to `key` in an ordered list of pairs: the first match.
pub open spec fn pairs_lookup(es: Seq<Pair>, key: Seq<char>) -> Option<Seq<char>>
    decreases es.len(),
{
    if es.len() == 0 {
        None
    } else if es[0].0 == key {
        Some(es[0].1)
    } else {
        pairs_lookup(es.drop_first(), key)
    }
}

/// Whether `key` is bound in the list.
pub open spec fn pairs_has(es: Seq<Pair>, key: Seq<char>) -> bool {
    pairs_lookup(es, key) is Some
}

/// The list with `key` bound to `value`: the first binding of `key` is
/// replaced in place, or the pair is appended if `key` was absent.
pub open spec fn pairs_upsert(es: Seq<Pair>, key: Seq<char>, value: Seq<char>) -> Seq<Pair>
    decreases es.len(),
{
    if es.len() == 0 {
        seq![(key, value)]
    } else if es[0].0 == key {
        seq![(key, value)] + es.drop_first()
    } else {
        seq![es[0]] + pairs_upsert(es.drop_first(), key, value)
    }
}

/// Entries of the section named `name`, if there is one.
pub open spec fn sections_lookup(
    ss: Seq<(Seq<char>, Seq<Pair>)>,
    name: Seq<char>,
) -> Option<Seq<Pair>>
    decreases ss.len(),
{
    if ss.len() == 0 {
        None
    } else if ss[0].0 == name {
        Some(ss[0].1)
    } else {
        sections_lookup(ss.drop_first(), name)
    }
}

/// Whether a section named `name` exists.
pub open spec fn sections_has(ss: Seq<(Seq<char>, Seq<Pair>)>, name: Seq<char>) -> bool {
    sections_lookup(ss, name) is Some
}

/// The sections with every section named `name` removed.
pub open spec fn sections_remove(
    ss: Seq<(Seq<char>, Seq<Pair>)>,
    name: Seq<char>,
) -> Seq<(Seq<char>, Seq<Pair>)>
    decreases ss.len(),
{
    if ss.len() == 0 {
        ss
    } else if ss[0].0 == name {
        sections_remove(ss.drop_first(), name)
    } else {
        seq![ss[0]] + sections_remove(ss.drop_first(), name)
    }
}

/// The sections with `key` bound to `value` inside the section named
/// `name`; the section is created at the end if it was absent.
pub open spec fn sections_upsert(
    ss: Seq<(Seq<char>, Seq<Pair>)>,
    name: Seq<char>,
    key: Seq<char>,
    value: Seq<char>,
) -> Seq<(Seq<char>, Seq<Pair>)>
    decreases ss.len(),
{
    if ss.len() == 0 {
        seq![(name, seq![(key, value)])]
    } else if ss[0].0 == name {
        seq![(name, pairs_upsert(ss[0].1, key, value))] + ss.drop_first()
    } else {
        seq![ss[0]] + sections_upsert(ss.drop_first(), name, key, value)
    }
}

/// Index of the first `.` in a path, or the path's length if it has none.
pub open spec fn first_dot(path: Seq<char>) -> int
    decreases path.len(),
{
    if path.len() == 0 {
        0
    } else if path[0] == '.' {
        0
    } else {
        1 + first_dot(path.drop_first())
    }
}

/// A path is dotted when it holds at least one `.`.
pub open spec fn path_is_dotted(path: Seq<char>) -> bool {
    first_dot(path) < path.len()
}

/// Section component of a dotted path: everything before the first `.`.
pub open spec fn path_section(path: Seq<char>) -> Seq<char> {
    path.take(first_dot(path))
}

/// Subkey component of a dotted path: everything after the first `.`.
pub open spec fn path_subkey(path: Seq<char>) -> Seq<char> {
    path.skip(first_dot(path) + 1)
}

/// What reading `path` from a document yields.  A bare path reads only a
/// top-level scalar; a dotted path reads only a leaf of a section.
/// Absence of either is `None`, never an error.
pub open spec fn model_get(d: DocModel, path: Seq<char>) -> Option<Seq<char>> {
    if !path_is_dotted(path) {
        pairs_lookup(d.tops, path)
    } else {
        match sections_lookup(d.sections, path_section(path)) {
            Some(es) => pairs_lookup(es, path_subkey(path)),
            None => None,
        }
    }
}

/// What writing `value` at `path` yields.  A bare write binds the
/// top-level scalar, displacing a section of the same name.  A dotted
/// write creates or extends the section, but refuses (`None`) when the
/// section name is already bound to a top-level scalar.
pub open spec fn model_set(d: DocModel, path: Seq<char>, value: Seq<char>) -> Option<DocModel> {
    if !path_is_dotted(path) {
        Some(
            DocModel {
                tops: pairs_upsert(d.tops, path, value),
                sections: sections_remove(d.sections, path),
            },
        )
    } else {
        if pairs_has(d.tops, path_section(path)) {
            None
        } else {
            Some(
                DocModel {
                    tops: d.tops,
                    sections: sections_upsert(d.sections, path_section(path), path_subkey(path), value),
                },
            )
        }
    }
}

/// All keys in the list are distinct.
pub open spec fn pairs_wf(es: Seq<Pair>) -> bool
    decreases es.len(),
{
    es.len() == 0 || (!pairs_has(es.drop_first(), es[0].0) && pairs_wf(es.drop_first()))
}

/// Sections are well formed against the given top-level scalars: names
/// are distinct, never reuse a top-level name, and every section's own
/// subkeys are distinct.
pub open spec fn sections_wf(ss: Seq<(Seq<char>, Seq<Pair>)>, tops: Seq<Pair>) -> bool
    decreases ss.len(),
{
    ss.len() == 0 || {
        &&& !pairs_has(tops, ss[0].0)
        &&& !sections_has(ss.drop_first(), ss[0].0)
        &&& pairs_wf(ss[0].1)
        &&& sections_wf(ss.drop_first(), tops)
    }
}

/// Well-formed document: top-level keys distinct, section names distinct,
/// subkeys distinct within each section, and no name bound both to a
/// scalar and to a section.
pub open spec fn model_wf(d: DocModel) -> bool {
    pairs_wf(d.tops) && sections_wf(d.sections, d.tops)
}

/// The document with no entries at all.
pub open spec fn model_empty() -> DocModel {
    DocModel { tops: Seq::empty(), sections: Seq::empty() }
}

/// One `key = "value"` leaf of the document.
#[derive(Debug)]
pub struct ConfigEntry {
    pub key: String,
    pub value: String,
}

/// One named section with its leaves.
#[derive(Debug)]
pub struct ConfigSection {
    pub name: String,
    pub entries: Vec<ConfigEntry>,
}

/// The in-memory configuration document.  It is read fully from the
/// config file's text, mutated one leaf at a time, and rendered fully
/// back to text; it is never patched in place on disk.
#[derive(Debug)]
pub struct ConfigDoc {
    pub tops: Vec<ConfigEntry>,
    pub sections: Vec<ConfigSection>,
}

impl View for ConfigEntry {
    type V = Pair;

    open spec fn view(&self) -> Pair {
        (self.key@, self.value@)
    }
}

/// The model of a list of leaves.
pub open spec fn entries_view(v: Seq<ConfigEntry>) -> Seq<Pair> {
    v.map_values(|e: ConfigEntry| e@)
}

impl View for ConfigSection {
    type V = (Seq<char>, Seq<Pair>);

    open spec fn view(&self) -> (Seq<char>, Seq<Pair>) {
        (self.name@, entries_view(self.entries@))
    }
}

/// The model of a list of sections.
pub open spec fn sections_view(v: Seq<ConfigSection>) -> Seq<(Seq<char>, Seq<Pair>)> {
    v.map_values(|s: ConfigSection| s@)
}

impl View for ConfigDoc {
    type V = DocModel;

    open spec fn view(&self) -> DocModel {
        DocModel { tops: entries_view(self.tops@), sections: sections_view(self.sections@) }
    }
}

proof fn lemma_pairs_lookup_at(es: Seq<Pair>, key: Seq<char>, i: int)
    requires
        0 <= i < es.len(),
        es[i].0 == key,
        forall|j: int| 0 <= j < i ==> es[j].0 != key,
    ensures
        pairs_lookup(es, key) == Some(es[i].1),
    decreases i,
{
    if i > 0 {
        lemma_pairs_lookup_at(es.drop_first(), key, i - 1);
    }
}

proof fn lemma_pairs_lookup_none(es: Seq<Pair>, key: Seq<char>)
    requires
        forall|j: int| 0 <= j < es.len() ==> es[j].0 != key,
    ensures
        pairs_lookup(es, key) is None,
    decreases es.len(),
{
    if es.len() > 0 {
        lemma_pairs_lookup_none(es.drop_first(), key);
    }
}

/// `pairs_has` said as the existence of an index.
pub proof fn lemma_pairs_has_exists(es: Seq<Pair>, key: Seq<char>)
    ensures
        pairs_has(es, key) <==> exists|j: int| 0 <= j < es.len() && es[j].0 == key,
    decreases es.len(),
{
    if es.len() > 0 {
        lemma_pairs_has_exists(es.drop_first(), key);
        if es[0].0 == key {
            assert(0 <= 0 < es.len() && es[0].0 == key);
        } else {
            if pairs_has(es, key) {
                let j = choose|j: int|
                    0 <= j < es.drop_first().len() && es.drop_first()[j].0 == key;
                assert(es[j + 1].0 == key);
            }
            if exists|j: int| 0 <= j < es.len() && es[j].0 == key {
                let j = choose|j: int| 0 <= j < es.len() && es[j].0 == key;
                assert(es.drop_first()[j - 1].0 == key);
            }
        }
    }
}

proof fn lemma_pairs_upsert_at(es: Seq<Pair>, key: Seq<char>, value: Seq<char>, i: int)
    requires
        0 <= i < es.len(),
        es[i].0 == key,
        forall|j: int| 0 <= j < i ==> es[j].0 != key,
    ensures
        pairs_upsert(es, key, value) == es.update(i, (key, value)),
    decreases i,
{
    if i == 0 {
        assert(pairs_upsert(es, key, value) =~= es.update(0, (key, value)));
    } else {
        lemma_pairs_upsert_at(es.drop_first(), key, value, i - 1);
        assert(seq![es[0]] + es.drop_first().update(i - 1, (key, value)) =~= es.update(
            i,
            (key, value),
        ));
    }
}

proof fn lemma_pairs_upsert_none(es: Seq<Pair>, key: Seq<char>, value: Seq<char>)
    requires
        forall|j: int| 0 <= j < es.len() ==> es[j].0 != key,
    ensures
        pairs_upsert(es, key, value) == es.push((key, value)),
    decreases es.len(),
{
    if es.len() == 0 {
        assert(pairs_upsert(es, key, value) =~= es.push((key, value)));
    } else {
        lemma_pairs_upsert_none(es.drop_first(), key, value);
        assert(seq![es[0]] + es.drop_first().push((key, value)) =~= es.push((key, value)));
    }
}

proof fn lemma_sections_lookup_at(ss: Seq<(Seq<char>, Seq<Pair>)>, name: Seq<char>, i: int)
    requires
        0 <= i < ss.len(),
        ss[i].0 == name,
        forall|j: int| 0 <= j < i ==> ss[j].0 != name,
    ensures
        sections_lookup(ss, name) == Some(ss[i].1),
    decreases i,
{
    if i > 0 {
        lemma_sections_lookup_at(ss.drop_first(), name, i - 1);
    }
}

proof fn lemma_sections_lookup_none(ss: Seq<(Seq<char>, Seq<Pair>)>, name: Seq<char>)
    requires
        forall|j: int| 0 <= j < ss.len() ==> ss[j].0 != name,
    ensures
        sections_lookup(ss, name) is None,
    decreases ss.len(),
{
    if ss.len() > 0 {
        lemma_sections_lookup_none(ss.drop_first(), name);
    }
}

/// `sections_has` said as the existence of an index.
pub proof fn lemma_sections_has_exists(ss: Seq<(Seq<char>, Seq<Pair>)>, name: Seq<char>)
    ensures
        sections_has(ss, name) <==> exists|j: int| 0 <= j < ss.len() && ss[j].0 == name,
    decreases ss.len(),
{
    if ss.len() > 0 {
        lemma_sections_has_exists(ss.drop_first(), name);
        if ss[0].0 == name {
            assert(0 <= 0 < ss.len() && ss[0].0 == name);
        } else {
            if sections_has(ss, name) {
                let j = choose|j: int|
                    0 <= j < ss.drop_first().len() && ss.drop_first()[j].0 == name;
                assert(ss[j + 1].0 == name);
            }
            if exists|j: int| 0 <= j < ss.len() && ss[j].0 == name {
                let j = choose|j: int| 0 <= j < ss.len() && ss[j].0 == name;
                assert(ss.drop_first()[j - 1].0 == name);
            }
        }
    }
}

proof fn lemma_sections_remove_at(ss: Seq<(Seq<char>, Seq<Pair>)>, name: Seq<char>, i: int)
    requires
        0 <= i < ss.len(),
        ss[i].0 == name,
        forall|j: int| 0 <= j < ss.len() && j != i ==> ss[j].0 != name,
    ensures
        sections_remove(ss, name) == ss.remove(i),
    decreases i,
{
    if i == 0 {
        lemma_sections_remove_none(ss.drop_first(), name);
        assert(sections_remove(ss, name) =~= ss.remove(0));
    } else {
        lemma_sections_remove_at(ss.drop_first(), name, i - 1);
        assert(seq![ss[0]] + ss.drop_first().remove(i - 1) =~= ss.remove(i));
    }
}

proof fn lemma_sections_remove_none(ss: Seq<(Seq<char>, Seq<Pair>)>, name: Seq<char>)
    requires
        forall|j: int| 0 <= j < ss.len() ==> ss[j].0 != name,
    ensures
        sections_remove(ss, name) == ss,
    decreases ss.len(),
{
    if ss.len() == 0 {
    } else {
        lemma_sections_remove_none(ss.drop_first(), name);
        assert(seq![ss[0]] + ss.drop_first() =~= ss);
    }
}

proof fn lemma_sections_upsert_at(
    ss: Seq<(Seq<char>, Seq<Pair>)>,
    name: Seq<char>,
    key: Seq<char>,
    value: Seq<char>,
    i: int,
)
    requires
        0 <= i < ss.len(),
        ss[i].0 == name,
        forall|j: int| 0 <= j < i ==> ss[j].0 != name,
    ensures
        sections_upsert(ss, name, key, value) == ss.update(
            i,
            (name, pairs_upsert(ss[i].1, key, value)),
        ),
    decreases i,
{
    if i == 0 {
        assert(sections_upsert(ss, name, key, value) =~= ss.update(
            0,
            (name, pairs_upsert(ss[0].1, key, value)),
        ));
    } else {
        lemma_sections_upsert_at(ss.drop_first(), name, key, value, i - 1);
        assert(seq![ss[0]] + ss.drop_first().update(
            i - 1,
            (name, pairs_upsert(ss[i].1, key, value)),
        ) =~= ss.update(i, (name, pairs_upsert(ss[i].1, key, value))));
    }
}

proof fn lemma_sections_upsert_none(
    ss: Seq<(Seq<char>, Seq<Pair>)>,
    name: Seq<char>,
    key: Seq<char>,
    value: Seq<char>,
)
    requires
        forall|j: int| 0 <= j < ss.len() ==> ss[j].0 != name,
    ensures
        sections_upsert(ss, name, key, value) == ss.push((name, seq![(key, value)])),
    decreases ss.len(),
{
    if ss.len() == 0 {
        assert(sections_upsert(ss, name, key, value) =~= ss.push((name, seq![(key, value)])));
    } else {
        lemma_sections_upsert_none(ss.drop_first(), name, key, value);
        assert(seq![ss[0]] + ss.drop_first().push((name, seq![(key, value)])) =~= ss.push(
            (name, seq![(key, value)]),
        ));
    }
}

proof fn lemma_first_dot_at(p: Seq<char>, i: int)
    requires
        0 <= i <= p.len(),
        forall|j: int| 0 <= j < i ==> p[j] != '.',
        i < p.len() ==> p[i] == '.',
    ensures
        first_dot(p) == i,
    decreases i,
{
    if i == 0 {
    } else {
        lemma_first_dot_at(p.drop_first(), i - 1);
    }
}

fn find_first_dot(path: &str) -> (r: usize)
    ensures
        r == first_dot(path@),
        r <= path@.len(),
{
    let n = path.unicode_len();
    let mut i: usize = 0;
    while i < n
        invariant
            i <= n,
            n == path@.len(),
            forall|j: int| 0 <= j < i ==> path@[j] != '.',
        decreases n - i,
    {
        if path.get_char(i) == '.' {
            proof {
                lemma_first_dot_at(path@, i as int);
            }
            return i;
        }
        i += 1;
    }
    proof {
        lemma_first_dot_at(path@, i as int);
    }
    i
}

pub(crate) fn pairs_vec_lookup(v: &Vec<ConfigEntry>, key: &String) -> (r: Option<String>)
    ensures
        r is Some <==> pairs_has(entries_view(v@), key@),
        r matches Some(s) ==> pairs_lookup(entries_view(v@), key@) == Some(s@),
{
    let n = v.len();
    let mut i: usize = 0;
    while i < n
        invariant
            i <= n,
            n == v.len(),
            forall|j: int| 0 <= j < i ==> entries_view(v@)[j].0 != key@,
        decreases n - i,
    {
        if v[i].key == *key {
            let ret = Some(v[i].value.clone());
            proof {
                lemma_pairs_lookup_at(entries_view(v@), key@, i as int);
            }
            return ret;
        }
        i += 1;
    }
    proof {
        lemma_pairs_lookup_none(entries_view(v@), key@);
    }
    None
}

fn pairs_vec_upsert(v: &mut Vec<ConfigEntry>, key: &String, value: &String)
    ensures
        entries_view(final(v)@) == pairs_upsert(entries_view(old(v)@), key@, value@),
{
    let n = v.len();
    let mut i: usize = 0;
    while i < n
        invariant
            i <= n,
            n == v.len(),
            v@ == old(v)@,
            forall|j: int| 0 <= j < i ==> entries_view(v@)[j].0 != key@,
        decreases n - i,
    {
        if v[i].key == *key {
            let e = ConfigEntry { key: key.clone(), value: value.clone() };
            let ghost ev = e@;
            let _ = v.remove(i);
            v.insert(i, e);
            proof {
                lemma_pairs_upsert_at(entries_view(old(v)@), key@, value@, i as int);
                assert(v@ =~= old(v)@.update(i as int, v@[i as int]));
                assert(entries_view(v@) =~= entries_view(old(v)@).update(i as int, ev));
            }
            return;
        }
        i += 1;
    }
    let e = ConfigEntry { key: key.clone(), value: value.clone() };
    let ghost ev = e@;
    v.push(e);
    proof {
        lemma_pairs_upsert_none(entries_view(old(v)@), key@, value@);
        assert(entries_view(v@) =~= entries_view(old(v)@).push(ev));
    }
}

pub(crate) fn sections_vec_find(v: &Vec<ConfigSection>, name: &String) -> (r: Option<usize>)
    ensures
        r matches Some(i) ==> i < v.len() && sections_view(v@)[i as int].0 == name@
            && sections_lookup(sections_view(v@), name@) == Some(sections_view(v@)[i as int].1)
            && (forall|j: int| 0 <= j < i ==> sections_view(v@)[j].0 != name@),
        r is None ==> !sections_has(sections_view(v@), name@),
{
    let n = v.len();
    let mut i: usize = 0;
    while i < n
        invariant
            i <= n,
            n == v.len(),
            forall|j: int| 0 <= j < i ==> sections_view(v@)[j].0 != name@,
        decreases n - i,
    {
        if v[i].name == *name {
            proof {
                lemma_sections_lookup_at(sections_view(v@), name@, i as int);
            }
            return Some(i);
        }
        i += 1;
    }
    proof {
        lemma_sections_lookup_none(sections_view(v@), name@);
    }
    None
}

fn sections_vec_upsert(v: &mut Vec<ConfigSection>, name: &String, key: &String, value: &String)
    ensures
        sections_view(final(v)@) == sections_upsert(sections_view(old(v)@), name@, key@, value@),
{
    match sections_vec_find(v, name) {
        Some(i) => {
            let mut sec = v.remove(i);
            pairs_vec_upsert(&mut sec.entries, key, value);
            let ghost sv = (name@, sec@.1);
            proof {
                assert(sec@.0 == name@);
            }
            v.insert(i, sec);
            proof {
                lemma_sections_upsert_at(
                    sections_view(old(v)@),
                    name@,
                    key@,
                    value@,
                    i as int,
                );
                assert(v@ =~= old(v)@.update(i as int, v@[i as int]));
                assert(sections_view(v@) =~= sections_view(old(v)@).update(i as int, sv));
            }
        },
        None => {
            let mut entries: Vec<ConfigEntry> = Vec::new();
            entries.push(ConfigEntry { key: key.clone(), value: value.clone() });
            let sec = ConfigSection { name: name.clone(), entries };
            let ghost sv = sec@;
            proof {
                lemma_sections_has_exists(sections_view(v@), name@);
                lemma_sections_upsert_none(sections_view(v@), name@, key@, value@);
                assert(sv.1 =~= seq![(key@, value@)]);
            }
            v.push(sec);
            proof {
                assert(sections_view(v@) =~= sections_view(old(v)@).push(sv));
            }
        },
    }
}

fn sections_vec_remove(v: &mut Vec<ConfigSection>, name: &String)
    requires
        forall|i: int, j: int|
            0 <= i < j < old(v)@.len() ==> sections_view(old(v)@)[i].0 != sections_view(
                old(v)@,
            )[j].0,
    ensures
        sections_view(final(v)@) == sections_remove(sections_view(old(v)@), name@),
{
    match sections_vec_find(v, name) {
        Some(i) => {
            let _ = v.remove(i);
            proof {
                lemma_sections_remove_at(sections_view(old(v)@), name@, i as int);
                assert(sections_view(v@) =~= sections_view(old(v)@).remove(i as int));
            }
        },
        None => {
            proof {
                lemma_sections_has_exists(sections_view(v@), name@);
                lemma_sections_remove_none(sections_view(v@), name@);
            }
        },
    }
}

impl ConfigDoc {
    /// A freshly created, empty document.
    pub fn new() -> (d: Self)
        ensures
            d@ == model_empty(),
            model_wf(d@),
    {
        let d = ConfigDoc { tops: Vec::new(), sections: Vec::new() };
        proof {
            assert(d@ =~= model_empty());
        }
        d
    }

    /// Read the value at a dotted key path.  Absence of the key, of its
    /// section, or of a scalar under that exact shape is `None`, never an
    /// error.
    pub fn get(&self, path: &str) -> (r: Option<String>)
        ensures
            r is Some <==> model_get(self@, path@) is Some,
            r matches Some(s) ==> model_get(self@, path@) == Some(s@),
    {
        let i = find_first_dot(path);
        let n = path.unicode_len();
        if i == n {
            let key = path.to_owned();
            pairs_vec_lookup(&self.tops, &key)
        } else {
            let sec = path.substring_char(0, i).to_owned();
            let sub = path.substring_char(i + 1, n).to_owned();
            proof {
                assert(sec@ =~= path_section(path@));
                assert(sub@ =~= path_subkey(path@));
            }
            match sections_vec_find(&self.sections, &sec) {
                Some(si) => {
                    let r = pairs_vec_lookup(&self.sections[si].entries, &sub);
                    proof {
                        assert(sections_view(self.sections@)[si as int].1 == entries_view(
                            self.sections@[si as int].entries@,
                        ));
                    }
                    r
                },
                None => None,
            }
        }
    }

    /// Write `value` at a dotted key path.  A bare path binds the
    /// top-level scalar, displacing any section of the same name; a
    /// dotted path creates or extends its section.  When the section
    /// name is already bound to a scalar, the write fails with
    /// `ConfigStructureInvalid` and the document is left unchanged.
    pub fn set(&mut self, path: &str, value: &str) -> (r: Result<(), ConfigError>)
        requires
            model_wf(old(self)@),
        ensures
            match model_set(old(self)@, path@, value@) {
                Some(d) => r is Ok && final(self)@ == d,
                None => r == Err::<(), ConfigError>(ConfigError::ConfigStructureInvalid)
                    && final(self)@ == old(self)@,
            },
    {
        let i = find_first_dot(path);
        let n = path.unicode_len();
        let val = value.to_owned();
        if i == n {
            let key = path.to_owned();
            proof {
                lemma_sections_wf_distinct(sections_view(self.sections@), entries_view(self.tops@));
            }
            pairs_vec_upsert(&mut self.tops, &key, &val);
            sections_vec_remove(&mut self.sections, &key);
            proof {
                assert(self@ =~= model_set(old(self)@, path@, value@).unwrap());
            }
            Ok(())
        } else {
            let sec = path.substring_char(0, i).to_owned();
            let sub = path.substring_char(i + 1, n).to_owned();
            proof {
                assert(sec@ =~= path_section(path@));
                assert(sub@ =~= path_subkey(path@));
            }
            match pairs_vec_lookup(&self.tops, &sec) {
                Some(_) => Err(ConfigError::ConfigStructureInvalid),
                None => {
                    sections_vec_upsert(&mut self.sections, &sec, &sub, &val);
                    proof {
                        assert(self@ =~= model_set(old(self)@, path@, value@).unwrap());
                    }
                    Ok(())
                },
            }
        }
    }
}

/// Looking a key up after an upsert: the upserted key reads the new
/// value, every other key reads as before.
pub proof fn lemma_pairs_upsert_lookup(es: Seq<Pair>, key: Seq<char>, value: Seq<char>, other: Seq<char>)
    ensures
        pairs_lookup(pairs_upsert(es, key, value), other) == if other == key {
            Some(value)
        } else {
            pairs_lookup(es, other)
        },
    decreases es.len(),
{
    if es.len() == 0 {
        let up = pairs_upsert(es, key, value);
        assert(up =~= seq![(key, value)]);
        if other != key {
            assert(up.drop_first().len() == 0);
            assert(pairs_lookup(up.drop_first(), other) is None);
        }
    } else if es[0].0 == key {
        let up = seq![(key, value)] + es.drop_first();
        assert(up.drop_first() =~= es.drop_first());
        assert(pairs_lookup(up, other) == if other == key {
            Some(value)
        } else {
            pairs_lookup(es.drop_first(), other)
        });
    } else {
        lemma_pairs_upsert_lookup(es.drop_first(), key, value, other);
        let up = seq![es[0]] + pairs_upsert(es.drop_first(), key, value);
        assert(up.drop_first() =~= pairs_upsert(es.drop_first(), key, value));
        assert(up[0] == es[0]);
        assert(pairs_lookup(up, other) == if other == es[0].0 {
            Some(es[0].1)
        } else {
            pairs_lookup(pairs_upsert(es.drop_first(), key, value), other)
        });
    }
}

/// Looking a section up after an upsert: the upserted section holds its
/// old entries (or none) with the key bound; every other name reads as
/// before.
pub proof fn lemma_sections_upsert_lookup(
    ss: Seq<(Seq<char>, Seq<Pair>)>,
    name: Seq<char>,
    key: Seq<char>,
    value: Seq<char>,
    other: Seq<char>,
)
    ensures
        sections_lookup(sections_upsert(ss, name, key, value), other) == if other == name {
            Some(
                pairs_upsert(
                    match sections_lookup(ss, name) {
                        Some(es) => es,
                        None => Seq::empty(),
                    },
                    key,
                    value,
                ),
            )
        } else {
            sections_lookup(ss, other)
        },
    decreases ss.len(),
{
    if ss.len() == 0 {
        let up = sections_upsert(ss, name, key, value);
        assert(up =~= seq![(name, seq![(key, value)])]);
        assert(pairs_upsert(Seq::<Pair>::empty(), key, value) =~= seq![(key, value)]);
        if other != name {
            assert(up.drop_first().len() == 0);
            assert(sections_lookup(up.drop_first(), other) is None);
        }
    } else if ss[0].0 == name {
        let up = seq![(name, pairs_upsert(ss[0].1, key, value))] + ss.drop_first();
        assert(up.drop_first() =~= ss.drop_first());
        assert(sections_lookup(up, other) == if other == name {
            Some(pairs_upsert(ss[0].1, key, value))
        } else {
            sections_lookup(ss.drop_first(), other)
        });
    } else {
        lemma_sections_upsert_lookup(ss.drop_first(), name, key, value, other);
        let up = seq![ss[0]] + sections_upsert(ss.drop_first(), name, key, value);
        assert(up.drop_first() =~= sections_upsert(ss.drop_first(), name, key, value));
        assert(up[0] == ss[0]);
        assert(sections_lookup(up, other) == if other == ss[0].0 {
            Some(ss[0].1)
        } else {
            sections_lookup(sections_upsert(ss.drop_first(), name, key, value), other)
        });
    }
}

/// Looking a section up after a removal: the removed name is gone, every
/// other name reads as before.
pub proof fn lemma_sections_remove_lookup(
    ss: Seq<(Seq<char>, Seq<Pair>)>,
    name: Seq<char>,
    other: Seq<char>,
)
    ensures
        sections_lookup(sections_remove(ss, name), other) == if other == name {
            None
        } else {
            sections_lookup(ss, other)
        },
    decreases ss.len(),
{
    if ss.len() == 0 {
    } else if ss[0].0 == name {
        lemma_sections_remove_lookup(ss.drop_first(), name, other);
    } else {
        lemma_sections_remove_lookup(ss.drop_first(), name, other);
        assert((seq![ss[0]] + sections_remove(ss.drop_first(), name)).drop_first()
            =~= sections_remove(ss.drop_first(), name));
    }
}

proof fn lemma_pairs_upsert_wf(es: Seq<Pair>, key: Seq<char>, value: Seq<char>)
    requires
        pairs_wf(es),
    ensures
        pairs_wf(pairs_upsert(es, key, value)),
    decreases es.len(),
{
    if es.len() == 0 {
        let up = pairs_upsert(es, key, value);
        assert(up =~= seq![(key, value)]);
        assert(up.drop_first().len() == 0);
        assert(pairs_wf(up.drop_first()));
        assert(!pairs_has(up.drop_first(), up[0].0));
        assert(pairs_wf(up));
    } else if es[0].0 == key {
        let up = seq![(key, value)] + es.drop_first();
        assert(up.drop_first() =~= es.drop_first());
        assert(pairs_wf(up));
    } else {
        lemma_pairs_upsert_wf(es.drop_first(), key, value);
        lemma_pairs_upsert_lookup(es.drop_first(), key, value, es[0].0);
        let up = seq![es[0]] + pairs_upsert(es.drop_first(), key, value);
        assert(up.drop_first() =~= pairs_upsert(es.drop_first(), key, value));
        assert(up[0] == es[0]);
        assert(pairs_wf(up));
    }
}

proof fn lemma_sections_remove_wf(
    ss: Seq<(Seq<char>, Seq<Pair>)>,
    tops: Seq<Pair>,
    key: Seq<char>,
    value: Seq<char>,
)
    requires
        sections_wf(ss, tops),
    ensures
        sections_wf(sections_remove(ss, key), pairs_upsert(tops, key, value)),
    decreases ss.len(),
{
    if ss.len() == 0 {
    } else if ss[0].0 == key {
        lemma_sections_remove_wf(ss.drop_first(), tops, key, value);
    } else {
        lemma_sections_remove_wf(ss.drop_first(), tops, key, value);
        lemma_pairs_upsert_lookup(tops, key, value, ss[0].0);
        lemma_sections_remove_lookup(ss.drop_first(), key, ss[0].0);
        assert((seq![ss[0]] + sections_remove(ss.drop_first(), key)).drop_first()
            =~= sections_remove(ss.drop_first(), key));
    }
}

proof fn lemma_sections_upsert_wf(
    ss: Seq<(Seq<char>, Seq<Pair>)>,
    tops: Seq<Pair>,
    name: Seq<char>,
    key: Seq<char>,
    value: Seq<char>,
)
    requires
        sections_wf(ss, tops),
        !pairs_has(tops, name),
    ensures
        sections_wf(sections_upsert(ss, name, key, value), tops),
    decreases ss.len(),
{
    if ss.len() == 0 {
        let up = sections_upsert(ss, name, key, value);
        assert(up =~= seq![(name, seq![(key, value)])]);
        assert(up.drop_first().len() == 0);
        assert(sections_wf(up.drop_first(), tops));
        assert(!sections_has(up.drop_first(), name));
        let e: Seq<Pair> = seq![(key, value)];
        assert(e.drop_first().len() == 0);
        assert(!pairs_has(e.drop_first(), key));
        assert(pairs_wf(e.drop_first()));
        assert(pairs_wf(e));
        assert(sections_wf(up, tops));
    } else if ss[0].0 == name {
        lemma_pairs_upsert_wf(ss[0].1, key, value);
        let up = seq![(name, pairs_upsert(ss[0].1, key, value))] + ss.drop_first();
        assert(up.drop_first() =~= ss.drop_first());
        assert(sections_wf(up, tops));
    } else {
        lemma_sections_upsert_wf(ss.drop_first(), tops, name, key, value);
        lemma_sections_upsert_lookup(ss.drop_first(), name, key, value, ss[0].0);
        let up = seq![ss[0]] + sections_upsert(ss.drop_first(), name, key, value);
        assert(up.drop_first() =~= sections_upsert(ss.drop_first(), name, key, value));
        assert(up[0] == ss[0]);
        assert(sections_wf(up, tops));
    }
}

/// A successful write keeps the document well formed.
pub proof fn lemma_model_set_wf(d: DocModel, path: Seq<char>, value: Seq<char>)
    requires
        model_wf(d),
        model_set(d, path, value) is Some,
    ensures
        model_wf(model_set(d, path, value).unwrap()),
{
    if !path_is_dotted(path) {
        lemma_pairs_upsert_wf(d.tops, path, value);
        lemma_sections_remove_wf(d.sections, d.tops, path, value);
    } else {
        lemma_sections_upsert_wf(d.sections, d.tops, path_section(path), path_subkey(path), value);
    }
}

proof fn lemma_first_dot_props(p: Seq<char>)
    ensures
        0 <= first_dot(p) <= p.len(),
        first_dot(p) < p.len() ==> p[first_dot(p)] == '.',
        forall|j: int| 0 <= j < first_dot(p) ==> p[j] != '.',
    decreases p.len(),
{
    if p.len() > 0 && p[0] != '.' {
        lemma_first_dot_props(p.drop_first());
        assert forall|j: int| 0 <= j < first_dot(p) implies p[j] != '.' by {
            if j > 0 {
                assert(p.drop_first()[j - 1] != '.');
            }
        }
    }
}

/// A dotted path is its section, a dot, and its subkey, in that order.
pub proof fn lemma_path_decompose(p: Seq<char>)
    requires
        path_is_dotted(p),
    ensures
        p == path_section(p) + seq!['.'] + path_subkey(p),
        !path_is_dotted(path_section(p)),
{
    lemma_first_dot_props(p);
    assert(p =~= path_section(p) + seq!['.'] + path_subkey(p));
    lemma_first_dot_at(path_section(p), first_dot(p));
}

/// LAW.  Reading a path right after writing it returns exactly the value
/// written, whenever the write succeeded.
pub proof fn lemma_set_then_get(d: DocModel, path: Seq<char>, value: Seq<char>)
    requires
        model_set(d, path, value) is Some,
    ensures
        model_get(model_set(d, path, value).unwrap(), path) == Some(value),
{
    if !path_is_dotted(path) {
        lemma_pairs_upsert_lookup(d.tops, path, value, path);
    } else {
        lemma_sections_upsert_lookup(
            d.sections,
            path_section(path),
            path_subkey(path),
            value,
            path_section(path),
        );
        let es = match sections_lookup(d.sections, path_section(path)) {
            Some(es) => es,
            None => Seq::empty(),
        };
        lemma_pairs_upsert_lookup(es, path_subkey(path), value, path_subkey(path));
    }
}

/// LAW.  A write at one path leaves the value at every other path as it
/// was.  The one exception is a bare write that displaces the very
/// section the other path reads through, which erases that section as
/// the scalar takes the name over.
pub proof fn lemma_set_preserves_other(
    d: DocModel,
    read_path: Seq<char>,
    write_path: Seq<char>,
    value: Seq<char>,
)
    requires
        model_set(d, write_path, value) is Some,
        read_path != write_path,
        !(!path_is_dotted(write_path) && path_is_dotted(read_path) && path_section(read_path)
            == write_path),
    ensures
        model_get(model_set(d, write_path, value).unwrap(), read_path) == model_get(d, read_path),
{
    if !path_is_dotted(write_path) {
        if !path_is_dotted(read_path) {
            lemma_pairs_upsert_lookup(d.tops, write_path, value, read_path);
        } else {
            lemma_sections_remove_lookup(d.sections, write_path, path_section(read_path));
        }
    } else {
        let wsec = path_section(write_path);
        let wsub = path_subkey(write_path);
        if !path_is_dotted(read_path) {
        } else {
            let rsec = path_section(read_path);
            let rsub = path_subkey(read_path);
            lemma_sections_upsert_lookup(d.sections, wsec, wsub, value, rsec);
            if rsec == wsec {
                lemma_path_decompose(read_path);
                lemma_path_decompose(write_path);
                assert(rsub != wsub) by {
                    if rsub == wsub {
                        assert(read_path =~= write_path);
                    }
                }
                let es = match sections_lookup(d.sections, wsec) {
                    Some(es) => es,
                    None => Seq::empty(),
                };
                lemma_pairs_upsert_lookup(es, wsub, value, rsub);
            }
        }
    }
}

/// LAW.  A dotted write whose section name is already bound to a
/// top-level scalar is refused: a section cannot be created by reusing a
/// name bound to a plain value.
pub proof fn lemma_structure_conflict(d: DocModel, path: Seq<char>, value: Seq<char>)
    requires
        path_is_dotted(path),
        pairs_has(d.tops, path_section(path)),
    ensures
        model_set(d, path, value) is None,
{
}

/// LAW.  Reading any path from a freshly created document yields `None`:
/// absence, not an error.
pub proof fn lemma_fresh_get_none(path: Seq<char>)
    ensures
        model_get(model_empty(), path) is None,
{
}

/// Recursive well-formedness of sections gives pairwise distinct names.
proof fn lemma_sections_wf_distinct(ss: Seq<(Seq<char>, Seq<Pair>)>, tops: Seq<Pair>)
    requires
        sections_wf(ss, tops),
    ensures
        forall|i: int, j: int| 0 <= i < j < ss.len() ==> ss[i].0 != ss[j].0,
    decreases ss.len(),
{
    if ss.len() > 0 {
        lemma_sections_wf_distinct(ss.drop_first(), tops);
        lemma_sections_has_exists(ss.drop_first(), ss[0].0);
        assert forall|i: int, j: int| 0 <= i < j < ss.len() implies ss[i].0 != ss[j].0 by {
            if i == 0 {
                assert(ss.drop_first()[j - 1].0 == ss[j].0);
            } else {
                assert(ss.drop_first()[i - 1].0 == ss[i].0);
                assert(ss.drop_first()[j - 1].0 == ss[j].0);
            }
        }
    }
}

} // verus!
