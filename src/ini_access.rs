//! The configuration document and the few of its operations that the store uses.
//!
//! A document is read as its ordered list of sections: each section's name
//! (`None` for the general section) with the first value of each of its keys.
use vstd::prelude::*;
use ini::{Ini, Properties};

verus! {

#[verifier::external_type_specification]
#[verifier::external_body]
pub struct ExIni(Ini);

/// One section of a document: its name and its key/value pairs.
pub type Section = (Option<Seq<char>>, Map<Seq<char>, Seq<char>>);

/// The sections of a document, in the order in which they were first created.
pub uninterp spec fn ini_entries(ini: Ini) -> Seq<Section>;

/// Position of the first section named `s`, or -1.
pub open spec fn first_index(e: Seq<Section>, s: Option<Seq<char>>) -> int
    decreases e.len(),
{
    if e.len() == 0 {
        -1
    } else {
        let p = first_index(e.drop_last(), s);
        if p >= 0 {
            p
        } else if e.last().0 == s {
            e.len() - 1
        } else {
            -1
        }
    }
}

/// The pairs of the first section named `s` (none if there is no such section).
pub open spec fn props_of(e: Seq<Section>, s: Option<Seq<char>>) -> Map<Seq<char>, Seq<char>> {
    let p = first_index(e, s);
    if p >= 0 {
        e[p].1
    } else {
        Map::empty()
    }
}

/// `e` after setting `k` to `v` in the first section named `s`, which is
/// appended, empty, when there is none.
pub open spec fn set_in(e: Seq<Section>, s: Option<Seq<char>>, k: Seq<char>, v: Seq<char>) -> Seq<Section> {
    let p = first_index(e, s);
    if p >= 0 {
        e.update(p, (s, e[p].1.insert(k, v)))
    } else {
        e.push((s, Map::empty().insert(k, v)))
    }
}

/// `e` with the first section named `s`, if there is one, emptied in place.
pub open spec fn cleared(e: Seq<Section>, s: Option<Seq<char>>) -> Seq<Section> {
    let p = first_index(e, s);
    if p >= 0 {
        e.update(p, (s, Map::empty()))
    } else {
        e
    }
}

/// `e` without any section named `s`.
pub open spec fn without(e: Seq<Section>, s: Option<Seq<char>>) -> Seq<Section> {
    e.filter(not_named(s))
}

/// Holds of a section whose name is not `s`.
pub open spec fn not_named(s: Option<Seq<char>>) -> spec_fn(Section) -> bool {
    |x: Section| x.0 != s
}

pub open spec fn opt_view(o: Option<String>) -> Option<Seq<char>> {
    match o {
        Some(s) => Some(s@),
        None => None,
    }
}

/// `first_index` is the least position of a section named `s`, or -1 when there is none.
pub proof fn lemma_first_index(e: Seq<Section>, s: Option<Seq<char>>)
    ensures
        first_index(e, s) == -1 <==> forall|i: int| 0 <= i < e.len() ==> #[trigger] e[i].0 != s,
        first_index(e, s) >= 0 ==> {
            &&& first_index(e, s) < e.len()
            &&& e[first_index(e, s)].0 == s
            &&& forall|j: int| 0 <= j < first_index(e, s) ==> #[trigger] e[j].0 != s
        },
        first_index(e, s) >= -1,
    decreases e.len(),
{
    if e.len() > 0 {
        let d = e.drop_last();
        lemma_first_index(d, s);
        assert forall|i: int| 0 <= i < d.len() implies #[trigger] d[i] == e[i] by {}
        if first_index(d, s) == -1 && e.last().0 != s {
            assert forall|i: int| 0 <= i < e.len() implies #[trigger] e[i].0 != s by {
                if i < d.len() {
                    assert(d[i] == e[i]);
                }
            }
        }
        if first_index(d, s) >= 0 {
            let p = first_index(d, s);
            assert(d[p] == e[p]);
            assert forall|j: int| 0 <= j < p implies #[trigger] e[j].0 != s by {
                assert(d[j] == e[j]);
            }
        } else if e.last().0 == s {
            assert forall|j: int| 0 <= j < e.len() - 1 implies #[trigger] e[j].0 != s by {
                assert(d[j] == e[j]);
            }
        }
    }
}

/// Removing a name that no section has leaves the sections as they were.
pub proof fn lemma_without_absent(e: Seq<Section>, s: Option<Seq<char>>)
    requires
        forall|i: int| 0 <= i < e.len() ==> #[trigger] e[i].0 != s,
    ensures
        without(e, s) == e,
    decreases e.len(),
{
    reveal(Seq::filter);
    let pred = not_named(s);
    if e.len() > 0 {
        let d = e.drop_last();
        assert forall|i: int| 0 <= i < d.len() implies #[trigger] d[i].0 != s by {
            assert(d[i] == e[i]);
        }
        lemma_without_absent(d, s);
        assert(e.last().0 != s);
        assert(e.filter(pred) == d.filter(pred).push(e.last()));
        assert(d.push(e.last()) == e);
    }
}

/// Relies on `Ini::sections`: the names of the sections, in order.
#[verifier::external_body]
pub(crate) fn section_names(ini: &Ini) -> (r: Vec<Option<String>>)
    ensures
        r@.len() == ini_entries(*ini).len(),
        forall|i: int| 0 <= i < r@.len() ==> #[trigger] opt_view(r@[i]) == ini_entries(*ini)[i].0,
{
    ini.sections().map(|s| s.map(String::from)).collect()
}

/// Relies on `Ini::get_from`: the first value of `key` in the first section named `section`.
#[verifier::external_body]
pub(crate) fn value_of(ini: &Ini, section: &str, key: &str) -> (r: Option<String>)
    ensures
        opt_view(r) == (if props_of(ini_entries(*ini), Some(section@)).contains_key(key@) {
            Some(props_of(ini_entries(*ini), Some(section@))[key@])
        } else {
            None
        }),
{
    ini.get_from(Some(section), key).map(String::from)
}

/// Relies on `SectionSetter::set` (through `Ini::with_section`): replaces the
/// values of `key` in the first section named `section`, creating that section
/// at the end when there is none.
#[verifier::external_body]
pub(crate) fn set_value(ini: &mut Ini, section: &str, key: &str, value: String)
    ensures
        ini_entries(*final(ini)) == set_in(ini_entries(*old(ini)), Some(section@), key@, value@),
{
    ini.with_section(Some(section)).set(key, value);
}

/// Replacing the pairs of the first section named `s` keeps it the first.
pub proof fn lemma_first_index_update(e: Seq<Section>, s: Option<Seq<char>>, m: Map<Seq<char>, Seq<char>>)
    requires
        first_index(e, s) >= 0,
    ensures
        first_index(e.update(first_index(e, s), (s, m)), s) == first_index(e, s),
{
    let p = first_index(e, s);
    let u = e.update(p, (s, m));
    lemma_first_index(e, s);
    lemma_first_index(u, s);
    assert(u[p].0 == s);
    let q = first_index(u, s);
    if q < p {
        assert(u[q] == e[q]);
    }
}

/// Relies on `Ini::section_mut`: empties the first section named `section`
/// where it stands; nothing changes when there is none.
#[verifier::external_body]
pub(crate) fn clear_section(ini: &mut Ini, section: &str)
    ensures
        ini_entries(*final(ini)) == cleared(ini_entries(*old(ini)), Some(section@)),
{
    if let Some(p) = ini.section_mut(Some(section)) {
        *p = Properties::new();
    }
}

/// Relies on `Ini::delete`: removes every section named `section`, keeping the
/// order of the others.
#[verifier::external_body]
pub(crate) fn delete_section(ini: &mut Ini, section: &str)
    ensures
        ini_entries(*final(ini)) == without(ini_entries(*old(ini)), Some(section@)),
{
    ini.delete(Some(section));
}

} // verus!
