//! Names known to the parser: elements with their namespace, and attributes with the
//! scopes they apply in. Both are kept in prefix tries keyed by the name's bytes.
use vstd::prelude::*;
use qp_trie::wrapper::BString;
use qp_trie::Trie;
use crate::text::same_text;

verus! {

#[verifier::external_type_specification]
#[verifier::external_body]
#[verifier::reject_recursive_types(K)]
#[verifier::reject_recursive_types(V)]
pub struct ExTrie<K, V>(Trie<K, V>);

#[verifier::external_type_specification]
#[verifier::external_body]
pub struct ExBString(BString);

/// Attribute name to its entries.
pub type AttributeTrie = Trie<BString, Vec<AttributeEntry>>;

/// Element tag to its namespace.
pub type ElementTrie = Trie<BString, Option<&'static str>>;

/// Where an attribute may stand: on any element, or on one named element only.
#[derive(Clone, Copy, Debug, PartialEq, Eq)]
pub enum AttributeScope {
    Global,
    Specific(&'static str),
}

/// One way an attribute name may be used.
#[derive(Clone, Copy, Debug, PartialEq, Eq)]
pub struct AttributeEntry {
    pub scope: AttributeScope,
    pub name: &'static str,
    pub namespace: Option<&'static str>,
    pub mapped_to: Option<&'static str>,
}

/// What an attribute trie holds: each name's entries, in insertion order.
pub uninterp spec fn attribute_table(t: AttributeTrie) -> Map<Seq<char>, Seq<AttributeEntry>>;

/// What an element trie holds: each tag's namespace, if it has one.
pub uninterp spec fn element_table(t: ElementTrie) -> Map<Seq<char>, Option<&'static str>>;

/// Relies on qp_trie::Trie::new: a new trie holds no entry.
#[verifier::external_body]
fn new_attribute_trie() -> (r: AttributeTrie)
    ensures
        attribute_table(r).is_empty(),
{
    Trie::new()
}

/// Relies on qp_trie::Trie::new: a new trie holds no entry.
#[verifier::external_body]
fn new_element_trie() -> (r: ElementTrie)
    ensures
        element_table(r).is_empty(),
{
    Trie::new()
}

/// Relies on qp_trie::Trie::get_str: the value stored under the key, if any.
#[verifier::external_body]
fn attribute_get<'t>(t: &'t AttributeTrie, key: &str) -> (r: Option<&'t Vec<AttributeEntry>>)
    ensures
        match r {
            Some(v) => attribute_table(*t).contains_key(key@) && v@ == attribute_table(*t)[key@],
            None => !attribute_table(*t).contains_key(key@),
        },
{
    t.get_str(key)
}

/// Relies on qp_trie::Trie::remove_str: takes the value stored under the key out.
#[verifier::external_body]
fn attribute_remove(t: &mut AttributeTrie, key: &str) -> (r: Option<Vec<AttributeEntry>>)
    ensures
        attribute_table(*final(t)) == attribute_table(*old(t)).remove(key@),
        match r {
            Some(v) => attribute_table(*old(t)).contains_key(key@) && v@ == attribute_table(*old(t))[key@],
            None => !attribute_table(*old(t)).contains_key(key@),
        },
{
    t.remove_str(key)
}

/// Relies on qp_trie::Trie::insert_str: stores the value under the key, replacing any.
#[verifier::external_body]
fn attribute_insert(t: &mut AttributeTrie, key: &str, v: Vec<AttributeEntry>)
    ensures
        attribute_table(*final(t)) == attribute_table(*old(t)).insert(key@, v@),
{
    t.insert_str(key, v);
}

/// Relies on qp_trie::Trie::get_str: the value stored under the key, if any.
#[verifier::external_body]
fn element_get(t: &ElementTrie, key: &str) -> (r: Option<Option<&'static str>>)
    ensures
        match r {
            Some(ns) => element_table(*t).contains_key(key@) && ns == element_table(*t)[key@],
            None => !element_table(*t).contains_key(key@),
        },
{
    t.get_str(key).copied()
}

/// Relies on qp_trie::Trie::insert_str: stores the value under the key, replacing any.
#[verifier::external_body]
fn element_insert(t: &mut ElementTrie, key: &str, ns: Option<&'static str>)
    ensures
        element_table(*final(t)) == element_table(*old(t)).insert(key@, ns),
{
    t.insert_str(key, ns);
}

/// Whether an entry applies under the element `tag`.
pub open spec fn applies(e: AttributeEntry, tag: Seq<char>) -> bool {
    match e.scope {
        AttributeScope::Global => true,
        AttributeScope::Specific(t) => t@ == tag,
    }
}

/// The first of `es[i..]` that applies under `tag`.
pub open spec fn first_applicable(es: Seq<AttributeEntry>, tag: Seq<char>, i: int) -> Option<AttributeEntry>
    decreases es.len() - i,
{
    if i < 0 || i >= es.len() {
        None
    } else if applies(es[i], tag) {
        Some(es[i])
    } else {
        first_applicable(es, tag, i + 1)
    }
}

/// The entry that governs attribute `name` under element `tag`: the first, in
/// insertion order, whose scope admits `tag`.
pub open spec fn resolve_in(m: Map<Seq<char>, Seq<AttributeEntry>>, name: Seq<char>, tag: Seq<char>) -> Option<AttributeEntry> {
    if m.contains_key(name) {
        first_applicable(m[name], tag, 0)
    } else {
        None
    }
}

/// The element and attribute names that a source may use.
pub struct Directory {
    attributes: AttributeTrie,
    elements: ElementTrie,
}

impl Directory {
    /// Each attribute name's entries, in the order they were added.
    pub closed spec fn attribute_map(&self) -> Map<Seq<char>, Seq<AttributeEntry>> {
        attribute_table(self.attributes)
    }

    /// Each element tag's namespace.
    pub closed spec fn element_map(&self) -> Map<Seq<char>, Option<&'static str>> {
        element_table(self.elements)
    }

    /// Every listed attribute name has at least one entry, and each entry carries that name.
    pub open spec fn wf(&self) -> bool {
        forall|k: Seq<char>| #[trigger] self.attribute_map().contains_key(k) ==> {
            &&& self.attribute_map()[k].len() > 0
            &&& forall|j: int| 0 <= j < self.attribute_map()[k].len() ==> (#[trigger] self.attribute_map()[k][j]).name@ == k
        }
    }

    /// A directory that knows no name.
    pub fn new() -> (d: Directory)
        ensures
            d.wf(),
            d.attribute_map() == Map::<Seq<char>, Seq<AttributeEntry>>::empty(),
            d.element_map() == Map::<Seq<char>, Option<&'static str>>::empty(),
    {
        Directory { attributes: new_attribute_trie(), elements: new_element_trie() }
    }

    /// Adds an entry after those already listed under its name.
    pub fn add_attribute(&mut self, entry: AttributeEntry)
        requires
            old(self).wf(),
        ensures
            final(self).wf(),
            final(self).element_map() == old(self).element_map(),
            final(self).attribute_map() == old(self).attribute_map().insert(
                entry.name@,
                if old(self).attribute_map().contains_key(entry.name@) {
                    old(self).attribute_map()[entry.name@].push(entry)
                } else {
                    seq![entry]
                },
            ),
    {
        let ghost m = self.attribute_map();
        match attribute_remove(&mut self.attributes, entry.name) {
            Some(v) => {
                let mut v = v;
                v.push(entry);
                attribute_insert(&mut self.attributes, entry.name, v);
                proof {
                    assert(self.attribute_map() =~= m.insert(entry.name@, m[entry.name@].push(entry)));
                }
            },
            None => {
                let v = vec![entry];
                assert(v@ =~= seq![entry]);
                attribute_insert(&mut self.attributes, entry.name, v);
                proof {
                    assert(self.attribute_map() =~= m.insert(entry.name@, seq![entry]));
                }
            },
        }
        proof {
            assert(m.remove(entry.name@).insert(entry.name@, self.attribute_map()[entry.name@])
                =~= m.insert(entry.name@, self.attribute_map()[entry.name@]));
            assert forall|k: Seq<char>| #[trigger] self.attribute_map().contains_key(k) implies {
                &&& self.attribute_map()[k].len() > 0
                &&& forall|j: int| 0 <= j < self.attribute_map()[k].len() ==> (#[trigger] self.attribute_map()[k][j]).name@ == k
            } by {
                if k != entry.name@ {
                    assert(m.contains_key(k));
                }
            }
        }
    }

    /// Registers an element tag with its namespace, replacing an earlier registration.
    pub fn add_element(&mut self, tag: &'static str, namespace: Option<&'static str>)
        requires
            old(self).wf(),
        ensures
            final(self).wf(),
            final(self).attribute_map() == old(self).attribute_map(),
            final(self).element_map() == old(self).element_map().insert(tag@, namespace),
    {
        element_insert(&mut self.elements, tag, namespace);
    }

    /// The namespace of a known element (`Some(None)` where it has none), or `None`
    /// for a tag that is not registered.
    pub fn element_namespace(&self, tag: &str) -> (r: Option<Option<&'static str>>)
        ensures
            r == (if self.element_map().contains_key(tag@) {
                Some(self.element_map()[tag@])
            } else {
                None
            }),
    {
        element_get(&self.elements, tag)
    }

    /// Whether the element tag is registered.
    pub fn has_element(&self, tag: &str) -> (r: bool)
        ensures
            r == self.element_map().contains_key(tag@),
    {
        element_get(&self.elements, tag).is_some()
    }

    /// Whether any entry, in any scope, carries this attribute name.
    pub fn has_attribute(&self, name: &str) -> (r: bool)
        ensures
            r == self.attribute_map().contains_key(name@),
    {
        attribute_get(&self.attributes, name).is_some()
    }

    /// All entries listed under an attribute name, in insertion order.
    pub fn attribute_entries(&self, name: &str) -> (r: Option<&Vec<AttributeEntry>>)
        ensures
            match r {
                Some(v) => self.attribute_map().contains_key(name@) && v@ == self.attribute_map()[name@],
                None => !self.attribute_map().contains_key(name@),
            },
    {
        attribute_get(&self.attributes, name)
    }

    /// The entry that governs attribute `name` on element `tag`: the first listed
    /// whose scope is global or names `tag`; `None` where no entry applies.
    pub fn resolve(&self, name: &str, tag: &str) -> (r: Option<AttributeEntry>)
        ensures
            r == resolve_in(self.attribute_map(), name@, tag@),
    {
        match attribute_get(&self.attributes, name) {
            None => None,
            Some(es) => {
                let mut i: usize = 0;
                while i < es.len()
                    invariant
                        i <= es.len(),
                        self.attribute_map().contains_key(name@),
                        es@ == self.attribute_map()[name@],
                        first_applicable(es@, tag@, 0) == first_applicable(es@, tag@, i as int),
                    decreases es.len() - i,
                {
                    let e = es[i];
                    let ok = match e.scope {
                        AttributeScope::Global => true,
                        AttributeScope::Specific(t) => same_text(t, tag),
                    };
                    if ok {
                        return Some(e);
                    }
                    i = i + 1;
                }
                None
            },
        }
    }
}

/// Scope resolution picks by tag: where the only entries of a name are one for `div`
/// and then one for `span`, the name resolves to the first under `div`, to the second
/// under `span`, and to nothing under any other tag.
pub proof fn lemma_scope_resolution(
    d: &Directory,
    name: Seq<char>,
    x: AttributeEntry,
    y: AttributeEntry,
    other: Seq<char>,
)
    requires
        d.attribute_map().contains_key(name),
        d.attribute_map()[name] == seq![x, y],
        x.scope matches AttributeScope::Specific(t) && t@ == seq!['d', 'i', 'v'],
        y.scope matches AttributeScope::Specific(t) && t@ == seq!['s', 'p', 'a', 'n'],
        other != seq!['d', 'i', 'v'],
        other != seq!['s', 'p', 'a', 'n'],
    ensures
        resolve_in(d.attribute_map(), name, seq!['d', 'i', 'v']) == Some(x),
        resolve_in(d.attribute_map(), name, seq!['s', 'p', 'a', 'n']) == Some(y),
        resolve_in(d.attribute_map(), name, other) is None,
{
    let es = d.attribute_map()[name];
    assert(seq!['s', 'p', 'a', 'n'] != seq!['d', 'i', 'v']) by {
        assert(seq!['s', 'p', 'a', 'n'].len() != seq!['d', 'i', 'v'].len());
    }
    reveal_with_fuel(first_applicable, 3);
}

} // verus!
