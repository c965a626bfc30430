use vstd::prelude::*;

use crate::assoc::{
    assoc_view, find_key, has_unique_keys, keys_unique, lemma_assoc_at, lemma_assoc_remove,
};

verus! {

broadcast use vstd::string::group_string_axioms;

/// The generic capture of one markup element.
pub struct Extension {
    /// The tag name of the element, as read from its closing tag.
    pub name: String,
    /// The last run of text met directly inside the element, if any.
    pub value: Option<String>,
    /// The attributes of the element, one entry for each name.
    pub attrs: Vec<(String, String)>,
    /// The child elements by local tag name, one entry for each name; each list is in
    /// document order.
    pub children: Vec<(String, Vec<Extension>)>,
}

/// Extension trees by namespace prefix, then by local tag name.
pub type ExtensionMap = Vec<(String, Vec<(String, Vec<Extension>)>)>;

/// What an extension tree stands for.
pub ghost struct ExtensionModel {
    pub name: Seq<char>,
    pub value: Option<Seq<char>>,
    pub attrs: Map<Seq<char>, Seq<char>>,
    pub children: Map<Seq<char>, Seq<ExtensionModel>>,
}

/// What the index stands for: namespace, then local name, then the trees in order.
pub type IndexModel = Map<Seq<char>, Map<Seq<char>, Seq<ExtensionModel>>>;

pub open spec fn text_model(v: Option<String>) -> Option<Seq<char>> {
    match v {
        Some(s) => Some(s@),
        None => None,
    }
}

/// The attribute mapping that a list of attributes stands for: the last value given
/// to a name wins.
pub open spec fn attrs_model(s: Seq<(String, String)>) -> Map<Seq<char>, Seq<char>> {
    assoc_view(s).map_values(|v: String| v@)
}

pub open spec fn ext_model(e: Extension) -> ExtensionModel
    decreases e,
{
    ExtensionModel {
        name: e.name@,
        value: text_model(e.value),
        attrs: attrs_model(e.attrs@),
        children: children_model(e.children@),
    }
}

pub open spec fn children_model(s: Seq<(String, Vec<Extension>)>) -> Map<
    Seq<char>,
    Seq<ExtensionModel>,
>
    decreases s,
{
    if s.len() == 0 {
        Map::empty()
    } else {
        children_model(s.drop_last()).insert(s.last().0@, list_model(s.last().1@))
    }
}

pub open spec fn list_model(v: Seq<Extension>) -> Seq<ExtensionModel>
    decreases v,
{
    if v.len() == 0 {
        Seq::empty()
    } else {
        list_model(v.drop_last()).push(ext_model(v.last()))
    }
}

/// Every tree of the subtree has one attribute entry for each name and one child entry
/// for each local name.
pub open spec fn ext_wf(e: Extension) -> bool
    decreases e,
{
    &&& keys_unique(e.attrs@)
    &&& keys_unique(e.children@)
    &&& forall|i: int, j: int|
        0 <= i < e.children@.len() && 0 <= j < e.children@[i].1@.len() ==> ext_wf(
            #[trigger] e.children@[i].1@[j],
        )
}

/// Whether every tree of the subtree has one attribute entry for each name and one
/// child entry for each local name.
pub fn is_well_formed(e: &Extension) -> (r: bool)
    ensures
        r == ext_wf(*e),
    decreases e,
{
    if !has_unique_keys(&e.attrs) || !has_unique_keys(&e.children) {
        return false;
    }
    let mut a: usize = 0;
    while a < e.children.len()
        invariant
            a <= e.children@.len(),
            forall|i: int, j: int|
                0 <= i < a && 0 <= j < e.children@[i].1@.len() ==> ext_wf(
                    #[trigger] e.children@[i].1@[j],
                ),
        decreases e.children@.len() - a,
    {
        let list = &e.children[a].1;
        let mut b: usize = 0;
        while b < list.len()
            invariant
                a < e.children@.len(),
                list == e.children@[a as int].1,
                b <= list@.len(),
                forall|i: int, j: int|
                    0 <= i < a && 0 <= j < e.children@[i].1@.len() ==> ext_wf(
                        #[trigger] e.children@[i].1@[j],
                    ),
                forall|j: int| 0 <= j < b ==> ext_wf(#[trigger] list@[j]),
            decreases list@.len() - b,
        {
            proof {
                assert(decreases_to!(*e => e.children));
                assert(decreases_to!(e.children => e.children@));
                assert(decreases_to!(e.children@ => e.children@[a as int]));
                assert(decreases_to!(e.children@[a as int] => e.children@[a as int].1));
                assert(decreases_to!(list => list@));
                assert(decreases_to!(list@ => list@[b as int]));
            }
            if !is_well_formed(&list[b]) {
                return false;
            }
            b = b + 1;
        }
        a = a + 1;
    }
    true
}

pub proof fn lemma_children_model(s: Seq<(String, Vec<Extension>)>)
    ensures
        children_model(s) == assoc_view(s).map_values(|v: Vec<Extension>| list_model(v@)),
    decreases s.len(),
{
    if s.len() > 0 {
        lemma_children_model(s.drop_last());
        assert(children_model(s) =~= assoc_view(s).map_values(
            |v: Vec<Extension>| list_model(v@),
        ));
    }
}

pub proof fn lemma_list_model_push(v: Seq<Extension>, c: Extension)
    ensures
        list_model(v.push(c)) == list_model(v).push(ext_model(c)),
{
    assert(v.push(c).drop_last() =~= v);
}

pub proof fn lemma_list_model_one(e: Extension)
    ensures
        list_model(seq![e]) == seq![ext_model(e)],
{
    assert(seq![e].drop_last() =~= Seq::<Extension>::empty());
    assert(list_model(Seq::<Extension>::empty()) =~= Seq::<ExtensionModel>::empty());
    assert(list_model(seq![e]) == list_model(Seq::<Extension>::empty()).push(ext_model(e)));
    assert(Seq::<ExtensionModel>::empty().push(ext_model(e)) =~= seq![ext_model(e)]);
}

/// The values of the trees that have one, in order.
pub open spec fn values_of(v: Seq<Extension>) -> Seq<String>
    decreases v.len(),
{
    if v.len() == 0 {
        Seq::empty()
    } else {
        let rest = values_of(v.drop_last());
        match v.last().value {
            Some(s) => rest.push(s),
            None => rest,
        }
    }
}

/// The value of the first tree listed under `k`, if there is such a tree and it has
/// a value.
pub open spec fn first_value(m: Map<Seq<char>, Vec<Extension>>, k: Seq<char>) -> Option<String> {
    if m.contains_key(k) && m[k]@.len() > 0 {
        m[k]@[0].value
    } else {
        None
    }
}

/// The values of the trees that have one, in order; trees without a value are left
/// out.
pub fn get_extension_values(v: Vec<Extension>) -> (r: Vec<String>)
    ensures
        r@ == values_of(v@),
{
    let mut r: Vec<String> = Vec::new();
    let mut i: usize = 0;
    while i < v.len()
        invariant
            i <= v.len(),
            r@ == values_of(v@.take(i as int)),
        decreases v.len() - i,
    {
        proof {
            assert(v@.take(i + 1).drop_last() =~= v@.take(i as int));
        }
        match &v[i].value {
            Some(s) => r.push(s.clone()),
            None => {},
        }
        i = i + 1;
    }
    proof {
        assert(v@.take(i as int) =~= v@);
    }
    r
}

/// Removes the list held under `key` and gives the value of its first tree. Gives
/// nothing where `key` is absent, its list is empty, or its first tree has no value.
pub fn remove_extension_value(map: &mut Vec<(String, Vec<Extension>)>, key: &str) -> (r: Option<
    String,
>)
    requires
        keys_unique(old(map)@),
    ensures
        keys_unique(final(map)@),
        assoc_view(final(map)@) == assoc_view(old(map)@).remove(key@),
        r == first_value(assoc_view(old(map)@), key@),
{
    let k = key.to_string();
    match find_key(map, &k) {
        Some(i) => {
            proof {
                lemma_assoc_at(old(map)@, i as int);
                lemma_assoc_remove(old(map)@, i as int);
            }
            let (_, mut list) = map.remove(i);
            if list.len() > 0 {
                let first = list.remove(0);
                first.value
            } else {
                None
            }
        },
        None => {
            proof {
                crate::assoc::lemma_assoc_contains(map@, k@);
                assert(assoc_view(map@) =~= assoc_view(map@).remove(key@));
            }
            None
        },
    }
}

/// Taking the value of a name that is absent gives nothing and leaves the mapping as it
/// was; taking it from a list of one tree gives that tree's value and leaves the name
/// absent.
pub proof fn lemma_take_value(m: Map<Seq<char>, Vec<Extension>>, k: Seq<char>)
    ensures
        !m.contains_key(k) ==> first_value(m, k).is_none() && m.remove(k) == m,
        m.contains_key(k) && m[k]@.len() == 1 ==> first_value(m, k) == m[k]@[0].value
            && !m.remove(k).contains_key(k),
{
    if !m.contains_key(k) {
        assert(m.remove(k) =~= m);
    }
}

} // verus!
