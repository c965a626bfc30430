use vstd::prelude::*;

use crate::assoc::{
    assoc_append, assoc_view, find_key, has_unique_keys, keys_unique, lemma_assoc_at,
    lemma_assoc_contains, lemma_assoc_push, lemma_assoc_update, listed,
};
use crate::builder::{append_tree, parse_element, parse_extension_element, ParseError, XmlEvent};
use crate::extension::{
    children_model, ext_model, ext_wf, is_well_formed, lemma_children_model,
    lemma_list_model_one, lemma_list_model_push, Extension, ExtensionMap, ExtensionModel,
    IndexModel,
};

verus! {

/// The text that a byte string holds as UTF-8, or `None` where it is not valid UTF-8.
pub uninterp spec fn utf8_text(b: Seq<u8>) -> Option<Seq<char>>;

/// Relies on `std::str::from_utf8`: the decoded text of valid UTF-8 input, an error on
/// any other input; which of the two depends on the bytes alone.
#[verifier::external_body]
fn decode_utf8(b: &[u8]) -> (r: Option<String>)
    ensures
        match r {
            Some(s) => utf8_text(b@) == Some(s@),
            None => utf8_text(b@).is_none(),
        },
{
    std::str::from_utf8(b).ok().map(|s| s.to_string())
}

/// What an index stands for.
pub open spec fn index_model(x: Seq<(String, Vec<(String, Vec<Extension>)>)>) -> IndexModel {
    assoc_view(x).map_values(|inner: Vec<(String, Vec<Extension>)>| children_model(inner@))
}

/// One entry for each namespace, within each namespace one entry for each local name,
/// and every tree well formed.
pub open spec fn index_wf(x: Seq<(String, Vec<(String, Vec<Extension>)>)>) -> bool {
    &&& keys_unique(x)
    &&& forall|i: int| 0 <= i < x.len() ==> keys_unique(#[trigger] x[i].1@)
    &&& forall|i: int, j: int, k: int|
        0 <= i < x.len() && 0 <= j < x[i].1@.len() && 0 <= k < x[i].1@[j].1@.len() ==> ext_wf(
            #[trigger] x[i].1@[j].1@[k],
        )
}

/// Whether the index has one entry for each namespace, one entry for each local name
/// within each namespace, and only well-formed trees.
pub fn index_is_well_formed(x: &ExtensionMap) -> (r: bool)
    ensures
        r == index_wf(x@),
{
    if !has_unique_keys(x) {
        return false;
    }
    let mut i: usize = 0;
    while i < x.len()
        invariant
            i <= x.len(),
            forall|a: int| 0 <= a < i ==> keys_unique(#[trigger] x@[a].1@),
            forall|a: int, b: int, c: int|
                0 <= a < i && 0 <= b < x@[a].1@.len() && 0 <= c < x@[a].1@[b].1@.len() ==> ext_wf(
                    #[trigger] x@[a].1@[b].1@[c],
                ),
        decreases x.len() - i,
    {
        let inner = &x[i].1;
        if !has_unique_keys(inner) {
            return false;
        }
        let mut j: usize = 0;
        while j < inner.len()
            invariant
                i < x.len(),
                inner == x@[i as int].1,
                j <= inner@.len(),
                forall|a: int, b: int, c: int|
                    0 <= a < i && 0 <= b < x@[a].1@.len() && 0 <= c < x@[a].1@[b].1@.len()
                        ==> ext_wf(#[trigger] x@[a].1@[b].1@[c]),
                forall|b: int, c: int|
                    0 <= b < j && 0 <= c < inner@[b].1@.len() ==> ext_wf(
                        #[trigger] inner@[b].1@[c],
                    ),
            decreases inner@.len() - j,
        {
            let list = &inner[j].1;
            let mut k: usize = 0;
            while k < list.len()
                invariant
                    i < x.len(),
                    inner == x@[i as int].1,
                    j < inner@.len(),
                    list == inner@[j as int].1,
                    k <= list@.len(),
                    forall|a: int, b: int, c: int|
                        0 <= a < i && 0 <= b < x@[a].1@.len() && 0 <= c < x@[a].1@[b].1@.len()
                            ==> ext_wf(#[trigger] x@[a].1@[b].1@[c]),
                    forall|b: int, c: int|
                        0 <= b < j && 0 <= c < inner@[b].1@.len() ==> ext_wf(
                            #[trigger] inner@[b].1@[c],
                        ),
                    forall|c: int| 0 <= c < k ==> ext_wf(#[trigger] list@[c]),
                decreases list@.len() - k,
            {
                if !is_well_formed(&list[k]) {
                    return false;
                }
                k = k + 1;
            }
            j = j + 1;
        }
        i = i + 1;
    }
    true
}

/// The index after tree `t` was met as element `name` of namespace `ns`. Under a
/// namespace already present, `t` is appended to the list for `name`. A namespace not
/// present yet gets an empty entry, and `t` itself is not kept: existing consumers rely
/// on the first element of a namespace being left out.
pub open spec fn index_insert(m: IndexModel, ns: Seq<char>, name: Seq<char>, t: ExtensionModel) -> IndexModel {
    if m.contains_key(ns) {
        m.insert(ns, append_tree(m[ns], name, t))
    } else {
        m.insert(ns, Map::empty())
    }
}

/// Files `ext` in the index as element `name` of namespace `ns` (see `index_insert`).
pub fn index_extension(extensions: &mut ExtensionMap, ns: String, name: String, ext: Extension)
    requires
        index_wf(old(extensions)@),
        ext_wf(ext),
    ensures
        index_wf(final(extensions)@),
        index_model(final(extensions)@) == index_insert(
            index_model(old(extensions)@),
            ns@,
            name@,
            ext_model(ext),
        ),
{
    let ghost m0 = index_model(extensions@);
    match find_key(extensions, &ns) {
        Some(i) => {
            proof {
                lemma_assoc_at(old(extensions)@, i as int);
            }
            let (key, mut inner) = extensions.remove(i);
            let ghost before = inner@;
            proof {
                lemma_children_model(before);
            }
            assoc_append(&mut inner, name, ext);
            proof {
                let k = name@;
                lemma_children_model(inner@);
                if assoc_view(before).contains_key(k) {
                    lemma_list_model_push(assoc_view(before)[k]@, ext);
                } else {
                    lemma_list_model_one(ext);
                }
                assert(children_model(inner@) =~= append_tree(children_model(before), k, ext_model(ext)));
                lemma_assoc_update(old(extensions)@, i as int, inner);
                let upd = old(extensions)@.update(i as int, (key, inner));
                assert forall|j: int| 0 <= j < upd.len() implies keys_unique(#[trigger] upd[j].1@) by {
                    if j != i {
                        assert(upd[j] == old(extensions)@[j]);
                    }
                }
                assert forall|a: int, b: int, c: int|
                    0 <= a < upd.len() && 0 <= b < upd[a].1@.len() && 0 <= c < upd[a].1@[b].1@.len()
                        implies ext_wf(#[trigger] upd[a].1@[b].1@[c]) by {
                    let t = upd[a].1@[b].1@[c];
                    if a != i {
                        assert(upd[a] == old(extensions)@[a]);
                    } else {
                        assert(listed(inner@, t));
                        if t != ext {
                            let (b0, c0) = choose|b0: int, c0: int|
                                0 <= b0 < before.len() && 0 <= c0 < before[b0].1@.len()
                                    && before[b0].1@[c0] == t;
                            assert(before == old(extensions)@[a].1@);
                        }
                    }
                }
            }
            extensions.insert(i, (key, inner));
            proof {
                assert(extensions@ =~= old(extensions)@.update(i as int, (key, inner)));
                assert(index_model(extensions@) =~= index_insert(m0, ns@, name@, ext_model(ext)));
            }
        },
        None => {
            let inner: Vec<(String, Vec<Extension>)> = Vec::new();
            proof {
                lemma_assoc_contains(extensions@, ns@);
                lemma_assoc_push(extensions@, ns, inner);
                assert(children_model(inner@) =~= Map::empty());
            }
            extensions.push((ns, inner));
            proof {
                assert forall|j: int| 0 <= j < extensions@.len() implies keys_unique(
                    #[trigger] extensions@[j].1@,
                ) by {
                    if j < old(extensions)@.len() {
                        assert(extensions@[j] == old(extensions)@[j]);
                    }
                }
                assert forall|a: int, b: int, c: int|
                    0 <= a < extensions@.len() && 0 <= b < extensions@[a].1@.len() && 0 <= c
                        < extensions@[a].1@[b].1@.len() implies ext_wf(
                    #[trigger] extensions@[a].1@[b].1@[c],
                ) by {
                    assert(extensions@[a] == old(extensions)@[a]);
                }
                assert(index_model(extensions@) =~= index_insert(m0, ns@, name@, ext_model(ext)));
            }
        },
    }
}

/// Decodes the namespace `ns` and the local name `name`, reads the element whose
/// content starts at `pos` in `events`, and files the tree in the index as
/// `index_insert` says: the first element met under a namespace not present yet only
/// opens that namespace's entry. Gives the position just after the element's closing
/// tag. Names that are not valid UTF-8 fail the call before any token is read.
pub fn parse_extension(
    events: &Vec<XmlEvent>,
    pos: usize,
    attrs: &Vec<(String, String)>,
    ns: &[u8],
    name: &[u8],
    extensions: &mut ExtensionMap,
) -> (r: Result<usize, ParseError>)
    requires
        index_wf(old(extensions)@),
    ensures
        index_wf(final(extensions)@),
        match (utf8_text(ns@), utf8_text(name@)) {
            (Some(n), Some(l)) => match parse_element(events@, pos as int, attrs@) {
                Ok((t, k)) => r == Ok::<usize, ParseError>(k as usize) && index_model(
                    final(extensions)@,
                ) == index_insert(index_model(old(extensions)@), n, l, t),
                Err(e) => r == Err::<usize, ParseError>(e) && final(extensions)@ == old(
                    extensions,
                )@,
            },
            _ => r == Err::<usize, ParseError>(ParseError::Malformed) && final(extensions)@ == old(
                extensions,
            )@,
        },
{
    let ns = match decode_utf8(ns) {
        Some(s) => s,
        None => {
            return Err(ParseError::Malformed);
        },
    };
    let name = match decode_utf8(name) {
        Some(s) => s,
        None => {
            return Err(ParseError::Malformed);
        },
    };
    match parse_extension_element(events, pos, attrs) {
        Ok((ext, next)) => {
            index_extension(extensions, ns, name, ext);
            Ok(next)
        },
        Err(e) => Err(e),
    }
}

/// Two trees filed in turn under the same name of a namespace already present are
/// appended to that name's list, in the order they were filed.
pub proof fn lemma_appends_in_order(
    m: IndexModel,
    ns: Seq<char>,
    name: Seq<char>,
    t1: ExtensionModel,
    t2: ExtensionModel,
)
    requires
        m.contains_key(ns),
    ensures
        index_insert(index_insert(m, ns, name, t1), ns, name, t2)[ns][name] == (if m[ns].contains_key(
            name,
        ) {
            m[ns][name]
        } else {
            Seq::empty()
        }).push(t1).push(t2),
{
    if !m[ns].contains_key(name) {
        assert(seq![t1] =~= Seq::<ExtensionModel>::empty().push(t1));
    }
}

/// The first tree met under a namespace not present yet leaves an empty entry for that
/// namespace, and the rest of the index as it was.
pub proof fn lemma_new_namespace_left_empty(
    m: IndexModel,
    ns: Seq<char>,
    name: Seq<char>,
    t: ExtensionModel,
)
    requires
        !m.contains_key(ns),
    ensures
        index_insert(m, ns, name, t) == m.insert(ns, Map::empty()),
        index_insert(m, ns, name, t)[ns].is_empty(),
{
    assert(index_insert(m, ns, name, t)[ns] =~= Map::<Seq<char>, Seq<ExtensionModel>>::empty());
}

} // verus!
