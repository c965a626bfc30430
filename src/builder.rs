use vstd::prelude::*;

use crate::assoc::{assoc_append, assoc_set, assoc_view, keys_unique, listed};
use crate::extension::{
    attrs_model, children_model, ext_model, ext_wf, lemma_children_model, lemma_list_model_one,
    lemma_list_model_push, Extension, ExtensionModel,
};

verus! {

/// One token of the markup stream, with its names and text already decoded.
pub enum XmlEvent {
    /// An opening tag: the element's local name and its attributes in document order.
    Start { local_name: String, attrs: Vec<(String, String)> },
    /// A run of text or character data.
    Text(String),
    /// A closing tag, with the element's full name.
    End(String),
    /// The end of the input.
    Eof,
    /// A token whose bytes could not be decoded as text.
    Malformed,
    /// Any other token (a comment, a processing instruction, ...).
    Other,
}

/// Why an element could not be captured.
#[derive(Debug, PartialEq, Eq, Structural)]
pub enum ParseError {
    /// The input ended before the element was closed.
    Eof,
    /// A name or a text inside the element was not valid text.
    Malformed,
}

/// A tree that has its attributes and nothing else yet.
pub open spec fn fresh_model(attrs: Seq<(String, String)>) -> ExtensionModel {
    ExtensionModel {
        name: Seq::empty(),
        value: None,
        attrs: attrs_model(attrs),
        children: Map::empty(),
    }
}

/// `m` with `t` appended to the list under `k`, that list started where there is none.
pub open spec fn append_tree(
    m: Map<Seq<char>, Seq<ExtensionModel>>,
    k: Seq<char>,
    t: ExtensionModel,
) -> Map<Seq<char>, Seq<ExtensionModel>> {
    if m.contains_key(k) {
        m.insert(k, m[k].push(t))
    } else {
        m.insert(k, seq![t])
    }
}

/// The tree that the events from `pos` on complete, `acc` being what was gathered so
/// far, together with the position just after the closing tag.
pub open spec fn parse_content(evs: Seq<XmlEvent>, pos: int, acc: ExtensionModel) -> Result<
    (ExtensionModel, int),
    ParseError,
>
    decreases evs.len() - pos,
{
    if pos < 0 || pos >= evs.len() {
        Err(ParseError::Eof)
    } else {
        match evs[pos] {
            XmlEvent::Start { local_name, attrs } => {
                match parse_content(evs, pos + 1, fresh_model(attrs@)) {
                    Ok((child, next)) => {
                        if pos < next <= evs.len() {
                            parse_content(
                                evs,
                                next,
                                ExtensionModel {
                                    children: append_tree(acc.children, local_name@, child),
                                    ..acc
                                },
                            )
                        } else {
                            Err(ParseError::Eof)
                        }
                    },
                    Err(e) => Err(e),
                }
            },
            XmlEvent::Text(t) => parse_content(
                evs,
                pos + 1,
                ExtensionModel { value: Some(t@), ..acc },
            ),
            XmlEvent::End(n) => Ok((ExtensionModel { name: n@, ..acc }, pos + 1)),
            XmlEvent::Eof => Err(ParseError::Eof),
            XmlEvent::Malformed => Err(ParseError::Malformed),
            XmlEvent::Other => parse_content(evs, pos + 1, acc),
        }
    }
}

/// The element whose content starts at `pos` and whose opening tag carried `attrs`.
pub open spec fn parse_element(evs: Seq<XmlEvent>, pos: int, attrs: Seq<(String, String)>) -> Result<
    (ExtensionModel, int),
    ParseError,
> {
    parse_content(evs, pos, fresh_model(attrs))
}

/// Reads one element's content from `events`, starting at `pos`, just after the opening
/// tag that carried `attrs`. Gives the tree and the position just after its closing
/// tag.
pub fn parse_extension_element(
    events: &Vec<XmlEvent>,
    pos: usize,
    attrs: &Vec<(String, String)>,
) -> (r: Result<(Extension, usize), ParseError>)
    ensures
        match (r, parse_element(events@, pos as int, attrs@)) {
            (Ok((e, n)), Ok((m, k))) => {
                &&& ext_model(e) == m
                &&& n == k
                &&& pos < n <= events.len()
                &&& ext_wf(e)
            },
            (Err(x), Err(y)) => x == y,
            _ => false,
        },
    decreases events.len() - pos,
{
    let mut ext = Extension {
        name: String::new(),
        value: None,
        attrs: Vec::new(),
        children: Vec::new(),
    };
    let mut j: usize = 0;
    while j < attrs.len()
        invariant
            j <= attrs.len(),
            keys_unique(ext.attrs@),
            assoc_view(ext.attrs@) == assoc_view(attrs@.take(j as int)),
            ext.name@ == Seq::<char>::empty(),
            ext.value.is_none(),
            ext.children@.len() == 0,
        decreases attrs.len() - j,
    {
        proof {
            assert(attrs@.take(j + 1).drop_last() =~= attrs@.take(j as int));
        }
        assoc_set(&mut ext.attrs, attrs[j].0.clone(), attrs[j].1.clone());
        j = j + 1;
    }
    proof {
        assert(attrs@.take(j as int) =~= attrs@);
        assert(children_model(ext.children@) =~= Map::empty());
        assert(ext_model(ext) == fresh_model(attrs@));
    }
    let mut i: usize = pos;
    loop
        invariant
            pos <= i,
            keys_unique(ext.attrs@),
            keys_unique(ext.children@),
            forall|a: int, b: int|
                0 <= a < ext.children@.len() && 0 <= b < ext.children@[a].1@.len() ==> ext_wf(
                    #[trigger] ext.children@[a].1@[b],
                ),
            parse_content(events@, i as int, ext_model(ext)) == parse_element(
                events@,
                pos as int,
                attrs@,
            ),
        decreases events.len() - i,
    {
        if i >= events.len() {
            return Err(ParseError::Eof);
        }
        match &events[i] {
            XmlEvent::Start { local_name, attrs: child_attrs } => {
                match parse_extension_element(events, i + 1, child_attrs) {
                    Ok((child, next)) => {
                        let ghost before = ext.children@;
                        proof {
                            lemma_children_model(before);
                        }
                        assoc_append(&mut ext.children, local_name.clone(), child);
                        proof {
                            assert forall|a: int, b: int|
                                0 <= a < ext.children@.len() && 0 <= b
                                    < ext.children@[a].1@.len() implies ext_wf(
                                #[trigger] ext.children@[a].1@[b],
                            ) by {
                                let x = ext.children@[a].1@[b];
                                assert(listed(ext.children@, x));
                                if x != child {
                                    let (a0, b0) = choose|a0: int, b0: int|
                                        0 <= a0 < before.len() && 0 <= b0 < before[a0].1@.len()
                                            && before[a0].1@[b0] == x;
                                }
                            }
                            let k = local_name@;
                            lemma_children_model(ext.children@);
                            if assoc_view(before).contains_key(k) {
                                lemma_list_model_push(assoc_view(before)[k]@, child);
                            } else {
                                lemma_list_model_one(child);
                            }
                            assert(children_model(ext.children@) =~= append_tree(
                                children_model(before),
                                k,
                                ext_model(child),
                            ));
                        }
                        i = next;
                    },
                    Err(e) => {
                        return Err(e);
                    },
                }
            },
            XmlEvent::Text(t) => {
                ext.value = Some(t.clone());
                i = i + 1;
            },
            XmlEvent::End(n) => {
                ext.name = n.clone();
                return Ok((ext, i + 1));
            },
            XmlEvent::Eof => {
                return Err(ParseError::Eof);
            },
            XmlEvent::Malformed => {
                return Err(ParseError::Malformed);
            },
            XmlEvent::Other => {
                i = i + 1;
            },
        }
    }
}

/// Of several runs of text directly inside an element, the last one is its value: the
/// runs are not joined.
pub proof fn lemma_last_text_wins(
    evs: Seq<XmlEvent>,
    pos: int,
    acc: ExtensionModel,
    first: String,
    second: String,
    name: String,
)
    requires
        0 <= pos,
        pos + 3 <= evs.len(),
        evs[pos] == XmlEvent::Text(first),
        evs[pos + 1] == XmlEvent::Text(second),
        evs[pos + 2] == XmlEvent::End(name),
    ensures
        parse_content(evs, pos, acc) == Ok::<(ExtensionModel, int), ParseError>(
            (ExtensionModel { name: name@, value: Some(second@), ..acc }, pos + 3),
        ),
{
    let a1 = ExtensionModel { value: Some(first@), ..acc };
    let a2 = ExtensionModel { value: Some(second@), ..a1 };
    assert(parse_content(evs, pos + 2, a2) == Ok::<(ExtensionModel, int), ParseError>(
        (ExtensionModel { name: name@, ..a2 }, pos + 3),
    ));
    assert(parse_content(evs, pos + 1, a1) == parse_content(evs, pos + 2, a2));
    assert(parse_content(evs, pos, acc) == parse_content(evs, pos + 1, a1));
}

/// Input that runs out, with no closing tag and nothing undecodable ahead, fails as
/// truncated, whatever was gathered so far.
pub proof fn lemma_truncated_input(evs: Seq<XmlEvent>, pos: int, acc: ExtensionModel)
    requires
        0 <= pos,
        forall|j: int|
            pos <= j < evs.len() ==> !(#[trigger] evs[j] is End) && !(evs[j] is Malformed),
    ensures
        parse_content(evs, pos, acc) == Err::<(ExtensionModel, int), ParseError>(ParseError::Eof),
    decreases evs.len() - pos,
{
    if pos < evs.len() {
        match evs[pos] {
            XmlEvent::Start { local_name, attrs } => {
                lemma_truncated_input(evs, pos + 1, fresh_model(attrs@));
            },
            XmlEvent::Text(t) => {
                lemma_truncated_input(evs, pos + 1, ExtensionModel { value: Some(t@), ..acc });
            },
            XmlEvent::Other => {
                lemma_truncated_input(evs, pos + 1, acc);
            },
            _ => {},
        }
    }
}

} // verus!
