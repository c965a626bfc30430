use vstd::prelude::*;
use vstd::slice::slice_subrange;

verus! {

/// The byte that separates a namespace prefix from a local name.
pub const COLON: u8 = 58;

/// `i` is the position of the first colon in `n`.
pub open spec fn first_colon_at(n: Seq<u8>, i: int) -> bool {
    &&& 0 <= i < n.len()
    &&& n[i] == COLON
    &&& forall|j: int| 0 <= j < i ==> n[j] != COLON
}

/// The split of a qualified tag name: `Some((prefix, local))` when the name holds a
/// colon and the part before the first colon is not empty; the local name is all that
/// follows the first colon, further colons included.
pub open spec fn split_qualified_name(n: Seq<u8>) -> Option<(Seq<u8>, Seq<u8>)> {
    if exists|i: int| first_colon_at(n, i) {
        let i = choose|i: int| first_colon_at(n, i);
        if i > 0 {
            Some((n.take(i), n.skip(i + 1)))
        } else {
            None
        }
    } else {
        None
    }
}

proof fn lemma_first_colon_unique(n: Seq<u8>, i: int, k: int)
    requires
        first_colon_at(n, i),
        first_colon_at(n, k),
    ensures
        i == k,
{
    if i < k {
        assert(n[i] != COLON);
    } else if k < i {
        assert(n[k] != COLON);
    }
}

/// A name without a colon, or whose first byte is a colon, has no namespace prefix.
pub proof fn lemma_unprefixed_names(n: Seq<u8>)
    requires
        (forall|i: int| 0 <= i < n.len() ==> n[i] != COLON) || (n.len() > 0 && n[0] == COLON),
    ensures
        split_qualified_name(n).is_none(),
{
    if exists|i: int| first_colon_at(n, i) {
        let c = choose|i: int| first_colon_at(n, i);
        assert(n[c] == COLON);
        assert(first_colon_at(n, 0));
        lemma_first_colon_unique(n, 0, c);
    }
}

/// A name `p:l` whose prefix `p` is not empty splits into `p` and `l`, whatever colons
/// `l` holds.
pub proof fn lemma_prefixed_names(p: Seq<u8>, l: Seq<u8>)
    requires
        p.len() > 0,
        forall|i: int| 0 <= i < p.len() ==> p[i] != COLON,
    ensures
        split_qualified_name(p + seq![COLON] + l) == Some((p, l)),
{
    let n = p + seq![COLON] + l;
    let k = p.len() as int;
    assert forall|j: int| 0 <= j < k implies n[j] != COLON by {
        assert(n[j] == p[j]);
    }
    assert(n[k] == COLON);
    assert(first_colon_at(n, k));
    let c = choose|i: int| first_colon_at(n, i);
    lemma_first_colon_unique(n, k, c);
    assert(n.take(k) =~= p);
    assert(n.skip(k + 1) =~= l);
}

/// Splits a tag name into its namespace prefix and its local name, when it has a
/// non-empty prefix.
pub fn extension_name(element_name: &[u8]) -> (r: Option<(&[u8], &[u8])>)
    ensures
        match (r, split_qualified_name(element_name@)) {
            (Some((ns, name)), Some((p, l))) => ns@ == p && name@ == l,
            (None, None) => true,
            _ => false,
        },
{
    let n = element_name.len();
    let mut i: usize = 0;
    while i < n
        invariant
            i <= n,
            n == element_name@.len(),
            forall|j: int| 0 <= j < i ==> element_name@[j] != COLON,
        decreases n - i,
    {
        if element_name[i] == COLON {
            proof {
                assert(first_colon_at(element_name@, i as int));
                let c = choose|c: int| first_colon_at(element_name@, c);
                lemma_first_colon_unique(element_name@, i as int, c);
            }
            if i == 0 {
                return None;
            }
            let ns = slice_subrange(element_name, 0, i);
            let name = slice_subrange(element_name, i + 1, n);
            proof {
                assert(ns@ == element_name@.take(i as int));
                assert(name@ == element_name@.skip(i + 1));
            }
            return Some((ns, name));
        }
        i = i + 1;
    }
    proof {
        assert(!exists|c: int| first_colon_at(element_name@, c));
    }
    None
}

} // verus!
