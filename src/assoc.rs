use vstd::prelude::*;

verus! {

/// What a list of named entries stands for: each name maps to the value of its last
/// entry.
pub open spec fn assoc_view<V>(s: Seq<(String, V)>) -> Map<Seq<char>, V>
    decreases s.len(),
{
    if s.len() == 0 {
        Map::empty()
    } else {
        assoc_view(s.drop_last()).insert(s.last().0@, s.last().1)
    }
}

/// No two entries of the list carry the same name.
pub open spec fn keys_unique<V>(s: Seq<(String, V)>) -> bool {
    forall|i: int, j: int| 0 <= i < j < s.len() ==> s[i].0@ != s[j].0@
}

pub proof fn lemma_assoc_contains<V>(s: Seq<(String, V)>, k: Seq<char>)
    ensures
        assoc_view(s).contains_key(k) <==> exists|i: int| 0 <= i < s.len() && s[i].0@ == k,
    decreases s.len(),
{
    if s.len() > 0 {
        let d = s.drop_last();
        lemma_assoc_contains(d, k);
        if exists|i: int| 0 <= i < s.len() && s[i].0@ == k {
            let i = choose|i: int| 0 <= i < s.len() && s[i].0@ == k;
            if i < s.len() - 1 {
                assert(d[i] == s[i]);
            }
        }
        if exists|i: int| 0 <= i < d.len() && d[i].0@ == k {
            let i = choose|i: int| 0 <= i < d.len() && d[i].0@ == k;
            assert(s[i] == d[i]);
        }
    }
}

proof fn lemma_unique_drop_last<V>(s: Seq<(String, V)>)
    requires
        keys_unique(s),
        s.len() > 0,
    ensures
        keys_unique(s.drop_last()),
        !assoc_view(s.drop_last()).contains_key(s.last().0@),
{
    let d = s.drop_last();
    assert forall|i: int, j: int| 0 <= i < j < d.len() implies d[i].0@ != d[j].0@ by {
        assert(d[i] == s[i] && d[j] == s[j]);
    }
    lemma_assoc_contains(d, s.last().0@);
    if exists|i: int| 0 <= i < d.len() && d[i].0@ == s.last().0@ {
        let i = choose|i: int| 0 <= i < d.len() && d[i].0@ == s.last().0@;
        assert(d[i] == s[i]);
    }
}

pub proof fn lemma_assoc_at<V>(s: Seq<(String, V)>, i: int)
    requires
        keys_unique(s),
        0 <= i < s.len(),
    ensures
        assoc_view(s).contains_key(s[i].0@),
        assoc_view(s)[s[i].0@] == s[i].1,
    decreases s.len(),
{
    let d = s.drop_last();
    if i < s.len() - 1 {
        lemma_unique_drop_last(s);
        assert(d[i] == s[i]);
        lemma_assoc_at(d, i);
    }
}

pub proof fn lemma_assoc_update<V>(s: Seq<(String, V)>, i: int, v: V)
    requires
        keys_unique(s),
        0 <= i < s.len(),
    ensures
        keys_unique(s.update(i, (s[i].0, v))),
        assoc_view(s.update(i, (s[i].0, v))) == assoc_view(s).insert(s[i].0@, v),
    decreases s.len(),
{
    let t = s.update(i, (s[i].0, v));
    let d = s.drop_last();
    lemma_unique_drop_last(s);
    assert forall|a: int, b: int| 0 <= a < b < t.len() implies t[a].0@ != t[b].0@ by {
        assert(t[a].0 == s[a].0 && t[b].0 == s[b].0);
    }
    if i == s.len() - 1 {
        assert(t.drop_last() =~= d);
        assert(assoc_view(t) =~= assoc_view(s).insert(s[i].0@, v));
    } else {
        assert(d[i] == s[i]);
        lemma_assoc_update(d, i, v);
        assert(t.drop_last() =~= d.update(i, (s[i].0, v)));
        assert(s[i].0@ != s.last().0@);
        assert(assoc_view(t) =~= assoc_view(s).insert(s[i].0@, v));
    }
}

pub proof fn lemma_assoc_remove<V>(s: Seq<(String, V)>, i: int)
    requires
        keys_unique(s),
        0 <= i < s.len(),
    ensures
        keys_unique(s.remove(i)),
        assoc_view(s.remove(i)) == assoc_view(s).remove(s[i].0@),
    decreases s.len(),
{
    let t = s.remove(i);
    let d = s.drop_last();
    lemma_unique_drop_last(s);
    assert forall|a: int, b: int| 0 <= a < b < t.len() implies t[a].0@ != t[b].0@ by {
        let a2 = if a < i { a } else { a + 1 };
        let b2 = if b < i { b } else { b + 1 };
        assert(t[a] == s[a2] && t[b] == s[b2]);
    }
    if i == s.len() - 1 {
        assert(t =~= d);
        assert(assoc_view(t) =~= assoc_view(s).remove(s[i].0@));
    } else {
        assert(d[i] == s[i]);
        lemma_assoc_remove(d, i);
        assert(t.drop_last() =~= d.remove(i));
        assert(t.last() == s.last());
        assert(s[i].0@ != s.last().0@);
        assert(assoc_view(t) =~= assoc_view(s).remove(s[i].0@));
    }
}

pub proof fn lemma_assoc_push<V>(s: Seq<(String, V)>, k: String, v: V)
    requires
        keys_unique(s),
        !assoc_view(s).contains_key(k@),
    ensures
        keys_unique(s.push((k, v))),
        assoc_view(s.push((k, v))) == assoc_view(s).insert(k@, v),
{
    let t = s.push((k, v));
    lemma_assoc_contains(s, k@);
    assert(t.drop_last() =~= s);
    assert forall|a: int, b: int| 0 <= a < b < t.len() implies t[a].0@ != t[b].0@ by {
        assert(t[a] == s[a]);
        if b < s.len() {
            assert(t[b] == s[b]);
        }
    }
}

/// The position of the entry named `k`, if there is one.
pub fn find_key<V>(s: &Vec<(String, V)>, k: &String) -> (r: Option<usize>)
    ensures
        match r {
            Some(i) => i < s.len() && s@[i as int].0@ == k@,
            None => forall|i: int| 0 <= i < s.len() ==> s@[i].0@ != k@,
        },
{
    let mut i: usize = 0;
    while i < s.len()
        invariant
            i <= s.len(),
            forall|j: int| 0 <= j < i ==> s@[j].0@ != k@,
        decreases s.len() - i,
    {
        if s[i].0 == *k {
            return Some(i);
        }
        i = i + 1;
    }
    None
}

/// Whether no two entries of the list carry the same name.
pub fn has_unique_keys<V>(s: &Vec<(String, V)>) -> (r: bool)
    ensures
        r == keys_unique(s@),
{
    let mut j: usize = 0;
    while j < s.len()
        invariant
            j <= s.len(),
            forall|a: int, b: int| 0 <= a < b < j ==> s@[a].0@ != s@[b].0@,
        decreases s.len() - j,
    {
        let mut i: usize = 0;
        while i < j
            invariant
                i <= j < s.len(),
                forall|a: int| 0 <= a < i ==> s@[a].0@ != s@[j as int].0@,
            decreases j - i,
        {
            if s[i].0 == s[j].0 {
                return false;
            }
            i = i + 1;
        }
        j = j + 1;
    }
    true
}

/// Sets the entry named `k` to `v`, in place where one exists, else at the end.
pub fn assoc_set<V>(s: &mut Vec<(String, V)>, k: String, v: V)
    requires
        keys_unique(old(s)@),
    ensures
        keys_unique(final(s)@),
        assoc_view(final(s)@) == assoc_view(old(s)@).insert(k@, v),
{
    match find_key(s, &k) {
        Some(i) => {
            let old_entry = s.remove(i);
            proof {
                lemma_assoc_update(old(s)@, i as int, v);
            }
            s.insert(i, (old_entry.0, v));
            proof {
                assert(s@ =~= old(s)@.update(i as int, (old(s)@[i as int].0, v)));
            }
        },
        None => {
            proof {
                lemma_assoc_contains(s@, k@);
                lemma_assoc_push(s@, k, v);
            }
            s.push((k, v));
        },
    }
}

/// The list that `s` holds under `k` with `item` appended, or a list of `item` alone
/// where `s` holds nothing under `k`.
pub open spec fn appended<T>(m: Map<Seq<char>, Vec<T>>, k: Seq<char>, item: T) -> Seq<T> {
    if m.contains_key(k) {
        m[k]@.push(item)
    } else {
        seq![item]
    }
}

/// `x` is an element of one of the lists.
pub open spec fn listed<T>(s: Seq<(String, Vec<T>)>, x: T) -> bool {
    exists|a: int, b: int| 0 <= a < s.len() && 0 <= b < s[a].1@.len() && s[a].1@[b] == x
}

/// Appends `item` to the list held under `k`, starting that list where there is none.
pub fn assoc_append<T>(s: &mut Vec<(String, Vec<T>)>, k: String, item: T)
    requires
        keys_unique(old(s)@),
    ensures
        keys_unique(final(s)@),
        assoc_view(final(s)@).dom() == assoc_view(old(s)@).dom().insert(k@),
        assoc_view(final(s)@)[k@]@ == appended(assoc_view(old(s)@), k@, item),
        forall|j: Seq<char>|
            j != k@ && #[trigger] assoc_view(old(s)@).contains_key(j) ==> assoc_view(
                final(s)@,
            )[j] == assoc_view(old(s)@)[j],
        forall|x: T| #[trigger] listed(final(s)@, x) ==> x == item || listed(old(s)@, x),
{
    match find_key(s, &k) {
        Some(i) => {
            let mut entry = s.remove(i);
            proof {
                lemma_assoc_at(old(s)@, i as int);
            }
            entry.1.push(item);
            proof {
                lemma_assoc_update(old(s)@, i as int, entry.1);
            }
            s.insert(i, entry);
            proof {
                assert(s@ =~= old(s)@.update(i as int, (old(s)@[i as int].0, entry.1)));
                assert forall|x: T| #[trigger] listed(s@, x) implies x == item || listed(
                    old(s)@,
                    x,
                ) by {
                    let (a, b) = choose|a: int, b: int|
                        0 <= a < s@.len() && 0 <= b < s@[a].1@.len() && s@[a].1@[b] == x;
                    if a != i {
                        assert(s@[a] == old(s)@[a]);
                    } else if b < old(s)@[a].1@.len() {
                        assert(s@[a].1@[b] == old(s)@[a].1@[b]);
                    }
                }
            }
        },
        None => {
            let mut items: Vec<T> = Vec::new();
            items.push(item);
            proof {
                lemma_assoc_contains(s@, k@);
                lemma_assoc_push(s@, k, items);
                assert(items@ =~= seq![item]);
            }
            s.push((k, items));
            proof {
                assert forall|x: T| #[trigger] listed(s@, x) implies x == item || listed(
                    old(s)@,
                    x,
                ) by {
                    let (a, b) = choose|a: int, b: int|
                        0 <= a < s@.len() && 0 <= b < s@[a].1@.len() && s@[a].1@[b] == x;
                    if a < old(s)@.len() {
                        assert(s@[a] == old(s)@[a]);
                    }
                }
            }
        },
    }
}

} // verus!
