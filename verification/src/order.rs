//! The order of packages: by name, then by version, each as text.

use crate::package::{lemma_views_index, views, Package, PackageView};
use vstd::prelude::*;
use vstd::multiset::Multiset;
use vstd::relations::{sorted_by, total_ordering};
use vstd::seq_lib::{to_multiset_build, to_multiset_insert};
use vstd::utf8::{encode_utf8, encode_utf8_decode_utf8};

verus! {

/// A name with a version: what the order of packages looks at.
pub type Key = (Seq<char>, Seq<char>);

/// The byte strings `a` and `b`, read from index `i` on, are in dictionary
/// order: `a` runs out first, or the first byte that differs is smaller in `a`.
pub open spec fn bytes_le_from(a: Seq<u8>, b: Seq<u8>, i: int) -> bool
    decreases a.len() - i,
{
    if i >= a.len() {
        true
    } else if i >= b.len() {
        false
    } else if a[i] != b[i] {
        a[i] < b[i]
    } else {
        bytes_le_from(a, b, i + 1)
    }
}

/// The order of texts: the dictionary order of their UTF-8 bytes.
pub open spec fn text_le(a: Seq<char>, b: Seq<char>) -> bool {
    bytes_le_from(encode_utf8(a), encode_utf8(b), 0)
}

/// The order of keys: by name; where the names are equal, by version.
pub open spec fn key_le(a: Key, b: Key) -> bool {
    if a.0 == b.0 {
        text_le(a.1, b.1)
    } else {
        text_le(a.0, b.0)
    }
}

/// `key_le` as a relation.
pub open spec fn key_order() -> spec_fn(Key, Key) -> bool {
    |a: Key, b: Key| key_le(a, b)
}

/// The key of a package.
pub open spec fn key_of(p: PackageView) -> Key {
    (p.name, p.version)
}

/// The keys of a sequence of packages.
pub open spec fn keys_of(forest: Seq<PackageView>) -> Seq<Key> {
    Seq::new(forest.len(), |i: int| key_of(forest[i]))
}

/// No name stands twice among the keys.
pub open spec fn unique_names(keys: Seq<Key>) -> bool {
    forall|i: int, j: int| 0 <= i < j < keys.len() ==> keys[i].0 != keys[j].0
}

/// The order of packages: that of their keys.
pub open spec fn package_le(a: PackageView, b: PackageView) -> bool {
    key_le(key_of(a), key_of(b))
}

/// The packages stand in order: none comes before one that it follows.
pub open spec fn is_sorted(forest: Seq<PackageView>) -> bool {
    forall|i: int, j: int| 0 <= i < j < forest.len() ==> package_le(forest[i], forest[j])
}

proof fn lemma_bytes_le_refl(a: Seq<u8>, i: int)
    requires
        0 <= i,
    ensures
        bytes_le_from(a, a, i),
    decreases a.len() - i,
{
    if i < a.len() {
        lemma_bytes_le_refl(a, i + 1);
    }
}

proof fn lemma_bytes_le_total(a: Seq<u8>, b: Seq<u8>, i: int)
    requires
        0 <= i,
    ensures
        bytes_le_from(a, b, i) || bytes_le_from(b, a, i),
    decreases a.len() - i,
{
    if i < a.len() && i < b.len() && a[i] == b[i] {
        lemma_bytes_le_total(a, b, i + 1);
    }
}

proof fn lemma_bytes_le_trans(a: Seq<u8>, b: Seq<u8>, c: Seq<u8>, i: int)
    requires
        0 <= i,
        bytes_le_from(a, b, i),
        bytes_le_from(b, c, i),
    ensures
        bytes_le_from(a, c, i),
    decreases a.len() - i,
{
    if i < a.len() && i < b.len() && i < c.len() && a[i] == b[i] && b[i] == c[i] {
        lemma_bytes_le_trans(a, b, c, i + 1);
    }
}

proof fn lemma_bytes_le_antisym(a: Seq<u8>, b: Seq<u8>, i: int)
    requires
        0 <= i <= a.len(),
        i <= b.len(),
        forall|j: int| 0 <= j < i ==> a[j] == b[j],
        bytes_le_from(a, b, i),
        bytes_le_from(b, a, i),
    ensures
        a == b,
    decreases a.len() - i,
{
    if i < a.len() {
        lemma_bytes_le_antisym(a, b, i + 1);
    } else {
        assert(a =~= b);
    }
}

/// Every text is in order with itself.
pub proof fn lemma_text_le_refl(a: Seq<char>)
    ensures
        text_le(a, a),
{
    lemma_bytes_le_refl(encode_utf8(a), 0);
}

/// Of two texts, one is in order with the other.
pub proof fn lemma_text_le_total(a: Seq<char>, b: Seq<char>)
    ensures
        text_le(a, b) || text_le(b, a),
{
    lemma_bytes_le_total(encode_utf8(a), encode_utf8(b), 0);
}

/// The order of texts goes on from text to text.
pub proof fn lemma_text_le_trans(a: Seq<char>, b: Seq<char>, c: Seq<char>)
    requires
        text_le(a, b),
        text_le(b, c),
    ensures
        text_le(a, c),
{
    lemma_bytes_le_trans(encode_utf8(a), encode_utf8(b), encode_utf8(c), 0);
}

/// Two texts that are in order both ways are the same text.
pub proof fn lemma_text_le_antisym(a: Seq<char>, b: Seq<char>)
    requires
        text_le(a, b),
        text_le(b, a),
    ensures
        a == b,
{
    lemma_bytes_le_antisym(encode_utf8(a), encode_utf8(b), 0);
    encode_utf8_decode_utf8(a);
    encode_utf8_decode_utf8(b);
}

/// Every key is in order with itself.
pub proof fn lemma_key_le_refl(a: Key)
    ensures
        key_le(a, a),
{
    lemma_text_le_refl(a.1);
}

/// Of two keys, one is in order with the other.
pub proof fn lemma_key_le_total(a: Key, b: Key)
    ensures
        key_le(a, b) || key_le(b, a),
{
    lemma_text_le_total(a.0, b.0);
    lemma_text_le_total(a.1, b.1);
}

/// The order of keys goes on from key to key.
pub proof fn lemma_key_le_trans(a: Key, b: Key, c: Key)
    requires
        key_le(a, b),
        key_le(b, c),
    ensures
        key_le(a, c),
{
    if a.0 == b.0 && b.0 == c.0 {
        lemma_text_le_trans(a.1, b.1, c.1);
    } else if a.0 == b.0 {
    } else if b.0 == c.0 {
    } else {
        lemma_text_le_trans(a.0, b.0, c.0);
        if a.0 == c.0 {
            lemma_text_le_antisym(a.0, b.0);
        }
    }
}

/// Two keys that are in order both ways are the same key.
pub proof fn lemma_key_le_antisym(a: Key, b: Key)
    requires
        key_le(a, b),
        key_le(b, a),
    ensures
        a == b,
{
    if a.0 == b.0 {
        lemma_text_le_antisym(a.1, b.1);
    } else {
        lemma_text_le_antisym(a.0, b.0);
    }
}

/// The order of keys is a total order.
pub proof fn lemma_key_order_total()
    ensures
        total_ordering(key_order()),
{
    let r = key_order();
    assert forall|a: Key| #[trigger] r(a, a) by {
        lemma_key_le_refl(a);
    }
    assert forall|a: Key, b: Key| #[trigger] r(a, b) && #[trigger] r(b, a) implies a == b by {
        lemma_key_le_antisym(a, b);
    }
    assert forall|a: Key, b: Key, c: Key| #[trigger] r(a, b) && #[trigger] r(b, c) implies r(
        a,
        c,
    ) by {
        lemma_key_le_trans(a, b, c);
    }
    assert forall|a: Key, b: Key| #[trigger] r(a, b) || #[trigger] r(b, a) by {
        lemma_key_le_total(a, b);
    }
}

/// Keys among which no name stands twice stay so in any other order.
pub proof fn lemma_unique_names_permuted(a: Seq<Key>, b: Seq<Key>)
    requires
        unique_names(a),
        a.to_multiset() == b.to_multiset(),
    ensures
        unique_names(b),
{
    broadcast use vstd::seq_lib::group_to_multiset_ensures;

    assert(a.no_duplicates());
    a.lemma_multiset_has_no_duplicates();
    b.lemma_multiset_has_no_duplicates_conv();
    assert forall|i: int, j: int| 0 <= i < j < b.len() implies b[i].0 != b[j].0 by {
        assert(b.contains(b[i]));
        assert(b.contains(b[j]));
        assert(a.to_multiset().count(b[i]) > 0);
        assert(a.to_multiset().count(b[j]) > 0);
        assert(a.contains(b[i]));
        assert(a.contains(b[j]));
        let x = choose|x: int| 0 <= x < a.len() && a[x] == b[i];
        let y = choose|y: int| 0 <= y < a.len() && a[y] == b[j];
        assert(b[i] != b[j]);
        assert(x != y);
    }
}

/// Packages in order have their keys in order.
pub proof fn lemma_sorted_keys(forest: Seq<PackageView>)
    requires
        is_sorted(forest),
    ensures
        sorted_by(keys_of(forest), key_order()),
{
    let keys = keys_of(forest);
    let r = key_order();
    assert forall|i: int, j: int| 0 <= i < j < keys.len() implies #[trigger] r(
        keys[i],
        keys[j],
    ) by {
        assert(package_le(forest[i], forest[j]));
    }
}

/// Whether the text `a` is in order with the text `b`.
pub fn text_in_order(a: &str, b: &str) -> (r: bool)
    ensures
        r == text_le(a@, b@),
{
    let x = a.as_bytes();
    let y = b.as_bytes();
    let mut i: usize = 0;
    loop
        invariant
            x@ == encode_utf8(a@),
            y@ == encode_utf8(b@),
            i <= x@.len(),
            i <= y@.len(),
            text_le(a@, b@) == bytes_le_from(x@, y@, i as int),
        decreases x@.len() - i,
    {
        if i >= x.len() {
            return true;
        }
        if i >= y.len() {
            return false;
        }
        if x[i] != y[i] {
            return x[i] < y[i];
        }
        i = i + 1;
    }
}

/// Whether `a` and `b` are the same text.
pub fn same_text(a: &str, b: &str) -> (r: bool)
    ensures
        r == (a@ == b@),
{
    let r = text_in_order(a, b) && text_in_order(b, a);
    proof {
        if r {
            lemma_text_le_antisym(a@, b@);
        }
        if a@ == b@ {
            lemma_text_le_refl(a@);
        }
    }
    r
}

/// Whether the package `a` is in order with the package `b`.
pub fn in_order(a: &Package, b: &Package) -> (r: bool)
    ensures
        r == package_le(a@, b@),
{
    let forth = text_in_order(a.name.as_str(), b.name.as_str());
    let back = text_in_order(b.name.as_str(), a.name.as_str());
    if forth && back {
        proof {
            lemma_text_le_antisym(a@.name, b@.name);
        }
        text_in_order(a.version.as_str(), b.version.as_str())
    } else {
        proof {
            if a@.name == b@.name {
                lemma_text_le_refl(a@.name);
            }
        }
        forth
    }
}

proof fn lemma_nothing_in_empty(s: Seq<PackageView>)
    requires
        s.len() == 0,
    ensures
        s.to_multiset() == Multiset::<PackageView>::empty(),
{
    broadcast use vstd::seq_lib::group_to_multiset_ensures;
    broadcast use vstd::multiset::group_multiset_axioms;

    assert forall|p: PackageView| s.to_multiset().count(p) == 0 by {
        assert(!s.contains(p));
    }
    assert(s.to_multiset() =~= Multiset::<PackageView>::empty());
}

/// Puts `packages` in order: the same packages, none before one that it
/// follows.
pub fn sort_packages(packages: Vec<Package>) -> (sorted: Vec<Package>)
    ensures
        is_sorted(views(sorted@)),
        views(sorted@).to_multiset() == views(packages@).to_multiset(),
{
    let ghost all = views(packages@).to_multiset();
    let mut rest = packages;
    let mut sorted: Vec<Package> = Vec::new();
    proof {
        lemma_views_index(sorted@);
        lemma_nothing_in_empty(views(sorted@));
        assert(views(sorted@).to_multiset().add(views(rest@).to_multiset()) =~= all);
    }
    while rest.len() > 0
        invariant
            is_sorted(views(sorted@)),
            views(sorted@).to_multiset().add(views(rest@).to_multiset()) == all,
        decreases rest.len(),
    {
        let ghost rest_before = views(rest@);
        let ghost sorted_before = views(sorted@);
        proof {
            lemma_views_index(rest@);
            lemma_views_index(sorted@);
        }
        let p = rest.pop().unwrap();
        proof {
            lemma_views_index(rest@);
            assert(rest_before =~= views(rest@).push(p@));
            to_multiset_build(views(rest@), p@);
        }
        let mut at: usize = 0;
        while at < sorted.len()
            invariant_except_break
                at <= sorted.len(),
            invariant
                sorted_before == views(sorted@),
                sorted_before.len() == sorted.len(),
                forall|j: int| 0 <= j < at ==> package_le(sorted_before[j], p@),
            ensures
                at <= sorted.len(),
                at < sorted.len() ==> package_le(p@, sorted_before[at as int]),
            decreases sorted.len() - at,
        {
            if in_order(&p, &sorted[at]) {
                break ;
            }
            proof {
                lemma_key_le_total(key_of(p@), key_of(sorted_before[at as int]));
            }
            at = at + 1;
        }
        sorted.insert(at, p);
        proof {
            lemma_views_index(sorted@);
            let now = views(sorted@);
            assert(now =~= sorted_before.insert(at as int, p@));
            to_multiset_insert(sorted_before, at as int, p@);
            assert(now.to_multiset().add(views(rest@).to_multiset()) =~= all);
            assert forall|i: int, j: int| 0 <= i < j < now.len() implies package_le(
                now[i],
                now[j],
            ) by {
                if j < at {
                    assert(now[i] == sorted_before[i] && now[j] == sorted_before[j]);
                } else if j == at {
                    assert(now[i] == sorted_before[i]);
                } else if i < at {
                    assert(now[i] == sorted_before[i] && now[j] == sorted_before[j - 1]);
                } else if i == at {
                    assert(now[j] == sorted_before[j - 1]);
                    if j - 1 > at {
                        assert(package_le(sorted_before[at as int], sorted_before[j - 1]));
                        lemma_key_le_trans(
                            key_of(p@),
                            key_of(sorted_before[at as int]),
                            key_of(sorted_before[j - 1]),
                        );
                    }
                } else {
                    assert(now[i] == sorted_before[i - 1] && now[j] == sorted_before[j - 1]);
                }
            }
        }
    }
    proof {
        lemma_views_index(rest@);
        lemma_nothing_in_empty(views(rest@));
        assert(views(sorted@).to_multiset().add(views(rest@).to_multiset()) =~= views(
            sorted@,
        ).to_multiset());
    }
    sorted
}

} // verus!
