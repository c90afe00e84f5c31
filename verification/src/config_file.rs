//! The configuration file: an ordered list of packages, walked in pre-order.

use crate::forest::{
    flatten, is_visit, lemma_flatten_push, lemma_pre_order, lemma_same_shape_len,
    lemma_same_shape_push, lemma_same_shape_refl, lemma_same_shape_trans, lemma_threads_push,
    lemma_threads_root, root_position, same_shape, threads,
};
use crate::lockfile::{
    completes, computes, fills, installed_of, lemma_installed_prefix, pretty, pretty_json, record,
    record_of, records_of, LockError, Record,
};
use crate::manifest::{
    document_mapping, hjson_mapping, json_document, manifest_mapping, toml_mapping, yaml_mapping,
    ConfigWrapper, LoadError, ShapeError,
};
use crate::order::{
    is_sorted, key_of, key_order, keys_of, lemma_key_order_total, lemma_sorted_keys,
    lemma_unique_names_permuted, package_le, sort_packages, unique_names, Key,
};
use crate::package::{lemma_views_index, views, Package, PackageView};
use vstd::pervasive::unreached;
use vstd::prelude::*;
use vstd::seq_lib::lemma_sorted_unique;

verus! {

/// The config file: the packages that a manifest asks for.
#[derive(Debug, PartialEq, Eq)]
pub struct ConfigFile {
    pub packages: Vec<Package>,
}

impl View for ConfigFile {
    type V = Seq<PackageView>;

    open spec fn view(&self) -> Seq<PackageView> {
        views(self.packages@)
    }
}

impl ConfigFile {
    /// The packages of the config file stand in order, by name and then by
    /// version. Every constructor gives a config file of this kind.
    pub open spec fn well_formed(&self) -> bool {
        is_sorted(self@)
    }
}

impl Default for ConfigFile {
    /// The config file without packages.
    fn default() -> (cfg: Self)
        ensures
            cfg@ == Seq::<PackageView>::empty(),
            cfg.well_formed(),
    {
        let cfg = ConfigFile { packages: Vec::new() };
        assert(cfg@ =~= Seq::<PackageView>::empty());
        cfg
    }
}

/// Every package of the sequence is a leaf: nothing below it, not installed,
/// no integrity yet.
pub open spec fn all_leaves(forest: Seq<PackageView>) -> bool {
    forall|i: int|
        0 <= i < forest.len() ==> (#[trigger] forest[i]) == PackageView::leaf(
            forest[i].name,
            forest[i].version,
        )
}

/// The packages list the mapping: one leaf for every entry, all in order.
pub open spec fn lists(mapping: Seq<Key>, forest: Seq<PackageView>) -> bool {
    &&& is_sorted(forest)
    &&& all_leaves(forest)
    &&& keys_of(forest).to_multiset() == mapping.to_multiset()
}

proof fn lemma_leaf_keys(forest: Seq<PackageView>, k: Key)
    requires
        all_leaves(forest),
    ensures
        keys_of(forest).to_multiset().count(k) == forest.to_multiset().count(
            PackageView::leaf(k.0, k.1),
        ),
    decreases forest.len(),
{
    broadcast use vstd::seq_lib::group_to_multiset_ensures;
    broadcast use vstd::multiset::group_multiset_axioms;

    if forest.len() == 0 {
        assert(!keys_of(forest).contains(k));
        assert(!forest.contains(PackageView::leaf(k.0, k.1)));
    } else {
        let init = forest.drop_last();
        let last = forest.last();
        assert(forest =~= init.push(last));
        assert(keys_of(forest) =~= keys_of(init).push(key_of(last)));
        assert(all_leaves(init)) by {
            assert forall|i: int| 0 <= i < init.len() implies (#[trigger] init[i])
                == PackageView::leaf(init[i].name, init[i].version) by {
                assert(init[i] == forest[i]);
            }
        }
        lemma_leaf_keys(init, k);
        assert(last == forest[forest.len() - 1]);
        assert((key_of(last) == k) == (last == PackageView::leaf(k.0, k.1)));
    }
}

/// The law of the canonical list. Two lists of the same entries are the same
/// list, in whatever order the entries were read: the list depends on what the
/// mapping holds, and on nothing else.
pub proof fn lemma_one_list_per_mapping(
    first: Seq<Key>,
    second: Seq<Key>,
    a: Seq<PackageView>,
    b: Seq<PackageView>,
)
    requires
        first.to_multiset() == second.to_multiset(),
        lists(first, a),
        lists(second, b),
    ensures
        a == b,
{
    lemma_sorted_keys(a);
    lemma_sorted_keys(b);
    lemma_key_order_total();
    lemma_sorted_unique(keys_of(a), keys_of(b), key_order());
    assert(a.len() == keys_of(a).len());
    assert(b.len() == keys_of(b).len());
    assert forall|i: int| 0 <= i < a.len() implies a[i] == b[i] by {
        assert(keys_of(a)[i] == key_of(a[i]));
        assert(keys_of(b)[i] == key_of(b[i]));
    }
    assert(a =~= b);
}

/// The law of the formats. Two manifest texts that declare the same entries,
/// in whatever formats and in whatever order, give the same list of packages.
pub proof fn lemma_formats_agree(
    first: Seq<char>,
    second: Seq<char>,
    a: Seq<PackageView>,
    b: Seq<PackageView>,
)
    requires
        manifest_mapping(first) is Some,
        manifest_mapping(second) is Some,
        manifest_mapping(first).unwrap().to_multiset() == manifest_mapping(
            second,
        ).unwrap().to_multiset(),
        lists(manifest_mapping(first).unwrap(), a),
        lists(manifest_mapping(second).unwrap(), b),
    ensures
        a == b,
{
    lemma_one_list_per_mapping(
        manifest_mapping(first).unwrap(),
        manifest_mapping(second).unwrap(),
        a,
        b,
    );
}

/// The law of the mandatory manifest. [`ConfigFile::new`] takes a text exactly
/// when the text declares a mapping in Hjson, in YAML or in TOML; the texts
/// that it leaves out, on which nothing can be loaded, are those that declare
/// one in none of the three, and on exactly those [`ConfigFile::try_new`]
/// gives `None`.
pub proof fn lemma_refused_by_every_format(text: Seq<char>)
    ensures
        manifest_mapping(text) is None <==> hjson_mapping(text) is None && yaml_mapping(text)
            is None && toml_mapping(text) is None,
        manifest_mapping(text) is Some ==> manifest_mapping(text) == hjson_mapping(text)
            || manifest_mapping(text) == yaml_mapping(text) || manifest_mapping(text)
            == toml_mapping(text),
{
}

/// Walks `pkgs` in pre-order and hands every node to `cb`: a node first, then
/// what is below it, then its next sibling. Gives the nodes as they were handed
/// to `cb`, and as `cb` left them, in the order of the visits.
#[verifier::loop_isolation(false)]
fn walk<F: FnMut(&mut Package)>(pkgs: &mut [Package], cb: &mut F) -> (trace: Ghost<
    (Seq<PackageView>, Seq<PackageView>),
>)
    requires
        forall|q: &mut Package| call_requires(*old(cb), (q,)),
        forall|q: &mut Package| #[trigger]
            call_ensures(*old(cb), (q,), ()) ==> same_shape(
                q@.dependencies,
                final(q)@.dependencies,
            ),
    ensures
        *final(cb) == *old(cb),
        same_shape(views(old(pkgs)@), views(final(pkgs)@)),
        threads(views(old(pkgs)@), trace@.0, trace@.1, views(final(pkgs)@)),
        forall|k: int| #[trigger]
            is_visit(trace@.0, k) ==> exists|q: &mut Package|
                #![trigger call_ensures(*old(cb), (q,), ())]
                q@ == trace@.0[k] && final(q)@ == trace@.1[k] && call_ensures(
                    *old(cb),
                    (q,),
                    (),
                ),
    decreases flatten(views(old(pkgs)@)).len(),
{
    let ghost before = views(pkgs@);
    let ghost f = *cb;
    let ghost mut given: Seq<PackageView> = Seq::empty();
    let ghost mut left: Seq<PackageView> = Seq::empty();
    let n = pkgs.len();
    let mut i: usize = 0;
    proof {
        lemma_views_index(pkgs@);
        assert(before.take(0) =~= Seq::<PackageView>::empty());
        assert(views(pkgs@).take(0) =~= Seq::<PackageView>::empty());
    }
    while i < n
        invariant
            i <= n,
            pkgs@.len() == n,
            before.len() == n,
            *cb == f,
            forall|j: int| i <= j < n ==> pkgs@[j]@ == before[j],
            same_shape(before.take(i as int), views(pkgs@).take(i as int)),
            threads(before.take(i as int), given, left, views(pkgs@).take(i as int)),
            forall|k: int| #[trigger]
                is_visit(given, k) ==> exists|q: &mut Package|
                    #![trigger call_ensures(f, (q,), ())]
                    q@ == given[k] && final(q)@ == left[k] && call_ensures(f, (q,), ()),
        decreases n - i,
    {
        let ghost done_before = before.take(i as int);
        let ghost done_now = views(pkgs@).take(i as int);
        let ghost given_before = given;
        let ghost left_before = left;
        let ghost mut given_below: Seq<PackageView> = Seq::empty();
        let ghost mut left_below: Seq<PackageView> = Seq::empty();
        proof {
            lemma_views_index(pkgs@);
        }
        let p = &mut pkgs[i];
        let ghost node = p@;
        cb(p);
        let ghost node_left = p@;
        assert(exists|q: &mut Package|
            #![trigger call_ensures(f, (q,), ())]
            q@ == node && final(q)@ == node_left && call_ensures(f, (q,), ()));
        assert(same_shape(node.dependencies, node_left.dependencies));
        proof {
            lemma_views_index(p.dependencies@);
        }
        if p.has_deps() {
            proof {
                lemma_same_shape_len(node.dependencies, node_left.dependencies);
                lemma_pre_order(before, i as int, i + 1);
            }
            let below = walk(&mut p.dependencies, cb);
            proof {
                given_below = below@.0;
                left_below = below@.1;
            }
        } else {
            proof {
                lemma_same_shape_refl(node_left.dependencies);
                assert(flatten(node_left.dependencies) =~= Seq::<PackageView>::empty());
            }
        }
        let ghost node_end = p@;
        i = i + 1;
        proof {
            lemma_views_index(pkgs@);
            assert(before.take(i as int) =~= done_before.push(node));
            assert(views(pkgs@).take(i as int) =~= done_now.push(node_end));
            lemma_same_shape_trans(
                node.dependencies,
                node_left.dependencies,
                node_end.dependencies,
            );
            lemma_same_shape_push(done_before, done_now, node, node_end);
            lemma_threads_push(
                done_before,
                given_before,
                left_before,
                done_now,
                node,
                node_left,
                node_end,
                given_below,
                left_below,
            );
            given = given_before + seq![node] + given_below;
            left = left_before + seq![node_left] + left_below;
            let m = given_before.len() as int;
            assert forall|k: int| #[trigger] is_visit(given, k) implies exists|q: &mut Package|
                #![trigger call_ensures(f, (q,), ())]
                q@ == given[k] && final(q)@ == left[k] && call_ensures(f, (q,), ()) by {
                if k < m {
                    assert(is_visit(given_before, k));
                    assert(given[k] == given_before[k]);
                    assert(left[k] == left_before[k]);
                } else if k == m {
                    assert(given[k] == node);
                    assert(left[k] == node_left);
                } else {
                    assert(is_visit(given_below, k - m - 1));
                    assert(given[k] == given_below[k - m - 1]);
                    assert(left[k] == left_below[k - m - 1]);
                }
            }
        }
    }
    proof {
        assert(before.take(n as int) =~= before);
        assert(views(pkgs@).take(n as int) =~= views(pkgs@));
    }
    Ghost((given, left))
}

/// Puts a copy of every node of `pkgs` at the end of `out`, in pre-order.
fn gather(pkgs: &[Package], out: &mut Vec<Package>)
    ensures
        views(final(out)@) == views(old(out)@) + flatten(views(pkgs@)),
    decreases views(pkgs@),
{
    let ghost start = views(out@);
    let ghost forest = views(pkgs@);
    let n = pkgs.len();
    let mut i: usize = 0;
    proof {
        lemma_views_index(pkgs@);
        assert(forest.take(0) =~= Seq::<PackageView>::empty());
        assert(views(out@) =~= start + flatten(forest.take(0)));
    }
    while i < n
        invariant
            i <= n,
            n == pkgs@.len(),
            forest == views(pkgs@),
            forest.len() == n,
            views(out@) == start + flatten(forest.take(i as int)),
        decreases n - i,
    {
        let p = &pkgs[i];
        let ghost so_far = views(out@);
        proof {
            lemma_views_index(pkgs@);
            lemma_views_index(out@);
            lemma_views_index(p.dependencies@);
        }
        out.push(p.clone());
        proof {
            lemma_views_index(out@);
            assert(views(out@) =~= so_far.push(p@));
        }
        if p.has_deps() {
            assert(views(p.dependencies@) == forest[i as int].dependencies);
            gather(p.dependencies.as_slice(), out);
        } else {
            assert(flatten(p@.dependencies) =~= Seq::<PackageView>::empty());
        }
        proof {
            lemma_flatten_push(forest.take(i as int), p@);
            assert(forest.take(i + 1) =~= forest.take(i as int).push(p@));
            assert(views(out@) =~= start + flatten(forest.take(i + 1)));
        }
        i = i + 1;
    }
    proof {
        assert(forest.take(n as int) =~= forest);
    }
}

impl ConfigFile {
    /// The config file of a mapping: one package for every entry, without
    /// dependencies, all in order.
    pub fn from(from: ConfigWrapper) -> (cfg: Self)
        ensures
            lists(from@, cfg@),
            cfg.well_formed(),
            from.well_formed() ==> unique_names(keys_of(cfg@)),
    {
        let mut packages: Vec<Package> = Vec::new();
        let n = from.packages.len();
        let mut i: usize = 0;
        while i < n
            invariant
                n == from.packages.len(),
                i <= n,
                packages.len() == i,
                forall|j: int|
                    0 <= j < i ==> (#[trigger] packages@[j])@ == PackageView::leaf(
                        from.packages@[j].0@,
                        from.packages@[j].1@,
                    ),
            decreases n - i,
        {
            let entry = &from.packages[i];
            packages.push(Package::new(entry.0.clone(), entry.1.clone()));
            i = i + 1;
        }
        let ghost made = views(packages@);
        let sorted = sort_packages(packages);
        proof {
            broadcast use vstd::seq_lib::group_to_multiset_ensures;
            broadcast use vstd::multiset::group_multiset_axioms;

            let forest = views(sorted@);
            let mapping = from@;
            lemma_views_index(sorted@);
            assert(keys_of(made) =~= mapping);
            assert(all_leaves(made));
            assert(all_leaves(forest)) by {
                assert forall|i: int| 0 <= i < forest.len() implies (#[trigger] forest[i])
                    == PackageView::leaf(forest[i].name, forest[i].version) by {
                    assert(forest.contains(forest[i]));
                    assert(made.to_multiset().count(forest[i]) > 0);
                    assert(made.contains(forest[i]));
                    let j = choose|j: int| 0 <= j < made.len() && made[j] == forest[i];
                    assert(made[j] == PackageView::leaf(made[j].name, made[j].version));
                }
            }
            assert forall|k: Key|
                keys_of(forest).to_multiset().count(k) == mapping.to_multiset().count(k) by {
                lemma_leaf_keys(forest, k);
                lemma_leaf_keys(made, k);
            }
            assert(keys_of(forest).to_multiset() =~= mapping.to_multiset());
            if unique_names(mapping) {
                lemma_unique_names_permuted(mapping, keys_of(forest));
            }
        }
        ConfigFile { packages: sorted }
    }

    /// The config file of a manifest text. The text must declare a mapping in
    /// Hjson, YAML or TOML; [`ConfigFile::try_new`] takes any text.
    pub fn new(contents: &String) -> (cfg: Self)
        requires
            manifest_mapping(contents@) is Some,
        ensures
            lists(manifest_mapping(contents@).unwrap(), cfg@),
            cfg.well_formed(),
            unique_names(keys_of(cfg@)),
    {
        let w = ConfigWrapper::read(contents.as_str());
        Self::from(w.unwrap())
    }

    /// The config file of a manifest text, or `None` where the text declares no
    /// mapping in Hjson, YAML or TOML. The text is read to see whether
    /// [`ConfigFile::new`] takes it, and `new` reads it again.
    pub fn try_new(contents: &String) -> (r: Option<Self>)
        ensures
            match r {
                Some(cfg) => manifest_mapping(contents@) is Some && lists(
                    manifest_mapping(contents@).unwrap(),
                    cfg@,
                ) && cfg.well_formed() && unique_names(keys_of(cfg@)),
                None => manifest_mapping(contents@) is None,
            },
    {
        if ConfigWrapper::read(contents.as_str()).is_some() {
            Some(Self::new(contents))
        } else {
            None
        }
    }

    /// The config file of a manifest in JSON, or why the text is none.
    pub fn from_json(json: &String) -> (r: Result<Self, LoadError>)
        ensures
            match r {
                Ok(cfg) => json_document(json@) matches Some(doc) && document_mapping(doc)
                    matches Ok(mapping) && lists(mapping, cfg@) && cfg.well_formed()
                    && unique_names(keys_of(cfg@)),
                Err(LoadError::Json(_)) => json_document(json@) is None,
                Err(LoadError::Shape(e)) => json_document(json@) matches Some(doc)
                    && document_mapping(doc) == Err::<Seq<Key>, ShapeError>(e),
            },
    {
        match ConfigWrapper::read_json(json.as_str()) {
            Ok(w) => Ok(Self::from(w)),
            Err(e) => Err(e),
        }
    }

    /// Makes the lockfile of this config file: a record with name, version and
    /// integrity for every installed package, the packages taken in pre-order,
    /// written as pretty JSON. The config file stays as it is.
    ///
    /// Where an installed package has no integrity yet, `integrity` is asked
    /// for it. If it has none to give, there is no lockfile: the error names
    /// the first such package. In every other case there is one.
    pub fn lock<F: Fn(&Package) -> Option<String>>(&mut self, integrity: F) -> (r: Result<
        String,
        LockError,
    >)
        requires
            forall|p: Package| call_requires(integrity, (&p,)),
        ensures
            *final(self) == *old(self),
            match r {
                Ok(text) => exists|filled: Seq<Seq<char>>|
                    fills(integrity, installed_of(flatten(old(self)@)), filled) && pretty_json(
                        #[trigger] records_of(installed_of(flatten(old(self)@)), filled),
                    ) == text@,
                Err(LockError::Integrity(who)) => exists|k: int, filled: Seq<Seq<char>>|
                    0 <= k < installed_of(flatten(old(self)@)).len() && #[trigger] fills(
                        integrity,
                        installed_of(flatten(old(self)@)).take(k),
                        filled,
                    ) && installed_of(flatten(old(self)@))[k].integrity.len() == 0 && computes(
                        integrity,
                        installed_of(flatten(old(self)@))[k],
                        None,
                    ) && who@ == installed_of(flatten(old(self)@))[k].display(),
            },
    {
        let pkgs = self.collect();
        let ghost all = views(pkgs@);
        let ghost wanted = installed_of(all);
        let mut records: Vec<Record> = Vec::new();
        let ghost mut filled: Seq<Seq<char>> = Seq::empty();
        let n = pkgs.len();
        let mut i: usize = 0;
        proof {
            lemma_views_index(pkgs@);
            assert(all.take(0) =~= Seq::<PackageView>::empty());
            assert(records.deep_view() =~= records_of(installed_of(all.take(0)), filled));
        }
        while i < n
            invariant
                i <= n,
                n == pkgs@.len(),
                all == views(pkgs@),
                all.len() == n,
                wanted == installed_of(all),
                all == flatten(old(self)@),
                *self == *old(self),
                fills(integrity, installed_of(all.take(i as int)), filled),
                records.deep_view() == records_of(installed_of(all.take(i as int)), filled),
                forall|p: Package| call_requires(integrity, (&p,)),
            decreases n - i,
        {
            let p = &pkgs[i];
            let ghost so_far = installed_of(all.take(i as int));
            proof {
                lemma_views_index(pkgs@);
                lemma_installed_prefix(all, i as int);
                assert(all.take(i + 1).drop_last() =~= all.take(i as int));
                assert(all.take(i + 1).last() == p@);
            }
            if p.is_installed() {
                let own = if p.integrity.as_str().is_empty() {
                    match integrity(p) {
                        Some(computed) => computed,
                        None => {
                            proof {
                                assert(computes(integrity, p@, None));
                                assert(wanted.take(so_far.len() as int) == so_far);
                            }
                            return Err(LockError::Integrity(p.to_string()));
                        },
                    }
                } else {
                    p.integrity.clone()
                };
                let ghost before = records.deep_view();
                proof {
                    assert(completes(integrity, p@, own@));
                }
                records.push(record(p, own));
                proof {
                    let old_filled = filled;
                    filled = filled.push(own@);
                    let now = installed_of(all.take(i + 1));
                    assert(now == so_far.push(p@));
                    assert forall|j: int| 0 <= j < now.len() implies completes(
                        integrity,
                        now[j],
                        #[trigger] filled[j],
                    ) by {
                        if j < so_far.len() {
                            assert(now[j] == so_far[j]);
                            assert(filled[j] == old_filled[j]);
                        }
                    }
                    assert(records.deep_view() =~= before.push(record_of(p@, own@)));
                    assert(records.deep_view() =~= records_of(now, filled));
                }
            }
            i = i + 1;
        }
        proof {
            assert(all.take(n as int) =~= all);
        }
        match pretty(&records) {
            Ok(text) => Ok(text),
            Err(_) => unreached(),
        }
    }

    /// Walks the forest `pkgs` in pre-order and hands every node to `cb`: once
    /// each, a node before what is below it, siblings in their order.
    ///
    /// `cb` may change a package and what is below it, but not the shape of
    /// what is below it. The walk is then one that [`threads`] describes, with
    /// `cb` called at every visit; the forest keeps its shape; and where `cb`
    /// keeps names and versions, packages that stood in order still do.
    pub fn _for_each(pkgs: &mut [Package], cb: impl FnMut(&mut Package))
        requires
            forall|q: &mut Package| call_requires(cb, (q,)),
            forall|q: &mut Package| #[trigger]
                call_ensures(cb, (q,), ()) ==> same_shape(
                    q@.dependencies,
                    final(q)@.dependencies,
                ),
        ensures
            same_shape(views(old(pkgs)@), views(final(pkgs)@)),
            exists|given: Seq<PackageView>, left: Seq<PackageView>|
                #![trigger threads(views(old(pkgs)@), given, left, views(final(pkgs)@))]
                threads(views(old(pkgs)@), given, left, views(final(pkgs)@)) && forall|k: int|
                 #[trigger]
                    is_visit(given, k) ==> exists|q: &mut Package|
                        #![trigger call_ensures(cb, (q,), ())]
                        q@ == given[k] && final(q)@ == left[k] && call_ensures(cb, (q,), ()),
            is_sorted(views(old(pkgs)@)) && (forall|q: &mut Package| #[trigger]
                call_ensures(cb, (q,), ()) ==> final(q)@.name == q@.name && final(q)@.version
                    == q@.version) ==> is_sorted(views(final(pkgs)@)),
    {
        let mut cb = cb;
        let ghost before = views(pkgs@);
        let trace = walk(pkgs, &mut cb);
        proof {
            let after = views(pkgs@);
            let given = trace@.0;
            let left = trace@.1;
            assert forall|i: int|
                (forall|q: &mut Package| #[trigger]
                    call_ensures(cb, (q,), ()) ==> final(q)@.name == q@.name
                        && final(q)@.version == q@.version) && 0 <= i < after.len() implies key_of(
                #[trigger] after[i],
            ) == key_of(before[i]) by {
                lemma_threads_root(before, given, left, after, i);
                assert(is_visit(given, root_position(after, i)));
            }
            assert forall|i: int, j: int|
                is_sorted(before) && (forall|k: int|
                    0 <= k < after.len() ==> key_of(#[trigger] after[k]) == key_of(before[k]))
                    && 0 <= i < j < after.len() implies package_le(after[i], after[j]) by {
                assert(package_le(before[i], before[j]));
            }
        }
    }

    /// Hands every package of this config file, and every package below one,
    /// to `cb`: once each, in pre-order.
    ///
    /// `cb` may change a package and what is below it, but not the shape of
    /// what is below it. The walk is then one that [`threads`] describes, with
    /// `cb` called at every visit; the forest keeps its shape; and where `cb`
    /// keeps names and versions, the config file stays well-formed.
    pub fn for_each(&mut self, cb: impl FnMut(&mut Package))
        requires
            forall|q: &mut Package| call_requires(cb, (q,)),
            forall|q: &mut Package| #[trigger]
                call_ensures(cb, (q,), ()) ==> same_shape(
                    q@.dependencies,
                    final(q)@.dependencies,
                ),
        ensures
            same_shape(old(self)@, final(self)@),
            exists|given: Seq<PackageView>, left: Seq<PackageView>|
                #![trigger threads(old(self)@, given, left, final(self)@)]
                threads(old(self)@, given, left, final(self)@) && forall|k: int| #[trigger]
                    is_visit(given, k) ==> exists|q: &mut Package|
                        #![trigger call_ensures(cb, (q,), ())]
                        q@ == given[k] && final(q)@ == left[k] && call_ensures(cb, (q,), ()),
            old(self).well_formed() && (forall|q: &mut Package| #[trigger]
                call_ensures(cb, (q,), ()) ==> final(q)@.name == q@.name && final(q)@.version
                    == q@.version) ==> final(self).well_formed(),
    {
        let ghost before = self@;
        Self::_for_each(&mut self.packages, cb);
        proof {
            let after = self@;
            let (given, left) = choose|given: Seq<PackageView>, left: Seq<PackageView>|
                #![trigger threads(before, given, left, after)]
                threads(before, given, left, after) && forall|k: int| #[trigger]
                    is_visit(given, k) ==> exists|q: &mut Package|
                        #![trigger call_ensures(cb, (q,), ())]
                        q@ == given[k] && final(q)@ == left[k] && call_ensures(cb, (q,), ());
            assert(threads(before, given, left, after));
        }
    }

    /// Collects a copy of every package, and of every package below one, in
    /// pre-order. The config file stays as it is.
    pub fn collect(&mut self) -> (pkgs: Vec<Package>)
        ensures
            views(pkgs@) == flatten(old(self)@),
            *final(self) == *old(self),
    {
        let mut pkgs: Vec<Package> = Vec::new();
        proof {
            assert(views(pkgs@) =~= Seq::<PackageView>::empty());
        }
        gather(self.packages.as_slice(), &mut pkgs);
        proof {
            assert(Seq::<PackageView>::empty() + flatten(self@) =~= flatten(self@));
        }
        pkgs
    }
}

} // verus!
