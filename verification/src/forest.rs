//! The pre-order of a forest of packages.

use crate::package::PackageView;
use vstd::prelude::*;

verus! {

/// The nodes of a forest in pre-order: a node, then everything below it, then
/// the siblings that follow it.
pub open spec fn flatten(forest: Seq<PackageView>) -> Seq<PackageView>
    decreases forest,
{
    if forest.len() == 0 {
        Seq::empty()
    } else {
        seq![forest[0]] + flatten(forest[0].dependencies) + flatten(
            forest.subrange(1, forest.len() as int),
        )
    }
}

/// The number of nodes of a forest, roots and everything below them.
pub open spec fn node_count(forest: Seq<PackageView>) -> nat
    decreases forest,
{
    if forest.len() == 0 {
        0
    } else {
        1 + node_count(forest[0].dependencies) + node_count(
            forest.subrange(1, forest.len() as int),
        )
    }
}

/// Two forests have the same shape: as many roots, and below each root again
/// the same shape.
pub open spec fn same_shape(a: Seq<PackageView>, b: Seq<PackageView>) -> bool
    decreases a,
{
    &&& a.len() == b.len()
    &&& forall|i: int|
        0 <= i < a.len() ==> same_shape((#[trigger] a[i]).dependencies, b[i].dependencies)
}

/// Two nodes agree in everything but their dependencies.
pub open spec fn same_fields(a: PackageView, b: PackageView) -> bool {
    &&& a.name == b.name
    &&& a.version == b.version
    &&& a.integrity == b.integrity
    &&& a.installed == b.installed
}

/// `k` numbers a visit of a walk, counted from 0: the walk handed `given[k]`
/// to its callback.
pub open spec fn is_visit(given: Seq<PackageView>, k: int) -> bool {
    0 <= k < given.len()
}

/// A walk in pre-order, as far as it does not depend on what the callback
/// does. The walk goes over the forest `start` and leaves the forest `end`. Its
/// visits are numbered in the order in which they are made: at the visit `k`
/// the callback is given the node `given[k]` and leaves it as `left[k]`.
///
/// A root is given as it stands in `start`. What the callback leaves below a
/// node is walked next, in the same way, before the node's next sibling. And
/// in `end` a node has the name, version, integrity and installed-state that
/// the callback left it with.
pub open spec fn threads(
    start: Seq<PackageView>,
    given: Seq<PackageView>,
    left: Seq<PackageView>,
    end: Seq<PackageView>,
) -> bool
    decreases end,
{
    &&& start.len() == end.len()
    &&& given.len() == flatten(end).len()
    &&& left.len() == flatten(end).len()
    &&& end.len() > 0 ==> {
        let below = flatten(end[0].dependencies).len() as int;
        let all = flatten(end).len() as int;
        &&& given[0] == start[0]
        &&& same_fields(left[0], end[0])
        &&& threads(
            left[0].dependencies,
            given.subrange(1, 1 + below),
            left.subrange(1, 1 + below),
            end[0].dependencies,
        )
        &&& threads(
            start.subrange(1, start.len() as int),
            given.subrange(1 + below, all),
            left.subrange(1 + below, all),
            end.subrange(1, end.len() as int),
        )
    }
}

/// Where the root `i` of a forest stands in its pre-order.
pub open spec fn root_position(forest: Seq<PackageView>, i: int) -> int {
    flatten(forest.take(i)).len() as int
}

/// The pre-order of two forests side by side is the one after the other.
pub proof fn lemma_flatten_concat(a: Seq<PackageView>, b: Seq<PackageView>)
    ensures
        flatten(a + b) == flatten(a) + flatten(b),
    decreases a.len(),
{
    if a.len() == 0 {
        assert(a + b =~= b);
    } else {
        let rest = a.subrange(1, a.len() as int);
        assert((a + b).subrange(1, (a + b).len() as int) =~= rest + b);
        lemma_flatten_concat(rest, b);
        assert(flatten(a + b) =~= flatten(a) + flatten(b));
    }
}

/// The pre-order of a forest with one more root at its end.
pub proof fn lemma_flatten_push(forest: Seq<PackageView>, p: PackageView)
    ensures
        flatten(forest.push(p)) == flatten(forest) + seq![p] + flatten(p.dependencies),
{
    let one = seq![p];
    let rest = one.subrange(1, one.len() as int);
    assert(rest =~= Seq::<PackageView>::empty());
    assert(flatten(rest) =~= Seq::<PackageView>::empty());
    assert(flatten(one) =~= seq![p] + flatten(p.dependencies));
    assert(forest.push(p) =~= forest + one);
    lemma_flatten_concat(forest, one);
    assert(flatten(forest) + (seq![p] + flatten(p.dependencies)) =~= flatten(forest) + seq![p]
        + flatten(p.dependencies));
}

/// Forests of the same shape have as many nodes.
pub proof fn lemma_same_shape_len(a: Seq<PackageView>, b: Seq<PackageView>)
    requires
        same_shape(a, b),
    ensures
        flatten(a).len() == flatten(b).len(),
    decreases a,
{
    if a.len() > 0 {
        let ra = a.subrange(1, a.len() as int);
        let rb = b.subrange(1, b.len() as int);
        assert(same_shape(a[0].dependencies, b[0].dependencies));
        assert(same_shape(ra, rb)) by {
            assert forall|i: int| 0 <= i < ra.len() implies same_shape(
                (#[trigger] ra[i]).dependencies,
                rb[i].dependencies,
            ) by {
                assert(ra[i] == a[i + 1]);
                assert(rb[i] == b[i + 1]);
            }
        }
        lemma_same_shape_len(a[0].dependencies, b[0].dependencies);
        lemma_same_shape_len(ra, rb);
    }
}

/// Every forest has its own shape.
pub proof fn lemma_same_shape_refl(a: Seq<PackageView>)
    ensures
        same_shape(a, a),
    decreases a,
{
    assert forall|i: int| 0 <= i < a.len() implies same_shape(
        (#[trigger] a[i]).dependencies,
        a[i].dependencies,
    ) by {
        lemma_same_shape_refl(a[i].dependencies);
    }
}

/// A forest keeps its shape when one more root of the same shape is put at the
/// end of both.
pub proof fn lemma_same_shape_push(
    a: Seq<PackageView>,
    b: Seq<PackageView>,
    p: PackageView,
    q: PackageView,
)
    requires
        same_shape(a, b),
        same_shape(p.dependencies, q.dependencies),
    ensures
        same_shape(a.push(p), b.push(q)),
{
    let a2 = a.push(p);
    let b2 = b.push(q);
    assert forall|i: int| 0 <= i < a2.len() implies same_shape(
        (#[trigger] a2[i]).dependencies,
        b2[i].dependencies,
    ) by {
        if i < a.len() {
            assert(a2[i] == a[i]);
            assert(b2[i] == b[i]);
        }
    }
}

/// Having the same shape goes on from forest to forest.
pub proof fn lemma_same_shape_trans(a: Seq<PackageView>, b: Seq<PackageView>, c: Seq<PackageView>)
    requires
        same_shape(a, b),
        same_shape(b, c),
    ensures
        same_shape(a, c),
    decreases a,
{
    assert forall|i: int| 0 <= i < a.len() implies same_shape(
        (#[trigger] a[i]).dependencies,
        c[i].dependencies,
    ) by {
        assert(same_shape(a[i].dependencies, b[i].dependencies));
        assert(same_shape(b[i].dependencies, c[i].dependencies));
        lemma_same_shape_trans(a[i].dependencies, b[i].dependencies, c[i].dependencies);
    }
}

/// A walk goes on with one more root: the root is given as it stands, and what
/// the callback leaves below it is walked behind it.
pub proof fn lemma_threads_push(
    start: Seq<PackageView>,
    given: Seq<PackageView>,
    left: Seq<PackageView>,
    end: Seq<PackageView>,
    node: PackageView,
    node_left: PackageView,
    node_end: PackageView,
    given_below: Seq<PackageView>,
    left_below: Seq<PackageView>,
)
    requires
        threads(start, given, left, end),
        same_fields(node_left, node_end),
        threads(node_left.dependencies, given_below, left_below, node_end.dependencies),
    ensures
        threads(
            start.push(node),
            given + seq![node] + given_below,
            left + seq![node_left] + left_below,
            end.push(node_end),
        ),
    decreases end.len(),
{
    let start2 = start.push(node);
    let end2 = end.push(node_end);
    let given2 = given + seq![node] + given_below;
    let left2 = left + seq![node_left] + left_below;
    lemma_flatten_push(end, node_end);
    let all = flatten(end2).len() as int;
    if end.len() == 0 {
        assert(flatten(end) =~= Seq::<PackageView>::empty());
        let below = flatten(end2[0].dependencies).len() as int;
        assert(given2.subrange(1, 1 + below) =~= given_below);
        assert(left2.subrange(1, 1 + below) =~= left_below);
        let rest_start = start2.subrange(1, start2.len() as int);
        let rest_end = end2.subrange(1, end2.len() as int);
        assert(rest_end =~= Seq::<PackageView>::empty());
        assert(flatten(rest_end) =~= Seq::<PackageView>::empty());
        assert(threads(
            rest_start,
            given2.subrange(1 + below, all),
            left2.subrange(1 + below, all),
            rest_end,
        ));
    } else {
        let below = flatten(end[0].dependencies).len() as int;
        let before = flatten(end).len() as int;
        let rest_start = start.subrange(1, start.len() as int);
        let rest_end = end.subrange(1, end.len() as int);
        let rest_given = given.subrange(1 + below, before);
        let rest_left = left.subrange(1 + below, before);
        assert(flatten(end) =~= seq![end[0]] + flatten(end[0].dependencies) + flatten(rest_end));
        lemma_threads_push(
            rest_start,
            rest_given,
            rest_left,
            rest_end,
            node,
            node_left,
            node_end,
            given_below,
            left_below,
        );
        assert(start2.subrange(1, start2.len() as int) =~= rest_start.push(node));
        assert(end2.subrange(1, end2.len() as int) =~= rest_end.push(node_end));
        assert(end2[0] == end[0]);
        assert(given2.subrange(1, 1 + below) =~= given.subrange(1, 1 + below));
        assert(left2.subrange(1, 1 + below) =~= left.subrange(1, 1 + below));
        assert(given2.subrange(1 + below, all) =~= rest_given + seq![node] + given_below);
        assert(left2.subrange(1 + below, all) =~= rest_left + seq![node_left] + left_below);
    }
}

/// A walk that keeps the shape of the forest makes one visit for every node of
/// the forest: as many visits as the pre-order of the forest has nodes.
pub proof fn lemma_threads_one_visit_per_node(
    start: Seq<PackageView>,
    given: Seq<PackageView>,
    left: Seq<PackageView>,
    end: Seq<PackageView>,
)
    requires
        threads(start, given, left, end),
        same_shape(start, end),
    ensures
        given.len() == flatten(start).len(),
        left.len() == flatten(start).len(),
        given.len() == node_count(start),
{
    lemma_same_shape_len(start, end);
    lemma_flatten_visits_each_node_once(start);
}

/// After a walk the node that the pre-order numbers `k` has the name, version,
/// integrity and installed-state that the callback left at the visit `k`.
pub proof fn lemma_threads_fields(
    start: Seq<PackageView>,
    given: Seq<PackageView>,
    left: Seq<PackageView>,
    end: Seq<PackageView>,
    k: int,
)
    requires
        threads(start, given, left, end),
        0 <= k < flatten(end).len(),
    ensures
        same_fields(left[k], flatten(end)[k]),
    decreases end,
{
    let below = flatten(end[0].dependencies).len() as int;
    let all = flatten(end).len() as int;
    if end.len() == 0 {
    } else if k == 0 {
    } else if k < 1 + below {
        lemma_threads_fields(
            left[0].dependencies,
            given.subrange(1, 1 + below),
            left.subrange(1, 1 + below),
            end[0].dependencies,
            k - 1,
        );
    } else {
        lemma_threads_fields(
            start.subrange(1, start.len() as int),
            given.subrange(1 + below, all),
            left.subrange(1 + below, all),
            end.subrange(1, end.len() as int),
            k - 1 - below,
        );
    }
}

/// In a walk the root `i` is visited at its place in the pre-order: there it
/// is given as it stands in the forest that the walk goes over.
pub proof fn lemma_threads_root(
    start: Seq<PackageView>,
    given: Seq<PackageView>,
    left: Seq<PackageView>,
    end: Seq<PackageView>,
    i: int,
)
    requires
        threads(start, given, left, end),
        0 <= i < end.len(),
    ensures
        0 <= root_position(end, i) < given.len(),
        given[root_position(end, i)] == start[i],
        same_fields(left[root_position(end, i)], end[i]),
    decreases i,
{
    let below = flatten(end[0].dependencies).len() as int;
    let all = flatten(end).len() as int;
    lemma_pre_order(end, i, i + 1);
    if i == 0 {
        assert(end.take(0) =~= Seq::<PackageView>::empty());
    } else {
        let rest_start = start.subrange(1, start.len() as int);
        let rest_end = end.subrange(1, end.len() as int);
        lemma_threads_root(
            rest_start,
            given.subrange(1 + below, all),
            left.subrange(1 + below, all),
            rest_end,
            i - 1,
        );
        assert(end.take(i) =~= seq![end[0]] + rest_end.take(i - 1));
        lemma_flatten_concat(seq![end[0]], rest_end.take(i - 1));
        lemma_flatten_push(Seq::<PackageView>::empty(), end[0]);
        assert(Seq::<PackageView>::empty().push(end[0]) =~= seq![end[0]]);
        assert(flatten(Seq::<PackageView>::empty()) =~= Seq::<PackageView>::empty());
        assert(root_position(end, i) == 1 + below + root_position(rest_end, i - 1));
    }
}

/// Where the callback of a walk never changes what is below a node, every
/// node is given as it stands in the forest that the walk goes over, and the
/// forest keeps its shape.
pub proof fn lemma_threads_untouched(
    start: Seq<PackageView>,
    given: Seq<PackageView>,
    left: Seq<PackageView>,
    end: Seq<PackageView>,
)
    requires
        threads(start, given, left, end),
        forall|k: int|
            0 <= k < given.len() ==> (#[trigger] left[k]).dependencies == given[k].dependencies,
    ensures
        given == flatten(start),
        same_shape(start, end),
    decreases end,
{
    if end.len() == 0 {
        assert(given =~= flatten(start));
    } else {
        let below = flatten(end[0].dependencies).len() as int;
        let all = flatten(end).len() as int;
        let given_below = given.subrange(1, 1 + below);
        let left_below = left.subrange(1, 1 + below);
        let given_rest = given.subrange(1 + below, all);
        let left_rest = left.subrange(1 + below, all);
        let rest_start = start.subrange(1, start.len() as int);
        let rest_end = end.subrange(1, end.len() as int);
        assert(flatten(end) =~= seq![end[0]] + flatten(end[0].dependencies) + flatten(rest_end));
        assert forall|k: int| 0 <= k < given_below.len() implies (#[trigger] left_below[k]).dependencies
            == given_below[k].dependencies by {
            assert(left_below[k] == left[k + 1]);
            assert(given_below[k] == given[k + 1]);
        }
        assert forall|k: int| 0 <= k < given_rest.len() implies (#[trigger] left_rest[k]).dependencies
            == given_rest[k].dependencies by {
            assert(left_rest[k] == left[k + 1 + below]);
            assert(given_rest[k] == given[k + 1 + below]);
        }
        lemma_threads_untouched(left[0].dependencies, given_below, left_below, end[0].dependencies);
        lemma_threads_untouched(rest_start, given_rest, left_rest, rest_end);
        assert(left[0].dependencies == start[0].dependencies);
        assert(given =~= seq![given[0]] + given_below + given_rest);
        assert(given =~= flatten(start));
        assert forall|i: int| 0 <= i < start.len() implies same_shape(
            (#[trigger] start[i]).dependencies,
            end[i].dependencies,
        ) by {
            if i > 0 {
                assert(rest_start[i - 1] == start[i]);
                assert(rest_end[i - 1] == end[i]);
            }
        }
    }
}

/// The pre-order visits every node once: it is as long as the forest has
/// nodes.
pub proof fn lemma_flatten_visits_each_node_once(forest: Seq<PackageView>)
    ensures
        flatten(forest).len() == node_count(forest),
    decreases forest,
{
    if forest.len() > 0 {
        lemma_flatten_visits_each_node_once(forest[0].dependencies);
        lemma_flatten_visits_each_node_once(forest.subrange(1, forest.len() as int));
    }
}

/// The pre-order law. The root `i` of a forest stands at `root_position`; what
/// is below it follows it at once, in its own pre-order; and a root that is
/// stored later comes after all of that.
pub proof fn lemma_pre_order(forest: Seq<PackageView>, i: int, j: int)
    requires
        0 <= i < j <= forest.len(),
    ensures
        root_position(forest, i) + 1 + flatten(forest[i].dependencies).len() <= root_position(
            forest,
            j,
        ) <= flatten(forest).len(),
        flatten(forest)[root_position(forest, i)] == forest[i],
        flatten(forest).subrange(
            root_position(forest, i) + 1,
            root_position(forest, i) + 1 + flatten(forest[i].dependencies).len(),
        ) == flatten(forest[i].dependencies),
{
    let before = forest.take(i);
    let upto = forest.take(i + 1);
    let later = forest.take(j);
    assert(upto =~= before.push(forest[i]));
    lemma_flatten_push(before, forest[i]);
    assert(later =~= upto + forest.subrange(i + 1, j));
    lemma_flatten_concat(upto, forest.subrange(i + 1, j));
    assert(forest =~= later + forest.subrange(j, forest.len() as int));
    lemma_flatten_concat(later, forest.subrange(j, forest.len() as int));
    let s = root_position(forest, i);
    let n = flatten(forest[i].dependencies).len() as int;
    assert(flatten(forest).subrange(s + 1, s + 1 + n) =~= flatten(forest[i].dependencies));
}

} // verus!
