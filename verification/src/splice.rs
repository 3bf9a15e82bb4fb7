//! Replacing and removing elements by name.
//!
//! Every pass of the pipeline finds the elements of one name in document order
//! and puts something else in the place of each. A plan holds one replacement
//! for each such element, in that order; only an outermost element is
//! replaced, and what lay inside it goes with it.

use vstd::prelude::*;
use crate::tree::{
    Node, Tree, borrowed_view, elements, elements_in, forest_view, lemma_elements_step, select_all,
};

verus! {

/// The model of a plan: the trees that each of its entries holds.
pub open spec fn plan_view(plan: Seq<Vec<Node>>) -> Seq<Seq<Tree>> {
    Seq::new(plan.len(), |i: int| forest_view(plan[i]@))
}

/// What `tree` becomes when each outermost element called `tag` gives way to
/// its entry of `plan`. The elements called `tag` in `tree` have the entries
/// from `base` on, in document order.
pub open spec fn replace_in(tree: Tree, tag: Seq<char>, plan: Seq<Seq<Tree>>, base: int) -> Seq<
    Tree,
>
    decreases tree,
{
    if tree.is_named(tag) {
        plan[base]
    } else {
        seq![Tree { data: tree.data, children: replace(tree.children, tag, plan, base) }]
    }
}

/// What `forest` becomes when each outermost element called `tag` gives way to
/// its entry of `plan`, the first such element having entry `base`.
pub open spec fn replace(forest: Seq<Tree>, tag: Seq<char>, plan: Seq<Seq<Tree>>, base: int) -> Seq<
    Tree,
>
    decreases forest,
{
    if forest.len() == 0 {
        Seq::empty()
    } else {
        replace(forest.drop_last(), tag, plan, base) + replace_in(
            forest.last(),
            tag,
            plan,
            base + elements(forest.drop_last(), tag).len(),
        )
    }
}

/// `plan` made to fit `regions`: an entry beyond the last region is left out,
/// and a region beyond the last entry gets itself as its entry.
pub open spec fn padded(plan: Seq<Seq<Tree>>, regions: Seq<Tree>) -> Seq<Seq<Tree>> {
    Seq::new(
        regions.len(),
        |i: int|
            if i < plan.len() {
                plan[i]
            } else {
                seq![regions[i]]
            },
    )
}

/// `tree` with `plan[i]` in the place of the element number `i`, in document
/// order, among those called `tag` below its root. Only an outermost such
/// element is replaced, and what lay inside it goes with it. An element
/// without an entry stays.
pub open spec fn replaced(tree: Tree, tag: Seq<char>, plan: Seq<Seq<Tree>>) -> Tree {
    Tree {
        data: tree.data,
        children: replace(tree.children, tag, padded(plan, elements(tree.children, tag)), 0),
    }
}

/// `tree` without the elements called `tag`.
pub open spec fn strip_in(tree: Tree, tag: Seq<char>) -> Seq<Tree>
    decreases tree,
{
    if tree.is_named(tag) {
        Seq::empty()
    } else {
        seq![Tree { data: tree.data, children: strip(tree.children, tag) }]
    }
}

/// `forest` without the elements called `tag`.
pub open spec fn strip(forest: Seq<Tree>, tag: Seq<char>) -> Seq<Tree>
    decreases forest,
{
    if forest.len() == 0 {
        Seq::empty()
    } else {
        strip(forest.drop_last(), tag) + strip_in(forest.last(), tag)
    }
}

/// A prefix of a forest holds no more elements called `tag` than the forest.
pub proof fn lemma_elements_prefix(forest: Seq<Tree>, tag: Seq<char>, i: int)
    requires
        0 <= i <= forest.len(),
    ensures
        elements(forest.take(i), tag).len() <= elements(forest, tag).len(),
    decreases forest.len() - i,
{
    if i == forest.len() {
        assert(forest.take(i) =~= forest);
    } else {
        lemma_elements_step(forest, tag, i);
        lemma_elements_prefix(forest, tag, i + 1);
    }
}

/// The elements called `tag` in two forests one after the other.
pub proof fn lemma_elements_concat(first: Seq<Tree>, second: Seq<Tree>, tag: Seq<char>)
    ensures
        elements(first + second, tag) == elements(first, tag) + elements(second, tag),
    decreases second.len(),
{
    if second.len() == 0 {
        assert(first + second =~= first);
        assert(elements(first, tag) + elements(second, tag) =~= elements(first, tag));
    } else {
        let whole = first + second;
        assert(whole.drop_last() =~= first + second.drop_last());
        assert(whole.last() == second.last());
        lemma_elements_concat(first, second.drop_last(), tag);
        assert(elements(whole, tag) =~= elements(first, tag) + elements(second, tag));
    }
}

/// The elements called `tag` in a forest of one tree.
pub proof fn lemma_elements_single(tree: Tree, tag: Seq<char>)
    ensures
        elements(seq![tree], tag) == elements_in(tree, tag),
{
    let forest = seq![tree];
    assert(forest.drop_last() =~= Seq::<Tree>::empty());
    assert(elements(forest.drop_last(), tag) =~= Seq::<Tree>::empty());
    assert(forest.last() == tree);
    assert(elements(forest, tag) =~= elements_in(tree, tag));
}

/// Unfolds [`replace`] by one tree at the end of a prefix of `forest`.
pub proof fn lemma_replace_step(
    forest: Seq<Tree>,
    tag: Seq<char>,
    plan: Seq<Seq<Tree>>,
    base: int,
    i: int,
)
    requires
        0 <= i < forest.len(),
    ensures
        replace(forest.take(i + 1), tag, plan, base) == replace(forest.take(i), tag, plan, base)
            + replace_in(forest[i], tag, plan, base + elements(forest.take(i), tag).len()),
{
    assert(forest.take(i + 1).drop_last() =~= forest.take(i));
}

/// Unfolds [`strip`] by one tree at the end of a prefix of `forest`.
pub proof fn lemma_strip_step(forest: Seq<Tree>, tag: Seq<char>, i: int)
    requires
        0 <= i < forest.len(),
    ensures
        strip(forest.take(i + 1), tag) == strip(forest.take(i), tag) + strip_in(forest[i], tag),
{
    assert(forest.take(i + 1).drop_last() =~= forest.take(i));
}

/// Replacement keeps the order of a forest: what two forests become one after
/// the other is what the first becomes, then what the second becomes.
pub proof fn lemma_replace_concat(
    first: Seq<Tree>,
    second: Seq<Tree>,
    tag: Seq<char>,
    plan: Seq<Seq<Tree>>,
    base: int,
)
    ensures
        replace(first + second, tag, plan, base) == replace(first, tag, plan, base) + replace(
            second,
            tag,
            plan,
            base + elements(first, tag).len(),
        ),
    decreases second.len(),
{
    let offset = base + elements(first, tag).len();
    if second.len() == 0 {
        assert(first + second =~= first);
        assert(replace(first, tag, plan, base) + replace(second, tag, plan, offset) =~= replace(
            first,
            tag,
            plan,
            base,
        ));
    } else {
        let whole = first + second;
        assert(whole.drop_last() =~= first + second.drop_last());
        assert(whole.last() == second.last());
        lemma_replace_concat(first, second.drop_last(), tag, plan, base);
        lemma_elements_concat(first, second.drop_last(), tag);
        assert(replace(whole, tag, plan, base) =~= replace(first, tag, plan, base) + replace(
            second,
            tag,
            plan,
            offset,
        ));
    }
}

/// What a forest becomes depends on the entries of its own elements alone: two
/// plans that agree on them, each from its own base on, give the same.
pub proof fn lemma_replace_agrees(
    forest: Seq<Tree>,
    tag: Seq<char>,
    first: Seq<Seq<Tree>>,
    first_base: int,
    second: Seq<Seq<Tree>>,
    second_base: int,
)
    requires
        0 <= first_base,
        0 <= second_base,
        first_base + elements(forest, tag).len() <= first.len(),
        second_base + elements(forest, tag).len() <= second.len(),
        forall|i: int|
            first_base <= i < first_base + elements(forest, tag).len() ==> #[trigger] first[i]
                == second[i - first_base + second_base],
    ensures
        replace(forest, tag, first, first_base) == replace(forest, tag, second, second_base),
    decreases forest, 1nat,
{
    if forest.len() > 0 {
        let front = forest.drop_last();
        let last = forest.last();
        let count = elements(front, tag).len() as int;
        assert(elements(forest, tag) == elements(front, tag) + elements_in(last, tag));
        lemma_replace_agrees(front, tag, first, first_base, second, second_base);
        lemma_replace_in_agrees(
            last,
            tag,
            first,
            first_base + count,
            second,
            second_base + count,
        );
    }
}

/// [`lemma_replace_agrees`] for one tree.
pub proof fn lemma_replace_in_agrees(
    tree: Tree,
    tag: Seq<char>,
    first: Seq<Seq<Tree>>,
    first_base: int,
    second: Seq<Seq<Tree>>,
    second_base: int,
)
    requires
        0 <= first_base,
        0 <= second_base,
        first_base + elements_in(tree, tag).len() <= first.len(),
        second_base + elements_in(tree, tag).len() <= second.len(),
        forall|i: int|
            first_base <= i < first_base + elements_in(tree, tag).len() ==> #[trigger] first[i]
                == second[i - first_base + second_base],
    ensures
        replace_in(tree, tag, first, first_base) == replace_in(tree, tag, second, second_base),
    decreases tree, 0nat,
{
    if tree.is_named(tag) {
        assert(first[first_base] == second[first_base - first_base + second_base]);
    } else {
        lemma_replace_agrees(tree.children, tag, first, first_base, second, second_base);
    }
}

/// The entries of `plan` from `from` up to `to`, one after the other.
pub open spec fn plan_span(plan: Seq<Seq<Tree>>, from: int, to: int) -> Seq<Tree>
    decreases to - from,
{
    if from >= to {
        Seq::empty()
    } else {
        plan_span(plan, from, to - 1) + plan[to - 1]
    }
}

/// Sibling markers keep their order: where every tree of a forest is an
/// element called `tag` that holds no other, the forest becomes the entries of
/// the plan in the order of the markers.
pub proof fn lemma_siblings_keep_their_order(
    markers: Seq<Tree>,
    tag: Seq<char>,
    plan: Seq<Seq<Tree>>,
    base: int,
)
    requires
        forall|i: int|
            0 <= i < markers.len() ==> (#[trigger] markers[i]).is_named(tag) && elements(
                markers[i].children,
                tag,
            ).len() == 0,
    ensures
        elements(markers, tag) == markers,
        replace(markers, tag, plan, base) == plan_span(plan, base, base + markers.len()),
    decreases markers.len(),
{
    if markers.len() == 0 {
        assert(elements(markers, tag) =~= markers);
    } else {
        let front = markers.drop_last();
        let last = markers.last();
        lemma_siblings_keep_their_order(front, tag, plan, base);
        assert(elements_in(last, tag) =~= seq![last]);
        assert(elements(markers, tag) =~= markers);
        assert(replace_in(last, tag, plan, base + front.len()) == plan[base + front.len()]);
        assert(plan_span(plan, base, base + markers.len()) == plan_span(
            plan,
            base,
            base + markers.len() - 1,
        ) + plan[base + markers.len() - 1]);
    }
}

/// A plan with one entry for each region fits as it is.
pub proof fn lemma_padded_full(plan: Seq<Seq<Tree>>, regions: Seq<Tree>)
    requires
        plan.len() == regions.len(),
    ensures
        padded(plan, regions) == plan,
{
    assert(padded(plan, regions) =~= plan);
}

/// A forest without an element called `tag` stays as it is.
pub proof fn lemma_replace_nothing(forest: Seq<Tree>, tag: Seq<char>, plan: Seq<Seq<Tree>>, base: int)
    requires
        elements(forest, tag).len() == 0,
    ensures
        replace(forest, tag, plan, base) == forest,
    decreases forest, 1nat,
{
    if forest.len() > 0 {
        let front = forest.drop_last();
        let last = forest.last();
        assert(elements(forest, tag) == elements(front, tag) + elements_in(last, tag));
        assert(elements(front, tag).len() == 0 && elements_in(last, tag).len() == 0);
        lemma_replace_nothing(front, tag, plan, base);
        assert(!last.is_named(tag));
        lemma_replace_nothing(last.children, tag, plan, base);
        assert(replace_in(last, tag, plan, base) =~= seq![last]);
        assert(forest =~= front + seq![last]);
    } else {
        assert(forest =~= Seq::<Tree>::empty());
    }
}

/// Where no entry of the plan that is used holds an element called `tag`, none
/// is left after the replacement.
pub proof fn lemma_replace_leaves_none(
    forest: Seq<Tree>,
    tag: Seq<char>,
    plan: Seq<Seq<Tree>>,
    base: int,
)
    requires
        0 <= base,
        base + elements(forest, tag).len() <= plan.len(),
        forall|i: int|
            base <= i < base + elements(forest, tag).len() ==> elements(#[trigger] plan[i], tag).len()
                == 0,
    ensures
        elements(replace(forest, tag, plan, base), tag).len() == 0,
    decreases forest, 1nat,
{
    if forest.len() > 0 {
        let front = forest.drop_last();
        let offset = base + elements(front, tag).len();
        lemma_replace_leaves_none(front, tag, plan, base);
        lemma_replace_in_leaves_none(forest.last(), tag, plan, offset);
        lemma_elements_concat(
            replace(front, tag, plan, base),
            replace_in(forest.last(), tag, plan, offset),
            tag,
        );
    }
}

/// [`lemma_replace_leaves_none`] for one tree.
pub proof fn lemma_replace_in_leaves_none(
    tree: Tree,
    tag: Seq<char>,
    plan: Seq<Seq<Tree>>,
    base: int,
)
    requires
        0 <= base,
        base + elements_in(tree, tag).len() <= plan.len(),
        forall|i: int|
            base <= i < base + elements_in(tree, tag).len() ==> elements(#[trigger] plan[i], tag).len()
                == 0,
    ensures
        elements(replace_in(tree, tag, plan, base), tag).len() == 0,
    decreases tree, 0nat,
{
    if !tree.is_named(tag) {
        lemma_replace_leaves_none(tree.children, tag, plan, base);
        let kept = Tree { data: tree.data, children: replace(tree.children, tag, plan, base) };
        lemma_elements_single(kept, tag);
    }
}

/// Where neither the forest nor an entry of the plan that is used holds an
/// element called `other`, none is in the forest after the replacement.
pub proof fn lemma_replace_keeps_out(
    forest: Seq<Tree>,
    tag: Seq<char>,
    plan: Seq<Seq<Tree>>,
    base: int,
    other: Seq<char>,
)
    requires
        0 <= base,
        base + elements(forest, tag).len() <= plan.len(),
        elements(forest, other).len() == 0,
        forall|i: int|
            base <= i < base + elements(forest, tag).len() ==> elements(
                #[trigger] plan[i],
                other,
            ).len() == 0,
    ensures
        elements(replace(forest, tag, plan, base), other).len() == 0,
    decreases forest, 1nat,
{
    if forest.len() > 0 {
        let front = forest.drop_last();
        let offset = base + elements(front, tag).len();
        lemma_replace_keeps_out(front, tag, plan, base, other);
        lemma_replace_in_keeps_out(forest.last(), tag, plan, offset, other);
        lemma_elements_concat(
            replace(front, tag, plan, base),
            replace_in(forest.last(), tag, plan, offset),
            other,
        );
    }
}

/// [`lemma_replace_keeps_out`] for one tree.
pub proof fn lemma_replace_in_keeps_out(
    tree: Tree,
    tag: Seq<char>,
    plan: Seq<Seq<Tree>>,
    base: int,
    other: Seq<char>,
)
    requires
        0 <= base,
        base + elements_in(tree, tag).len() <= plan.len(),
        elements_in(tree, other).len() == 0,
        forall|i: int|
            base <= i < base + elements_in(tree, tag).len() ==> elements(
                #[trigger] plan[i],
                other,
            ).len() == 0,
    ensures
        elements(replace_in(tree, tag, plan, base), other).len() == 0,
    decreases tree, 0nat,
{
    if !tree.is_named(tag) {
        lemma_replace_keeps_out(tree.children, tag, plan, base, other);
        let kept = Tree { data: tree.data, children: replace(tree.children, tag, plan, base) };
        lemma_elements_single(kept, other);
    }
}

/// Where a forest holds no element called `other`, none is below any of its
/// elements called `tag`.
pub proof fn lemma_none_below(forest: Seq<Tree>, tag: Seq<char>, other: Seq<char>, k: int)
    requires
        elements(forest, other).len() == 0,
        0 <= k < elements(forest, tag).len(),
    ensures
        elements(elements(forest, tag)[k].children, other).len() == 0,
    decreases forest, 1nat,
{
    let front = forest.drop_last();
    if k < elements(front, tag).len() {
        lemma_none_below(front, tag, other, k);
    } else {
        lemma_none_below_in(forest.last(), tag, other, k - elements(front, tag).len());
    }
}

/// [`lemma_none_below`] for one tree.
pub proof fn lemma_none_below_in(tree: Tree, tag: Seq<char>, other: Seq<char>, k: int)
    requires
        elements_in(tree, other).len() == 0,
        0 <= k < elements_in(tree, tag).len(),
    ensures
        elements(elements_in(tree, tag)[k].children, other).len() == 0,
    decreases tree, 0nat,
{
    if tree.is_named(tag) {
        if k > 0 {
            lemma_none_below(tree.children, tag, other, k - 1);
        }
    } else {
        lemma_none_below(tree.children, tag, other, k);
    }
}

/// No element called `tag` is left in a forest that was stripped of them.
pub proof fn lemma_strip_leaves_none(forest: Seq<Tree>, tag: Seq<char>)
    ensures
        elements(strip(forest, tag), tag).len() == 0,
    decreases forest, 1nat,
{
    if forest.len() > 0 {
        lemma_strip_leaves_none(forest.drop_last(), tag);
        lemma_strip_in_leaves_none(forest.last(), tag);
        lemma_elements_concat(strip(forest.drop_last(), tag), strip_in(forest.last(), tag), tag);
    }
}

/// [`lemma_strip_leaves_none`] for one tree.
pub proof fn lemma_strip_in_leaves_none(tree: Tree, tag: Seq<char>)
    ensures
        elements(strip_in(tree, tag), tag).len() == 0,
    decreases tree, 0nat,
{
    if !tree.is_named(tag) {
        lemma_strip_leaves_none(tree.children, tag);
        let kept = Tree { data: tree.data, children: strip(tree.children, tag) };
        lemma_elements_single(kept, tag);
    }
}

/// Appends copies of `nodes` to `out`.
pub fn append_copies(out: &mut Vec<Node>, nodes: &Vec<Node>)
    ensures
        forest_view(final(out)@) == forest_view(old(out)@) + forest_view(nodes@),
{
    let mut i: usize = 0;
    assert(forest_view(out@) =~= forest_view(old(out)@) + forest_view(nodes@).take(0));
    while i < nodes.len()
        invariant
            i <= nodes.len(),
            forest_view(out@) == forest_view(old(out)@) + forest_view(nodes@).take(i as int),
        decreases nodes.len() - i,
    {
        let ghost before = forest_view(out@);
        out.push(nodes[i].copy());
        assert(forest_view(out@) =~= before.push(nodes[i as int]@));
        assert(forest_view(nodes@).take(i + 1) =~= forest_view(nodes@).take(i as int).push(
            nodes[i as int]@,
        ));
        i += 1;
    }
    assert(forest_view(nodes@).take(nodes.len() as int) =~= forest_view(nodes@));
}

/// Appends to `out` what `node` becomes under `plan`, and returns the entry of
/// the plan that belongs to the next element after `node`.
pub(crate) fn replace_node(node: &Node, tag: &str, plan: &Vec<Vec<Node>>, base: usize, out: &mut Vec<Node>) -> (next: usize)
    requires
        base + elements_in(node@, tag@).len() <= plan.len(),
    ensures
        forest_view(final(out)@) == forest_view(old(out)@) + replace_in(
            node@,
            tag@,
            plan_view(plan@),
            base as int,
        ),
        next == base + elements_in(node@, tag@).len(),
    decreases node, 0nat,
{
    if node.is_named(tag) {
        let inside = node.select(tag);
        append_copies(out, &plan[base]);
        base + inside.len()
    } else {
        let (children, next) = replace_forest(&node.children, tag, plan, base);
        let ghost before = forest_view(out@);
        let kept = Node { data: node.data.copy(), children };
        out.push(kept);
        assert(forest_view(out@) =~= before + seq![kept@]);
        next
    }
}

/// What `forest` becomes under `plan`, and the entry of the plan that belongs
/// to the next element after `forest`.
pub(crate) fn replace_forest(forest: &Vec<Node>, tag: &str, plan: &Vec<Vec<Node>>, base: usize) -> (out: (
    Vec<Node>,
    usize,
))
    requires
        base + elements(forest_view(forest@), tag@).len() <= plan.len(),
    ensures
        forest_view(out.0@) == replace(
            forest_view(forest@),
            tag@,
            plan_view(plan@),
            base as int,
        ),
        out.1 == base + elements(forest_view(forest@), tag@).len(),
    decreases forest, 1nat,
{
    let ghost trees = forest_view(forest@);
    let mut replaced: Vec<Node> = Vec::new();
    let mut cursor: usize = base;
    let mut i: usize = 0;
    assert(forest_view(replaced@) =~= replace(trees.take(0), tag@, plan_view(plan@), base as int));
    while i < forest.len()
        invariant
            i <= forest.len(),
            trees == forest_view(forest@),
            base + elements(trees, tag@).len() <= plan.len(),
            cursor == base + elements(trees.take(i as int), tag@).len(),
            forest_view(replaced@) == replace(
                trees.take(i as int),
                tag@,
                plan_view(plan@),
                base as int,
            ),
        decreases forest.len() - i,
    {
        proof {
            lemma_elements_step(trees, tag@, i as int);
            lemma_elements_prefix(trees, tag@, i + 1);
            lemma_replace_step(trees, tag@, plan_view(plan@), base as int, i as int);
        }
        cursor = replace_node(&forest[i], tag, plan, cursor, &mut replaced);
        i += 1;
    }
    assert(trees.take(forest.len() as int) =~= trees);
    (replaced, cursor)
}

/// `document` with `plan[i]` in the place of its element number `i` that is
/// called `tag`. Where the plan has an entry for each such element and none of
/// them holds an element called `tag`, none is left.
pub fn replace_elements(document: &Node, tag: &str, plan: Vec<Vec<Node>>) -> (out: Node)
    ensures
        out@ == replaced(document@, tag@, plan_view(plan@)),
        plan.len() >= elements(document@.children, tag@).len() && (forall|i: int|
            0 <= i < elements(document@.children, tag@).len() ==> elements(
                #[trigger] plan_view(plan@)[i],
                tag@,
            ).len() == 0) ==> elements(out@.children, tag@).len() == 0,
{
    let regions = select_all(&document.children, tag);
    let ghost found = borrowed_view(regions@);
    let ghost given = plan_view(plan@);
    let mut plan = plan;
    plan.truncate(regions.len());
    let mut i: usize = plan.len();
    while i < regions.len()
        invariant
            i == plan.len(),
            i <= regions.len(),
            i < regions.len() ==> i >= given.len(),
            found == borrowed_view(regions@),
            forall|j: int|
                0 <= j < i ==> forest_view(#[trigger] plan[j]@) == padded(given, found)[j],
        decreases regions.len() - i,
    {
        let mut own: Vec<Node> = Vec::new();
        own.push(regions[i].copy());
        assert(forest_view(own@) =~= seq![found[i as int]]);
        plan.push(own);
        i += 1;
    }
    assert(plan_view(plan@) =~= padded(given, found));
    let (children, _) = replace_forest(&document.children, tag, &plan, 0);
    proof {
        if given.len() >= found.len() && (forall|i: int|
            0 <= i < found.len() ==> elements(#[trigger] given[i], tag@).len() == 0) {
            assert forall|i: int| 0 <= i < found.len() implies elements(
                #[trigger] padded(given, found)[i],
                tag@,
            ).len() == 0 by {
                assert(padded(given, found)[i] == given[i]);
            }
            lemma_replace_leaves_none(document@.children, tag@, padded(given, found), 0);
        }
    }
    Node { data: document.data.copy(), children }
}

/// Appends to `out` what is left of `node` without the elements called `tag`.
pub fn strip_node(node: &Node, tag: &str, out: &mut Vec<Node>)
    ensures
        forest_view(final(out)@) == forest_view(old(out)@) + strip_in(node@, tag@),
    decreases node, 0nat,
{
    if node.is_named(tag) {
        assert(forest_view(out@) =~= forest_view(old(out)@) + strip_in(node@, tag@));
    } else {
        let children = strip_forest(&node.children, tag);
        let ghost before = forest_view(out@);
        let kept = Node { data: node.data.copy(), children };
        out.push(kept);
        assert(forest_view(out@) =~= before + seq![kept@]);
    }
}

/// `forest` without the elements called `tag`.
pub fn strip_forest(forest: &Vec<Node>, tag: &str) -> (out: Vec<Node>)
    ensures
        forest_view(out@) == strip(forest_view(forest@), tag@),
        elements(forest_view(out@), tag@).len() == 0,
    decreases forest, 1nat,
{
    let ghost trees = forest_view(forest@);
    let mut kept: Vec<Node> = Vec::new();
    let mut i: usize = 0;
    assert(forest_view(kept@) =~= strip(trees.take(0), tag@));
    while i < forest.len()
        invariant
            i <= forest.len(),
            trees == forest_view(forest@),
            forest_view(kept@) == strip(trees.take(i as int), tag@),
        decreases forest.len() - i,
    {
        proof {
            lemma_strip_step(trees, tag@, i as int);
        }
        strip_node(&forest[i], tag, &mut kept);
        i += 1;
    }
    proof {
        assert(trees.take(forest.len() as int) =~= trees);
        lemma_strip_leaves_none(trees, tag@);
    }
    kept
}

} // verus!
