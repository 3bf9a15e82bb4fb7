//! Where export regions stand.
//!
//! An `exportelement` has a meaning only as a child of an `include` element.
//! In a page and in components that keep to this, resolving leaves no
//! `exportelement` behind.

use vstd::prelude::*;
use crate::html::source_document;
use crate::resolve::{
    fill_slots, find_export, include_content, include_contents, resolve, slot_contents,
};
use crate::splice::{
    lemma_elements_concat, lemma_elements_single, lemma_none_below, replace, replace_in, strip,
    strip_in,
};
use crate::store::{SourceModel, join_path, source_of};
use crate::tree::{Tree, elements, elements_in};

verus! {

/// Whether every `exportelement` in `tree`, the root among them, is a child of
/// an `include` element. `under_include` says whether the root is one.
pub open spec fn placed_in(tree: Tree, under_include: bool) -> bool
    decreases tree,
{
    if tree.is_named("exportelement"@) {
        under_include && placed(tree.children, false)
    } else {
        placed(tree.children, tree.is_named("include"@))
    }
}

/// Whether every `exportelement` in `forest` is a child of an `include`
/// element. `under_include` says whether the trees of `forest` are.
pub open spec fn placed(forest: Seq<Tree>, under_include: bool) -> bool
    decreases forest,
{
    forest.len() == 0 || (placed(forest.drop_last(), under_include) && placed_in(
        forest.last(),
        under_include,
    ))
}

/// Whether the text of every source parses to a document whose export regions
/// are all children of `include` elements.
pub open spec fn sources_placed(sources: Seq<SourceModel>) -> bool {
    forall|path: Seq<char>|
        source_of(sources, path) is Some ==> placed(
            #[trigger] source_document(source_of(sources, path)->0).children,
            false,
        )
}

/// The three names differ from each other.
pub proof fn lemma_names_differ()
    ensures
        "include"@ != "includeelement"@,
        "include"@ != "exportelement"@,
        "includeelement"@ != "exportelement"@,
{
    reveal_strlit("include");
    reveal_strlit("includeelement");
    reveal_strlit("exportelement");
    assert("include"@.len() == 7);
    assert("includeelement"@.len() == 14);
    assert("exportelement"@.len() == 13);
}

/// What is placed outside an `include` element is placed inside one.
pub proof fn lemma_placed_anywhere(forest: Seq<Tree>)
    requires
        placed(forest, false),
    ensures
        placed(forest, true),
    decreases forest,
{
    if forest.len() > 0 {
        lemma_placed_anywhere(forest.drop_last());
        assert(placed_in(forest.last(), false));
        assert(placed_in(forest.last(), true));
    }
}

/// Two forests one after the other are placed where both are.
pub proof fn lemma_placed_concat(first: Seq<Tree>, second: Seq<Tree>, under_include: bool)
    ensures
        placed(first + second, under_include) == (placed(first, under_include) && placed(
            second,
            under_include,
        )),
    decreases second.len(),
{
    if second.len() == 0 {
        assert(first + second =~= first);
    } else {
        let whole = first + second;
        assert(whole.drop_last() =~= first + second.drop_last());
        assert(whole.last() == second.last());
        lemma_placed_concat(first, second.drop_last(), under_include);
    }
}

/// A forest of one tree is placed where the tree is.
pub proof fn lemma_placed_single(tree: Tree, under_include: bool)
    ensures
        placed(seq![tree], under_include) == placed_in(tree, under_include),
{
    let forest = seq![tree];
    assert(forest.drop_last() =~= Seq::<Tree>::empty());
    assert(placed(forest.drop_last(), under_include));
    assert(forest.last() == tree);
}

/// Below every `include` element of a forest that is placed, the children are
/// placed as children of an `include` element.
pub proof fn lemma_markers_placed(forest: Seq<Tree>, under_include: bool, k: int)
    requires
        placed(forest, under_include),
        0 <= k < elements(forest, "include"@).len(),
    ensures
        placed(elements(forest, "include"@)[k].children, true),
    decreases forest, 1nat,
{
    let front = forest.drop_last();
    if k < elements(front, "include"@).len() {
        lemma_markers_placed(front, under_include, k);
    } else {
        lemma_markers_placed_in(
            forest.last(),
            under_include,
            k - elements(front, "include"@).len(),
        );
    }
}

/// [`lemma_markers_placed`] for one tree.
pub proof fn lemma_markers_placed_in(tree: Tree, under_include: bool, k: int)
    requires
        placed_in(tree, under_include),
        0 <= k < elements_in(tree, "include"@).len(),
    ensures
        placed(elements_in(tree, "include"@)[k].children, true),
    decreases tree, 0nat,
{
    lemma_names_differ();
    if tree.is_named("include"@) {
        if k > 0 {
            lemma_markers_placed(tree.children, true, k - 1);
        }
    } else if tree.is_named("exportelement"@) {
        lemma_markers_placed(tree.children, false, k);
    } else {
        lemma_markers_placed(tree.children, false, k);
    }
}

/// The children of an export that is found among placed children of an
/// `include` element are placed.
pub proof fn lemma_export_placed(children: Seq<Tree>, name: Seq<char>)
    requires
        placed(children, true),
        find_export(children, name) is Some,
    ensures
        placed(find_export(children, name)->0.children, false),
    decreases children.len(),
{
    let first = children[0];
    let rest = children.drop_first();
    assert(children =~= seq![first] + rest);
    lemma_placed_concat(seq![first], rest, true);
    lemma_placed_single(first, true);
    if !(first.is_named("exportelement"@) && first.attribute("class"@) == Some(name)) {
        lemma_export_placed(rest, name);
    }
}

/// A placed forest stays placed when its placeholders are removed.
pub proof fn lemma_strip_keeps_placed(forest: Seq<Tree>, under_include: bool)
    requires
        placed(forest, under_include),
    ensures
        placed(strip(forest, "includeelement"@), under_include),
    decreases forest, 1nat,
{
    if forest.len() > 0 {
        lemma_strip_keeps_placed(forest.drop_last(), under_include);
        lemma_strip_in_keeps_placed(forest.last(), under_include);
        lemma_placed_concat(
            strip(forest.drop_last(), "includeelement"@),
            strip_in(forest.last(), "includeelement"@),
            under_include,
        );
    }
}

/// [`lemma_strip_keeps_placed`] for one tree.
pub proof fn lemma_strip_in_keeps_placed(tree: Tree, under_include: bool)
    requires
        placed_in(tree, under_include),
    ensures
        placed(strip_in(tree, "includeelement"@), under_include),
    decreases tree, 0nat,
{
    lemma_names_differ();
    if !tree.is_named("includeelement"@) {
        let kept = Tree { data: tree.data, children: strip(tree.children, "includeelement"@) };
        if tree.is_named("exportelement"@) {
            lemma_strip_keeps_placed(tree.children, false);
        } else {
            lemma_strip_keeps_placed(tree.children, tree.is_named("include"@));
        }
        lemma_placed_single(kept, under_include);
    }
}

/// A placed forest stays placed when its placeholders give way to placed
/// forests.
pub proof fn lemma_fill_keeps_placed(
    forest: Seq<Tree>,
    plan: Seq<Seq<Tree>>,
    base: int,
    under_include: bool,
)
    requires
        placed(forest, under_include),
        0 <= base,
        base + elements(forest, "includeelement"@).len() <= plan.len(),
        forall|i: int|
            base <= i < base + elements(forest, "includeelement"@).len() ==> placed(
                #[trigger] plan[i],
                false,
            ),
    ensures
        placed(replace(forest, "includeelement"@, plan, base), under_include),
    decreases forest, 1nat,
{
    if forest.len() > 0 {
        let front = forest.drop_last();
        let offset = base + elements(front, "includeelement"@).len();
        lemma_fill_keeps_placed(front, plan, base, under_include);
        lemma_fill_in_keeps_placed(forest.last(), plan, offset, under_include);
        lemma_placed_concat(
            replace(front, "includeelement"@, plan, base),
            replace_in(forest.last(), "includeelement"@, plan, offset),
            under_include,
        );
    }
}

/// [`lemma_fill_keeps_placed`] for one tree.
pub proof fn lemma_fill_in_keeps_placed(
    tree: Tree,
    plan: Seq<Seq<Tree>>,
    base: int,
    under_include: bool,
)
    requires
        placed_in(tree, under_include),
        0 <= base,
        base + elements_in(tree, "includeelement"@).len() <= plan.len(),
        forall|i: int|
            base <= i < base + elements_in(tree, "includeelement"@).len() ==> placed(
                #[trigger] plan[i],
                false,
            ),
    ensures
        placed(replace_in(tree, "includeelement"@, plan, base), under_include),
    decreases tree, 0nat,
{
    lemma_names_differ();
    if tree.is_named("includeelement"@) {
        lemma_placed_anywhere(plan[base]);
    } else {
        let kept = Tree {
            data: tree.data,
            children: replace(tree.children, "includeelement"@, plan, base),
        };
        if tree.is_named("exportelement"@) {
            lemma_fill_keeps_placed(tree.children, plan, base, false);
        } else {
            lemma_fill_keeps_placed(tree.children, plan, base, tree.is_named("include"@));
        }
        lemma_placed_single(kept, under_include);
    }
}

/// No `exportelement` is left in a placed forest whose `include` elements give
/// way to forests without one.
pub proof fn lemma_replace_leaves_no_export(forest: Seq<Tree>, plan: Seq<Seq<Tree>>, base: int)
    requires
        placed(forest, false),
        0 <= base,
        base + elements(forest, "include"@).len() <= plan.len(),
        forall|i: int|
            base <= i < base + elements(forest, "include"@).len() ==> elements(
                #[trigger] plan[i],
                "exportelement"@,
            ).len() == 0,
    ensures
        elements(replace(forest, "include"@, plan, base), "exportelement"@).len() == 0,
    decreases forest, 1nat,
{
    if forest.len() > 0 {
        let front = forest.drop_last();
        let last = forest.last();
        let offset = base + elements(front, "include"@).len();
        lemma_names_differ();
        assert(elements(forest, "include"@) == elements(front, "include"@) + elements_in(
            last,
            "include"@,
        ));
        assert(placed_in(last, false));
        lemma_replace_leaves_no_export(front, plan, base);
        if !last.is_named("include"@) {
            assert(!last.is_named("exportelement"@));
            assert(placed(last.children, false));
            lemma_replace_leaves_no_export(last.children, plan, offset);
            let kept = Tree {
                data: last.data,
                children: replace(last.children, "include"@, plan, offset),
            };
            lemma_elements_single(kept, "exportelement"@);
        }
        lemma_elements_concat(
            replace(front, "include"@, plan, base),
            replace_in(last, "include"@, plan, offset),
            "exportelement"@,
        );
    }
}

/// What fills the slots of a component is placed, where the children of the
/// caller are.
pub proof fn lemma_slot_contents_placed(placeholders: Seq<Tree>, caller: Tree)
    requires
        slot_contents(placeholders, caller) is Ok,
        placed(caller.children, true),
    ensures
        slot_contents(placeholders, caller)->Ok_0.len() == placeholders.len(),
        forall|i: int|
            0 <= i < placeholders.len() ==> placed(
                #[trigger] slot_contents(placeholders, caller)->Ok_0[i],
                false,
            ),
    decreases placeholders.len(),
{
    if placeholders.len() > 0 {
        lemma_slot_contents_placed(placeholders.drop_last(), caller);
        match placeholders.last().attribute("name"@) {
            None => {},
            Some(name) => {
                lemma_export_placed(caller.children, name);
                lemma_strip_keeps_placed(find_export(caller.children, name)->0.children, false);
            },
        }
    }
}

/// A resolved forest holds no `exportelement`, where in the forest, below the
/// caller and in every source each `exportelement` is a child of an `include`
/// element.
pub proof fn lemma_resolve_leaves_no_export(
    forest: Seq<Tree>,
    sources: Seq<SourceModel>,
    root: Seq<char>,
    caller: Option<Tree>,
    depth: nat,
)
    requires
        resolve(forest, sources, root, caller, depth) is Ok,
        placed(forest, false),
        caller is Some ==> placed(caller->0.children, true),
        sources_placed(sources),
    ensures
        elements(resolve(forest, sources, root, caller, depth)->Ok_0, "exportelement"@).len()
            == 0,
    decreases depth, 2nat, 0nat,
{
    let filled = fill_slots(forest, caller)->Ok_0;
    if caller is Some {
        let slots = elements(forest, "includeelement"@);
        lemma_slot_contents_placed(slots, caller->0);
        lemma_fill_keeps_placed(forest, slot_contents(slots, caller->0)->Ok_0, 0, false);
    }
    let markers = elements(filled, "include"@);
    assert forall|k: int| 0 <= k < markers.len() implies placed(
        (#[trigger] markers[k]).children,
        true,
    ) by {
        lemma_markers_placed(filled, false, k);
    }
    lemma_include_contents_hold_no_export(markers, sources, root, depth);
    lemma_replace_leaves_no_export(
        filled,
        include_contents(markers, sources, root, depth)->Ok_0,
        0,
    );
}

/// What stands in the place of the markers holds no `exportelement`.
pub proof fn lemma_include_contents_hold_no_export(
    markers: Seq<Tree>,
    sources: Seq<SourceModel>,
    root: Seq<char>,
    depth: nat,
)
    requires
        include_contents(markers, sources, root, depth) is Ok,
        forall|k: int| 0 <= k < markers.len() ==> placed((#[trigger] markers[k]).children, true),
        sources_placed(sources),
    ensures
        include_contents(markers, sources, root, depth)->Ok_0.len() == markers.len(),
        forall|i: int|
            0 <= i < markers.len() ==> elements(
                #[trigger] include_contents(markers, sources, root, depth)->Ok_0[i],
                "exportelement"@,
            ).len() == 0,
    decreases depth, 1nat, markers.len(),
{
    if markers.len() > 0 {
        let front = markers.drop_last();
        assert forall|k: int| 0 <= k < front.len() implies placed(
            (#[trigger] front[k]).children,
            true,
        ) by {
            assert(front[k] == markers[k]);
        }
        lemma_include_contents_hold_no_export(front, sources, root, depth);
        lemma_include_content_holds_no_export(markers.last(), sources, root, depth);
    }
}

/// What stands in the place of one marker holds no `exportelement`.
pub proof fn lemma_include_content_holds_no_export(
    marker: Tree,
    sources: Seq<SourceModel>,
    root: Seq<char>,
    depth: nat,
)
    requires
        include_content(marker, sources, root, depth) is Ok,
        placed(marker.children, true),
        sources_placed(sources),
    ensures
        elements(include_content(marker, sources, root, depth)->Ok_0, "exportelement"@).len()
            == 0,
    decreases depth, 0nat, 0nat,
{
    match marker.attribute("path"@) {
        None => {},
        Some(path) => {
            let source = source_of(sources, join_path(root, path))->0;
            let below = source_document(source).children;
            let inner = (depth - 1) as nat;
            lemma_resolve_leaves_no_export(below, sources, root, Some(marker), inner);
            let resolved = resolve(below, sources, root, Some(marker), inner)->Ok_0;
            lemma_none_below(resolved, "html"@, "exportelement"@, 0);
        },
    }
}

} // verus!
