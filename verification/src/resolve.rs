//! Taking components into a page.
//!
//! An `include` element names a component by its `path`. The component is
//! resolved in its turn and then stands in the element's place. Inside a
//! component, an `includeelement` marks a slot: the children of the
//! `exportelement` of that name, which the `include` element holds, go there.

use vstd::prelude::*;
use crate::error::{PageError, PageErrorModel, agrees};
use crate::html::{fits, parse_source, source_document};
use crate::placement::{lemma_resolve_leaves_no_export, placed, sources_placed};
use crate::store::{Source, SourceModel, find_source, join, join_path, source_of, sources_view};
use crate::splice::{
    lemma_elements_concat, lemma_elements_single, lemma_none_below, lemma_replace_agrees,
    lemma_replace_concat, lemma_replace_keeps_out, lemma_replace_leaves_none,
    lemma_siblings_keep_their_order, lemma_strip_leaves_none, plan_span, plan_view, replace,
    replace_forest, replace_in, strip, strip_forest,
};
use crate::tree::{
    Node, Tree, borrowed_view, copy_forest, elements, forest_view, select_all,
};

verus! {

/// How deep components may take each other in.
pub const MAX_INCLUDE_DEPTH: usize = 64;

/// The first of `children` that is an `exportelement` whose `class` is `name`.
pub open spec fn find_export(children: Seq<Tree>, name: Seq<char>) -> Option<Tree>
    decreases children.len(),
{
    if children.len() == 0 {
        None
    } else if children[0].is_named("exportelement"@) && children[0].attribute("class"@) == Some(
        name,
    ) {
        Some(children[0])
    } else {
        find_export(children.drop_first(), name)
    }
}

/// What goes in the place of `placeholder`: nothing where it has no `name`,
/// else the children of the export of that name among the children of
/// `caller`, without any placeholder among them.
pub open spec fn slot_content(
    placeholder: Tree,
    caller: Tree,
) -> Result<Seq<Tree>, PageErrorModel> {
    match placeholder.attribute("name"@) {
        None => Ok(Seq::empty()),
        Some(name) => match find_export(caller.children, name) {
            None => Err(PageErrorModel::SlotNotFound { name }),
            Some(export) => Ok(strip(export.children, "includeelement"@)),
        },
    }
}

/// What goes in the place of each of `placeholders`, or the error of the first
/// that fails.
pub open spec fn slot_contents(placeholders: Seq<Tree>, caller: Tree) -> Result<
    Seq<Seq<Tree>>,
    PageErrorModel,
>
    decreases placeholders.len(),
{
    if placeholders.len() == 0 {
        Ok(Seq::empty())
    } else {
        match slot_contents(placeholders.drop_last(), caller) {
            Err(error) => Err(error),
            Ok(front) => match slot_content(placeholders.last(), caller) {
                Err(error) => Err(error),
                Ok(content) => Ok(front.push(content)),
            },
        }
    }
}

/// `forest` with its slots filled from `caller`. Without a caller nothing
/// changes.
pub open spec fn fill_slots(forest: Seq<Tree>, caller: Option<Tree>) -> Result<
    Seq<Tree>,
    PageErrorModel,
> {
    match caller {
        None => Ok(forest),
        Some(from) => match slot_contents(elements(forest, "includeelement"@), from) {
            Err(error) => Err(error),
            Ok(plan) => Ok(replace(forest, "includeelement"@, plan, 0)),
        },
    }
}

/// What a resolved component hands to the page: the children of its first
/// `html` element.
pub open spec fn top_level_content(resolved: Seq<Tree>) -> Result<Seq<Tree>, PageErrorModel> {
    if elements(resolved, "html"@).len() == 0 {
        Err(PageErrorModel::Parse { missing: "html"@ })
    } else {
        Ok(elements(resolved, "html"@)[0].children)
    }
}

/// `forest` resolved: its slots filled from `caller`, then every `include`
/// element that has a `path` replaced by the content of its component, and the
/// others removed. Components may nest `depth` deep.
pub open spec fn resolve(
    forest: Seq<Tree>,
    sources: Seq<SourceModel>,
    root: Seq<char>,
    caller: Option<Tree>,
    depth: nat,
) -> Result<Seq<Tree>, PageErrorModel>
    decreases depth, 2nat, 0nat,
{
    match fill_slots(forest, caller) {
        Err(error) => Err(error),
        Ok(filled) => match include_contents(elements(filled, "include"@), sources, root, depth) {
            Err(error) => Err(error),
            Ok(plan) => Ok(replace(filled, "include"@, plan, 0)),
        },
    }
}

/// What goes in the place of each of `markers`, or the error of the first that
/// fails.
pub open spec fn include_contents(
    markers: Seq<Tree>,
    sources: Seq<SourceModel>,
    root: Seq<char>,
    depth: nat,
) -> Result<Seq<Seq<Tree>>, PageErrorModel>
    decreases depth, 1nat, markers.len(),
{
    if markers.len() == 0 {
        Ok(Seq::empty())
    } else {
        match include_contents(markers.drop_last(), sources, root, depth) {
            Err(error) => Err(error),
            Ok(front) => match include_content(markers.last(), sources, root, depth) {
                Err(error) => Err(error),
                Ok(content) => Ok(front.push(content)),
            },
        }
    }
}

/// What goes in the place of `marker`: nothing where it has no `path`, else
/// the content of the component of that path, resolved with `marker` as its
/// caller. A component whose text is not at hand, or is too long for the
/// parser, is an error.
pub open spec fn include_content(
    marker: Tree,
    sources: Seq<SourceModel>,
    root: Seq<char>,
    depth: nat,
) -> Result<Seq<Tree>, PageErrorModel>
    decreases depth, 0nat, 0nat,
{
    match marker.attribute("path"@) {
        None => Ok(Seq::empty()),
        Some(path) => if depth == 0 {
            Err(PageErrorModel::IncludeDepth)
        } else {
            match source_of(sources, join_path(root, path)) {
                None => Err(PageErrorModel::ComponentLoad { path: join_path(root, path) }),
                Some(source) => if !fits(source) {
                    Err(PageErrorModel::TooLong)
                } else {
                    match resolve(
                        source_document(source).children,
                        sources,
                        root,
                        Some(marker),
                        (depth - 1) as nat,
                    ) {
                        Err(error) => Err(error),
                        Ok(resolved) => top_level_content(resolved),
                    }
                },
            }
        },
    }
}

/// The model of an optional caller.
pub open spec fn caller_view(caller: Option<&Node>) -> Option<Tree> {
    match caller {
        None => None,
        Some(node) => Some(node@),
    }
}

/// The first of `children` that is an `exportelement` whose `class` is `name`.
pub fn export_named<'a>(children: &'a Vec<Node>, name: &str) -> (export: Option<&'a Node>)
    ensures
        match export {
            Some(node) => find_export(forest_view(children@), name@) == Some(node@),
            None => find_export(forest_view(children@), name@) is None,
        },
{
    let ghost trees = forest_view(children@);
    assert(trees.skip(0) =~= trees);
    let mut i: usize = 0;
    while i < children.len()
        invariant
            i <= children.len(),
            trees == forest_view(children@),
            find_export(trees, name@) == find_export(trees.skip(i as int), name@),
        decreases children.len() - i,
    {
        assert(trees.skip(i as int)[0] == children[i as int]@);
        assert(trees.skip(i as int).drop_first() =~= trees.skip(i + 1));
        if children[i].is_named("exportelement") {
            match children[i].attribute("class") {
                Some(class) => {
                    if class.as_str().eq(name) {
                        return Some(&children[i]);
                    }
                },
                None => {},
            }
        }
        i += 1;
    }
    None
}

/// What goes in the place of `placeholder`, given the element that takes the
/// component in.
pub fn fill_slot(placeholder: &Node, caller: &Node) -> (result: Result<Vec<Node>, PageError>)
    ensures
        agrees(result, slot_content(placeholder@, caller@)),
{
    match placeholder.attribute("name") {
        None => {
            let nothing: Vec<Node> = Vec::new();
            assert(forest_view(nothing@) =~= Seq::<Tree>::empty());
            Ok(nothing)
        },
        Some(name) => match export_named(&caller.children, name.as_str()) {
            None => Err(PageError::SlotNotFound { name: name.clone() }),
            Some(export) => Ok(strip_forest(&export.children, "includeelement")),
        },
    }
}

/// What a resolved component hands to the page: the children of its first
/// `html` element.
pub fn top_level(resolved: &Vec<Node>) -> (result: Result<Vec<Node>, PageError>)
    ensures
        agrees(result, top_level_content(forest_view(resolved@))),
{
    let found = select_all(resolved, "html");
    if found.len() == 0 {
        Err(PageError::Parse { missing: "html".to_owned() })
    } else {
        assert(borrowed_view(found@)[0] == found[0]@);
        Ok(copy_forest(&found[0].children))
    }
}

/// What goes in the place of `marker`.
pub fn resolve_marker(
    marker: &Node,
    sources: &Vec<Source>,
    root: &str,
    depth: usize,
) -> (result: Result<Vec<Node>, PageError>)
    ensures
        agrees(result, include_content(marker@, sources_view(sources@), root@, depth as nat)),
    decreases depth, 0nat,
{
    match marker.attribute("path") {
        None => {
            let nothing: Vec<Node> = Vec::new();
            assert(forest_view(nothing@) =~= Seq::<Tree>::empty());
            Ok(nothing)
        },
        Some(path) => {
            if depth == 0 {
                return Err(PageError::IncludeDepth);
            }
            let full = join(root, path.as_str());
            match find_source(sources, full.as_str()) {
                None => Err(PageError::ComponentLoad { path: full }),
                Some(source) => {
                    let component = match parse_source(source.as_str()) {
                        Ok(component) => component,
                        Err(error) => {
                            return Err(error);
                        },
                    };
                    match resolve_forest(
                        &component.children,
                        sources,
                        root,
                        Some(marker),
                        depth - 1,
                    ) {
                        Err(error) => Err(error),
                        Ok(resolved) => top_level(&resolved),
                    }
                },
            }
        },
    }
}

/// `forest` resolved.
pub fn resolve_forest(
    forest: &Vec<Node>,
    sources: &Vec<Source>,
    root: &str,
    caller: Option<&Node>,
    depth: usize,
) -> (result: Result<Vec<Node>, PageError>)
    ensures
        agrees(
            result,
            resolve(
                forest_view(forest@),
                sources_view(sources@),
                root@,
                caller_view(caller),
                depth as nat,
            ),
        ),
    decreases depth, 1nat,
{
    let filled: Vec<Node> = match caller {
        None => copy_forest(forest),
        Some(from) => {
            let placeholders = select_all(forest, "includeelement");
            let ghost found = borrowed_view(placeholders@);
            let mut plan: Vec<Vec<Node>> = Vec::new();
            let mut i: usize = 0;
            assert(found.take(0) =~= Seq::<Tree>::empty());
            assert(plan_view(plan@) =~= Seq::<Seq<Tree>>::empty());
            while i < placeholders.len()
                invariant
                    i <= placeholders.len(),
                    found == borrowed_view(placeholders@),
                    slot_contents(found.take(i as int), from@) == Ok::<Seq<Seq<Tree>>, PageErrorModel>(
                        plan_view(plan@),
                    ),
                    plan.len() == i,
                    caller_view(caller) == Some(from@),
                    found == elements(forest_view(forest@), "includeelement"@),
                decreases placeholders.len() - i,
            {
                assert(found.take(i + 1).drop_last() =~= found.take(i as int));
                assert(found.take(i + 1).last() == placeholders[i as int]@);
                match fill_slot(placeholders[i], from) {
                    Err(error) => {
                        proof {
                            lemma_slot_error(found, from@, i + 1);
                        }
                        return Err(error);
                    },
                    Ok(content) => {
                        let ghost before = plan_view(plan@);
                        plan.push(content);
                        assert(plan_view(plan@) =~= before.push(forest_view(content@)));
                    },
                }
                i += 1;
            }
            assert(found.take(placeholders.len() as int) =~= found);
            replace_forest(forest, "includeelement", &plan, 0).0
        },
    };
    let markers = select_all(&filled, "include");
    let ghost found = borrowed_view(markers@);
    let ghost models = sources_view(sources@);
    let mut plan: Vec<Vec<Node>> = Vec::new();
    let mut i: usize = 0;
    assert(found.take(0) =~= Seq::<Tree>::empty());
    assert(plan_view(plan@) =~= Seq::<Seq<Tree>>::empty());
    while i < markers.len()
        invariant
            i <= markers.len(),
            found == borrowed_view(markers@),
            models == sources_view(sources@),
            include_contents(found.take(i as int), models, root@, depth as nat) == Ok::<
                Seq<Seq<Tree>>,
                PageErrorModel,
            >(plan_view(plan@)),
            plan.len() == i,
            fill_slots(forest_view(forest@), caller_view(caller)) == Ok::<Seq<Tree>, PageErrorModel>(
                forest_view(filled@),
            ),
            found == elements(forest_view(filled@), "include"@),
        decreases markers.len() - i,
    {
        assert(found.take(i + 1).drop_last() =~= found.take(i as int));
        assert(found.take(i + 1).last() == markers[i as int]@);
        match resolve_marker(markers[i], sources, root, depth) {
            Err(error) => {
                proof {
                    lemma_include_error(found, models, root@, depth as nat, i + 1);
                }
                return Err(error);
            },
            Ok(content) => {
                let ghost before = plan_view(plan@);
                plan.push(content);
                assert(plan_view(plan@) =~= before.push(forest_view(content@)));
            },
        }
        i += 1;
    }
    assert(found.take(markers.len() as int) =~= found);
    Ok(replace_forest(&filled, "include", &plan, 0).0)
}

/// Resolves `document`: fills its slots from `include_from`, the element that
/// takes it in, where there is one, and puts the components in the place of
/// its `include` elements. `sources` holds the texts of the components under
/// their paths, and `root` is the directory that the `path` of an `include`
/// element is seen from.
///
/// Without a caller, the content of each component stands where its `include`
/// element stood, and everything else stays where it was.
///
/// The result holds no `include` element; with a caller it holds no
/// `includeelement` either. It holds no `exportelement` where, in the
/// document, below the caller and in the sources, each one is a child of an
/// `include` element.
pub fn expand_template(
    document: Node,
    sources: &Vec<Source>,
    root: &str,
    include_from: Option<&Node>,
) -> (result: Result<Node, PageError>)
    ensures
        match result {
            Ok(resolved) => {
                &&& resolved@.data == document@.data
                &&& resolve(
                    document@.children,
                    sources_view(sources@),
                    root@,
                    caller_view(include_from),
                    MAX_INCLUDE_DEPTH as nat,
                ) == Ok::<Seq<Tree>, PageErrorModel>(resolved@.children)
                &&& elements(resolved@.children, "include"@).len() == 0
                &&& include_from is Some ==> elements(resolved@.children, "includeelement"@).len()
                    == 0
                &&& include_from is None ==> resolved@.children == taken_in(
                    document@.children,
                    sources_view(sources@),
                    root@,
                    MAX_INCLUDE_DEPTH as nat,
                )
                &&& placed(document@.children, false) && sources_placed(sources_view(sources@))
                    && (include_from is Some ==> placed(include_from->0@.children, true))
                    ==> elements(resolved@.children, "exportelement"@).len() == 0
            },
            Err(error) => resolve(
                document@.children,
                sources_view(sources@),
                root@,
                caller_view(include_from),
                MAX_INCLUDE_DEPTH as nat,
            ) == Err::<Seq<Tree>, PageErrorModel>(error@),
        },
{
    match resolve_forest(&document.children, sources, root, include_from, MAX_INCLUDE_DEPTH) {
        Err(error) => Err(error),
        Ok(children) => {
            proof {
                lemma_resolve_leaves_no_marker(
                    document@.children,
                    sources_view(sources@),
                    root@,
                    caller_view(include_from),
                    MAX_INCLUDE_DEPTH as nat,
                );
                if include_from is None {
                    lemma_components_stand_in_place(
                        document@.children,
                        sources_view(sources@),
                        root@,
                        MAX_INCLUDE_DEPTH as nat,
                    );
                }
                if placed(document@.children, false) && sources_placed(sources_view(sources@))
                    && (include_from is Some ==> placed(include_from->0@.children, true)) {
                    lemma_resolve_leaves_no_export(
                        document@.children,
                        sources_view(sources@),
                        root@,
                        caller_view(include_from),
                        MAX_INCLUDE_DEPTH as nat,
                    );
                }
            }
            Ok(Node { data: document.data, children })
        },
    }
}

/// A resolved forest holds no `include` element. It holds no `includeelement`
/// either where it was resolved for a caller, or held none before.
pub proof fn lemma_resolve_leaves_no_marker(
    forest: Seq<Tree>,
    sources: Seq<SourceModel>,
    root: Seq<char>,
    caller: Option<Tree>,
    depth: nat,
)
    requires
        resolve(forest, sources, root, caller, depth) is Ok,
    ensures
        elements(resolve(forest, sources, root, caller, depth)->Ok_0, "include"@).len() == 0,
        caller is Some || elements(forest, "includeelement"@).len() == 0 ==> elements(
            resolve(forest, sources, root, caller, depth)->Ok_0,
            "includeelement"@,
        ).len() == 0,
    decreases depth, 2nat, 0nat,
{
    let filled = fill_slots(forest, caller)->Ok_0;
    let markers = elements(filled, "include"@);
    let plan = include_contents(markers, sources, root, depth)->Ok_0;
    lemma_include_contents_clean(markers, sources, root, depth);
    lemma_replace_leaves_none(filled, "include"@, plan, 0);
    if caller is Some || elements(forest, "includeelement"@).len() == 0 {
        if caller is Some {
            let slots = elements(forest, "includeelement"@);
            lemma_slot_contents_clean(slots, caller->0);
            lemma_replace_leaves_none(
                forest,
                "includeelement"@,
                slot_contents(slots, caller->0)->Ok_0,
                0,
            );
        }
        lemma_replace_keeps_out(filled, "include"@, plan, 0, "includeelement"@);
    }
}

/// What fills the slots holds no placeholder.
pub proof fn lemma_slot_contents_clean(placeholders: Seq<Tree>, caller: Tree)
    requires
        slot_contents(placeholders, caller) is Ok,
    ensures
        slot_contents(placeholders, caller)->Ok_0.len() == placeholders.len(),
        forall|i: int|
            0 <= i < placeholders.len() ==> elements(
                #[trigger] slot_contents(placeholders, caller)->Ok_0[i],
                "includeelement"@,
            ).len() == 0,
    decreases placeholders.len(),
{
    if placeholders.len() > 0 {
        lemma_slot_contents_clean(placeholders.drop_last(), caller);
        let last = placeholders.last();
        match last.attribute("name"@) {
            None => {},
            Some(name) => {
                lemma_strip_leaves_none(
                    find_export(caller.children, name)->0.children,
                    "includeelement"@,
                );
            },
        }
    }
}

/// What stands in the place of the markers holds neither an `include` element
/// nor a placeholder.
pub proof fn lemma_include_contents_clean(
    markers: Seq<Tree>,
    sources: Seq<SourceModel>,
    root: Seq<char>,
    depth: nat,
)
    requires
        include_contents(markers, sources, root, depth) is Ok,
    ensures
        include_contents(markers, sources, root, depth)->Ok_0.len() == markers.len(),
        forall|i: int|
            0 <= i < markers.len() ==> elements(
                #[trigger] include_contents(markers, sources, root, depth)->Ok_0[i],
                "include"@,
            ).len() == 0,
        forall|i: int|
            0 <= i < markers.len() ==> elements(
                #[trigger] include_contents(markers, sources, root, depth)->Ok_0[i],
                "includeelement"@,
            ).len() == 0,
    decreases depth, 1nat, markers.len(),
{
    if markers.len() > 0 {
        lemma_include_contents_clean(markers.drop_last(), sources, root, depth);
        lemma_include_content_clean(markers.last(), sources, root, depth);
    }
}

/// What stands in the place of one marker holds neither an `include` element
/// nor a placeholder.
pub proof fn lemma_include_content_clean(
    marker: Tree,
    sources: Seq<SourceModel>,
    root: Seq<char>,
    depth: nat,
)
    requires
        include_content(marker, sources, root, depth) is Ok,
    ensures
        elements(include_content(marker, sources, root, depth)->Ok_0, "include"@).len() == 0,
        elements(include_content(marker, sources, root, depth)->Ok_0, "includeelement"@).len() == 0,
    decreases depth, 0nat, 0nat,
{
    match marker.attribute("path"@) {
        None => {},
        Some(path) => {
            let source = source_of(sources, join_path(root, path))->0;
            let below = source_document(source).children;
            let inner = (depth - 1) as nat;
            lemma_resolve_leaves_no_marker(below, sources, root, Some(marker), inner);
            let resolved = resolve(below, sources, root, Some(marker), inner)->Ok_0;
            lemma_none_below(resolved, "html"@, "include"@, 0);
            lemma_none_below(resolved, "html"@, "includeelement"@, 0);
        },
    }
}

/// The contents of two runs of markers, one after the other: the contents of
/// the first run, then those of the second; or the error of the first marker
/// that fails.
pub proof fn lemma_include_contents_concat(
    first: Seq<Tree>,
    second: Seq<Tree>,
    sources: Seq<SourceModel>,
    root: Seq<char>,
    depth: nat,
)
    ensures
        include_contents(first + second, sources, root, depth) == (match include_contents(
            first,
            sources,
            root,
            depth,
        ) {
            Err(error) => Err(error),
            Ok(front) => match include_contents(second, sources, root, depth) {
                Err(error) => Err(error),
                Ok(back) => Ok(front + back),
            },
        }),
    decreases second.len(),
{
    let whole = first + second;
    if second.len() == 0 {
        assert(whole =~= first);
        if include_contents(first, sources, root, depth) is Ok {
            let front = include_contents(first, sources, root, depth)->Ok_0;
            assert(front + Seq::<Seq<Tree>>::empty() =~= front);
        }
    } else {
        assert(whole.drop_last() =~= first + second.drop_last());
        assert(whole.last() == second.last());
        lemma_include_contents_concat(first, second.drop_last(), sources, root, depth);
        if include_contents(whole, sources, root, depth) is Ok {
            let front = include_contents(first, sources, root, depth)->Ok_0;
            let back = include_contents(second.drop_last(), sources, root, depth)->Ok_0;
            let content = include_content(second.last(), sources, root, depth)->Ok_0;
            assert((front + back).push(content) =~= front + back.push(content));
        }
    }
}

/// Components are taken in tree by tree, in document order: two forests one
/// after the other resolve, without a caller, to what the first resolves to
/// and then what the second resolves to. So what comes of an element stands
/// after all that comes of the elements before it and before all that comes of
/// the elements after it.
pub proof fn lemma_resolve_keeps_order(
    first: Seq<Tree>,
    second: Seq<Tree>,
    sources: Seq<SourceModel>,
    root: Seq<char>,
    depth: nat,
)
    requires
        resolve(first + second, sources, root, None, depth) is Ok,
    ensures
        resolve(first, sources, root, None, depth) is Ok,
        resolve(second, sources, root, None, depth) is Ok,
        resolve(first + second, sources, root, None, depth)->Ok_0 == resolve(
            first,
            sources,
            root,
            None,
            depth,
        )->Ok_0 + resolve(second, sources, root, None, depth)->Ok_0,
{
    let before = elements(first, "include"@);
    let after = elements(second, "include"@);
    lemma_elements_concat(first, second, "include"@);
    lemma_include_contents_concat(before, after, sources, root, depth);
    let front = include_contents(before, sources, root, depth)->Ok_0;
    let back = include_contents(after, sources, root, depth)->Ok_0;
    let plan = front + back;
    lemma_include_contents_clean(before, sources, root, depth);
    lemma_include_contents_clean(after, sources, root, depth);
    lemma_replace_concat(first, second, "include"@, plan, 0);
    lemma_replace_agrees(first, "include"@, plan, 0, front, 0);
    lemma_replace_agrees(second, "include"@, plan, before.len() as int, back, 0);
}

/// An `include` element resolves, without a caller, to the content of its
/// component and nothing else.
pub proof fn lemma_resolve_marker(
    marker: Tree,
    sources: Seq<SourceModel>,
    root: Seq<char>,
    depth: nat,
)
    requires
        marker.is_named("include"@),
        resolve(seq![marker], sources, root, None, depth) is Ok,
    ensures
        include_content(marker, sources, root, depth) is Ok,
        resolve(seq![marker], sources, root, None, depth)->Ok_0 == include_content(
            marker,
            sources,
            root,
            depth,
        )->Ok_0,
{
    let inside = elements(marker.children, "include"@);
    lemma_elements_single(marker, "include"@);
    assert(elements(seq![marker], "include"@) == seq![marker] + inside);
    lemma_include_contents_concat(seq![marker], inside, sources, root, depth);
    let one = seq![marker];
    assert(one.drop_last() =~= Seq::<Tree>::empty());
    assert(one.last() == marker);
    assert(include_contents(one.drop_last(), sources, root, depth) == Ok::<
        Seq<Seq<Tree>>,
        PageErrorModel,
    >(Seq::empty()));
    let content = include_content(marker, sources, root, depth)->Ok_0;
    assert(include_contents(one, sources, root, depth)->Ok_0 == Seq::<Seq<Tree>>::empty().push(
        content,
    ));
    let plan = include_contents(elements(one, "include"@), sources, root, depth)->Ok_0;
    assert(plan[0] == content);
    assert(replace(one.drop_last(), "include"@, plan, 0) =~= Seq::<Tree>::empty());
    assert(elements(one.drop_last(), "include"@) =~= Seq::<Tree>::empty());
    assert(replace_in(marker, "include"@, plan, 0) == plan[0]);
    assert(replace(one, "include"@, plan, 0) =~= plan[0]);
}

/// Any other tree resolves, without a caller, to itself with its children
/// resolved: what comes of an element below a parent stands below that parent.
pub proof fn lemma_resolve_below(
    tree: Tree,
    sources: Seq<SourceModel>,
    root: Seq<char>,
    depth: nat,
)
    requires
        !tree.is_named("include"@),
        resolve(seq![tree], sources, root, None, depth) is Ok,
    ensures
        resolve(tree.children, sources, root, None, depth) is Ok,
        resolve(seq![tree], sources, root, None, depth)->Ok_0 == seq![
            Tree {
                data: tree.data,
                children: resolve(tree.children, sources, root, None, depth)->Ok_0,
            },
        ],
{
    let one = seq![tree];
    lemma_elements_single(tree, "include"@);
    let plan = include_contents(elements(one, "include"@), sources, root, depth)->Ok_0;
    assert(one.drop_last() =~= Seq::<Tree>::empty());
    assert(one.last() == tree);
    assert(replace(one.drop_last(), "include"@, plan, 0) =~= Seq::<Tree>::empty());
    assert(elements(one.drop_last(), "include"@) =~= Seq::<Tree>::empty());
    assert(replace_in(tree, "include"@, plan, 0) == seq![
        Tree { data: tree.data, children: replace(tree.children, "include"@, plan, 0) },
    ]);
    assert(replace(one, "include"@, plan, 0) =~= replace_in(tree, "include"@, plan, 0));
}

/// `forest` with the content of its component in the place of every outermost
/// `include` element, wherever it stands, and everything else where it was.
pub open spec fn taken_in(
    forest: Seq<Tree>,
    sources: Seq<SourceModel>,
    root: Seq<char>,
    depth: nat,
) -> Seq<Tree>
    decreases forest,
{
    if forest.len() == 0 {
        Seq::empty()
    } else {
        taken_in(forest.drop_last(), sources, root, depth) + taken_in_tree(
            forest.last(),
            sources,
            root,
            depth,
        )
    }
}

/// What stands in the place of `tree`: the content of its component where it
/// is an `include` element, else `tree` itself with the same done to its
/// children.
pub open spec fn taken_in_tree(
    tree: Tree,
    sources: Seq<SourceModel>,
    root: Seq<char>,
    depth: nat,
) -> Seq<Tree>
    decreases tree,
{
    if tree.is_named("include"@) {
        include_content(tree, sources, root, depth)->Ok_0
    } else {
        seq![Tree { data: tree.data, children: taken_in(tree.children, sources, root, depth) }]
    }
}

/// Components stand where their markers stood: a forest resolves, without a
/// caller, to itself with the content of its component in the place of every
/// outermost `include` element. So under every parent, and among any other
/// nodes, what comes of one marker is in one piece, after what comes of the
/// markers before it and before what comes of the markers after it.
pub proof fn lemma_components_stand_in_place(
    forest: Seq<Tree>,
    sources: Seq<SourceModel>,
    root: Seq<char>,
    depth: nat,
)
    requires
        resolve(forest, sources, root, None, depth) is Ok,
    ensures
        resolve(forest, sources, root, None, depth)->Ok_0 == taken_in(
            forest,
            sources,
            root,
            depth,
        ),
    decreases forest, 1nat,
{
    if forest.len() == 0 {
        assert(elements(forest, "include"@) =~= Seq::<Tree>::empty());
        assert(replace(forest, "include"@, Seq::<Seq<Tree>>::empty(), 0) =~= Seq::<Tree>::empty());
    } else {
        let front = forest.drop_last();
        let last = forest.last();
        assert(forest =~= front + seq![last]);
        lemma_resolve_keeps_order(front, seq![last], sources, root, depth);
        lemma_components_stand_in_place(front, sources, root, depth);
        lemma_component_stands_in_place(last, sources, root, depth);
    }
}

/// [`lemma_components_stand_in_place`] for one tree.
pub proof fn lemma_component_stands_in_place(
    tree: Tree,
    sources: Seq<SourceModel>,
    root: Seq<char>,
    depth: nat,
)
    requires
        resolve(seq![tree], sources, root, None, depth) is Ok,
    ensures
        resolve(seq![tree], sources, root, None, depth)->Ok_0 == taken_in_tree(
            tree,
            sources,
            root,
            depth,
        ),
    decreases tree, 0nat,
{
    if tree.is_named("include"@) {
        lemma_resolve_marker(tree, sources, root, depth);
    } else {
        lemma_resolve_below(tree, sources, root, depth);
        lemma_components_stand_in_place(tree.children, sources, root, depth);
    }
}

/// The bound on the depth is no part of the result: a forest that resolves
/// with components nested `depth` deep resolves to the same with any deeper
/// bound. The bound only ends what would go on for ever.
pub proof fn lemma_deeper_bound_same_result(
    forest: Seq<Tree>,
    sources: Seq<SourceModel>,
    root: Seq<char>,
    caller: Option<Tree>,
    depth: nat,
)
    requires
        resolve(forest, sources, root, caller, depth) is Ok,
    ensures
        resolve(forest, sources, root, caller, depth + 1) == resolve(
            forest,
            sources,
            root,
            caller,
            depth,
        ),
    decreases depth, 2nat, 0nat,
{
    let filled = fill_slots(forest, caller)->Ok_0;
    lemma_deeper_bound_same_contents(elements(filled, "include"@), sources, root, depth);
}

/// [`lemma_deeper_bound_same_result`] for the contents of markers.
pub proof fn lemma_deeper_bound_same_contents(
    markers: Seq<Tree>,
    sources: Seq<SourceModel>,
    root: Seq<char>,
    depth: nat,
)
    requires
        include_contents(markers, sources, root, depth) is Ok,
    ensures
        include_contents(markers, sources, root, depth + 1) == include_contents(
            markers,
            sources,
            root,
            depth,
        ),
    decreases depth, 1nat, markers.len(),
{
    if markers.len() > 0 {
        lemma_deeper_bound_same_contents(markers.drop_last(), sources, root, depth);
        lemma_deeper_bound_same_content(markers.last(), sources, root, depth);
    }
}

/// [`lemma_deeper_bound_same_result`] for the content of one marker.
pub proof fn lemma_deeper_bound_same_content(
    marker: Tree,
    sources: Seq<SourceModel>,
    root: Seq<char>,
    depth: nat,
)
    requires
        include_content(marker, sources, root, depth) is Ok,
    ensures
        include_content(marker, sources, root, depth + 1) == include_content(
            marker,
            sources,
            root,
            depth,
        ),
    decreases depth, 0nat, 0nat,
{
    match marker.attribute("path"@) {
        None => {},
        Some(path) => {
            let source = source_of(sources, join_path(root, path))->0;
            lemma_deeper_bound_same_result(
                source_document(source).children,
                sources,
                root,
                Some(marker),
                (depth - 1) as nat,
            );
        },
    }
}

/// Sibling `include` elements keep their order: a forest of such elements,
/// none of which holds another, resolves without a caller to the contents of
/// their components, in the order of the elements.
pub proof fn lemma_includes_keep_their_order(
    markers: Seq<Tree>,
    sources: Seq<SourceModel>,
    root: Seq<char>,
    depth: nat,
)
    requires
        forall|i: int|
            0 <= i < markers.len() ==> (#[trigger] markers[i]).is_named("include"@) && elements(
                markers[i].children,
                "include"@,
            ).len() == 0,
        include_contents(markers, sources, root, depth) is Ok,
    ensures
        resolve(markers, sources, root, None, depth) == Ok::<Seq<Tree>, PageErrorModel>(
            plan_span(
                include_contents(markers, sources, root, depth)->Ok_0,
                0,
                markers.len() as int,
            ),
        ),
{
    let plan = include_contents(markers, sources, root, depth)->Ok_0;
    lemma_siblings_keep_their_order(markers, "include"@, plan, 0);
}

/// An error among the first `count` placeholders is the error of them all.
pub proof fn lemma_slot_error(placeholders: Seq<Tree>, caller: Tree, count: int)
    requires
        0 <= count <= placeholders.len(),
        slot_contents(placeholders.take(count), caller) is Err,
    ensures
        slot_contents(placeholders, caller) == slot_contents(placeholders.take(count), caller),
    decreases placeholders.len() - count,
{
    if count == placeholders.len() {
        assert(placeholders.take(count) =~= placeholders);
    } else {
        assert(placeholders.take(count + 1).drop_last() =~= placeholders.take(count));
        lemma_slot_error(placeholders, caller, count + 1);
    }
}

/// An error among the first `count` markers is the error of them all.
pub proof fn lemma_include_error(
    markers: Seq<Tree>,
    sources: Seq<SourceModel>,
    root: Seq<char>,
    depth: nat,
    count: int,
)
    requires
        0 <= count <= markers.len(),
        include_contents(markers.take(count), sources, root, depth) is Err,
    ensures
        include_contents(markers, sources, root, depth) == include_contents(
            markers.take(count),
            sources,
            root,
            depth,
        ),
    decreases markers.len() - count,
{
    if count == markers.len() {
        assert(markers.take(count) =~= markers);
    } else {
        assert(markers.take(count + 1).drop_last() =~= markers.take(count));
        lemma_include_error(markers, sources, root, depth, count + 1);
    }
}

} // verus!
