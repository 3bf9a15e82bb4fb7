//! Numbering the footnotes of a page.
//!
//! A `footnote` element marks annotated text, and one `footnotecontainer`
//! element marks where the notes are listed. The markers are numbered from 1
//! in document order. A reference to its note stands in the place of each
//! marker, and the notes stand in the place of the container, in the order of
//! their markers.
//!
//! References and notes are built node by node. The text of a marker goes into
//! them as text: a quote or an angle bracket in it is no markup.

use vstd::prelude::*;
use vstd::string::StringExecFns;
use crate::error::PageError;
use crate::html::xhtml;
use crate::splice::{
    append_copies, lemma_elements_concat, lemma_elements_prefix, lemma_elements_single,
    lemma_padded_full, padded, plan_view,
};
use crate::text::{decimal, decimal_string};
use crate::tree::{
    AttributeModel, Attributes, DataModel, Node, NodeData, Tree, borrowed_view, elements,
    elements_in, forest_view, lemma_elements_step, select_all, text_content, with_attribute,
};

verus! {

/// The attribute `name` with the value `value` and no namespace.
pub open spec fn plain_attribute(name: Seq<char>, value: Seq<char>) -> AttributeModel {
    AttributeModel { namespace: Seq::empty(), name, value }
}

/// The element of HTML called `name` with the given attributes and children.
pub open spec fn html_element(
    name: Seq<char>,
    attributes: Seq<AttributeModel>,
    children: Seq<Tree>,
) -> Tree {
    Tree { data: DataModel::Element { namespace: xhtml(), name, attributes }, children }
}

/// The text node that holds `text`.
pub open spec fn text_node(text: Seq<char>) -> Tree {
    Tree { data: DataModel::Text(text), children: Seq::empty() }
}

/// The reference to note `number`, whose text is `text`: a link to the note
/// around the raised number, with the text as the title of the number.
pub open spec fn reference_tree(number: nat, text: Seq<char>) -> Tree {
    html_element(
        "a"@,
        seq![plain_attribute("href"@, "#ft-text-"@ + decimal(number))],
        seq![
            html_element(
                "sup"@,
                seq![
                    plain_attribute("id"@, "ft-sup-"@ + decimal(number)),
                    plain_attribute("title"@, text),
                ],
                seq![text_node(decimal(number))],
            ),
        ],
    )
}

/// Note `number`, whose text is `text`: a paragraph with a link back to the
/// reference around the number and a colon, then a space and the text.
pub open spec fn definition_tree(number: nat, text: Seq<char>) -> Tree {
    html_element(
        "p"@,
        seq![plain_attribute("id"@, "ft-text-"@ + decimal(number))],
        seq![
            html_element(
                "a"@,
                seq![plain_attribute("href"@, "#ft-sup-"@ + decimal(number))],
                seq![text_node(decimal(number) + ":"@)],
            ),
            text_node(" "@ + text),
        ],
    )
}

/// The reference of each of `markers`. The marker at index `i` has the number
/// `i + 1`.
pub open spec fn references_of(markers: Seq<Tree>) -> Seq<Seq<Tree>> {
    Seq::new(
        markers.len(),
        |i: int| seq![reference_tree((i + 1) as nat, text_content(markers[i]))],
    )
}

/// The notes of `markers`, in the order of the markers.
pub open spec fn definitions_of(markers: Seq<Tree>) -> Seq<Tree> {
    Seq::new(markers.len(), |i: int| definition_tree((i + 1) as nat, text_content(markers[i])))
}

/// What `tree` becomes: a marker gives way to its reference, and the
/// container, where `armed` says that none came before, to the notes. The
/// markers in `tree` have the references from `base` on.
pub open spec fn rewrite_in(
    tree: Tree,
    references: Seq<Seq<Tree>>,
    definitions: Seq<Tree>,
    base: int,
    armed: bool,
) -> Seq<Tree>
    decreases tree,
{
    if tree.is_named("footnote"@) {
        references[base]
    } else if armed && tree.is_named("footnotecontainer"@) {
        definitions
    } else {
        seq![
            Tree {
                data: tree.data,
                children: rewrite(tree.children, references, definitions, base, armed),
            },
        ]
    }
}

/// What `forest` becomes: each outermost marker gives way to its reference,
/// and the first container in document order to the notes.
pub open spec fn rewrite(
    forest: Seq<Tree>,
    references: Seq<Seq<Tree>>,
    definitions: Seq<Tree>,
    base: int,
    armed: bool,
) -> Seq<Tree>
    decreases forest,
{
    if forest.len() == 0 {
        Seq::empty()
    } else {
        let front = forest.drop_last();
        rewrite(front, references, definitions, base, armed) + rewrite_in(
            forest.last(),
            references,
            definitions,
            base + elements(front, "footnote"@).len(),
            armed && elements(front, "footnotecontainer"@).len() == 0,
        )
    }
}

/// `forest` with its footnotes numbered. Without a container nothing changes.
pub open spec fn with_footnotes(forest: Seq<Tree>) -> Seq<Tree> {
    if elements(forest, "footnotecontainer"@).len() == 0 {
        forest
    } else {
        rewrite(
            forest,
            references_of(elements(forest, "footnote"@)),
            definitions_of(elements(forest, "footnote"@)),
            0,
            true,
        )
    }
}

/// Unfolds [`rewrite`] by one tree at the end of a prefix of `forest`.
pub proof fn lemma_rewrite_step(
    forest: Seq<Tree>,
    references: Seq<Seq<Tree>>,
    definitions: Seq<Tree>,
    base: int,
    armed: bool,
    i: int,
)
    requires
        0 <= i < forest.len(),
    ensures
        rewrite(forest.take(i + 1), references, definitions, base, armed) == rewrite(
            forest.take(i),
            references,
            definitions,
            base,
            armed,
        ) + rewrite_in(
            forest[i],
            references,
            definitions,
            base + elements(forest.take(i), "footnote"@).len(),
            armed && elements(forest.take(i), "footnotecontainer"@).len() == 0,
        ),
{
    assert(forest.take(i + 1).drop_last() =~= forest.take(i));
}

/// Where neither a reference that is used nor the notes hold a marker, none is
/// left.
pub proof fn lemma_rewrite_leaves_none(
    forest: Seq<Tree>,
    references: Seq<Seq<Tree>>,
    definitions: Seq<Tree>,
    base: int,
    armed: bool,
)
    requires
        0 <= base,
        base + elements(forest, "footnote"@).len() <= references.len(),
        forall|i: int|
            base <= i < base + elements(forest, "footnote"@).len() ==> elements(
                #[trigger] references[i],
                "footnote"@,
            ).len() == 0,
        elements(definitions, "footnote"@).len() == 0,
    ensures
        elements(rewrite(forest, references, definitions, base, armed), "footnote"@).len() == 0,
    decreases forest, 1nat,
{
    if forest.len() > 0 {
        let front = forest.drop_last();
        let offset = base + elements(front, "footnote"@).len();
        let still = armed && elements(front, "footnotecontainer"@).len() == 0;
        lemma_rewrite_leaves_none(front, references, definitions, base, armed);
        lemma_rewrite_in_leaves_none(forest.last(), references, definitions, offset, still);
        lemma_elements_concat(
            rewrite(front, references, definitions, base, armed),
            rewrite_in(forest.last(), references, definitions, offset, still),
            "footnote"@,
        );
    }
}

/// [`lemma_rewrite_leaves_none`] for one tree.
pub proof fn lemma_rewrite_in_leaves_none(
    tree: Tree,
    references: Seq<Seq<Tree>>,
    definitions: Seq<Tree>,
    base: int,
    armed: bool,
)
    requires
        0 <= base,
        base + elements_in(tree, "footnote"@).len() <= references.len(),
        forall|i: int|
            base <= i < base + elements_in(tree, "footnote"@).len() ==> elements(
                #[trigger] references[i],
                "footnote"@,
            ).len() == 0,
        elements(definitions, "footnote"@).len() == 0,
    ensures
        elements(rewrite_in(tree, references, definitions, base, armed), "footnote"@).len() == 0,
    decreases tree, 0nat,
{
    if !tree.is_named("footnote"@) && !(armed && tree.is_named("footnotecontainer"@)) {
        lemma_rewrite_leaves_none(tree.children, references, definitions, base, armed);
        let kept = Tree {
            data: tree.data,
            children: rewrite(tree.children, references, definitions, base, armed),
        };
        lemma_elements_single(kept, "footnote"@);
    }
}

/// Where a forest holds one container at most, and neither a reference that is
/// used nor the notes hold one, none is left.
pub proof fn lemma_rewrite_leaves_no_container(
    forest: Seq<Tree>,
    references: Seq<Seq<Tree>>,
    definitions: Seq<Tree>,
    base: int,
    armed: bool,
)
    requires
        0 <= base,
        base + elements(forest, "footnote"@).len() <= references.len(),
        forall|i: int|
            base <= i < base + elements(forest, "footnote"@).len() ==> elements(
                #[trigger] references[i],
                "footnotecontainer"@,
            ).len() == 0,
        elements(definitions, "footnotecontainer"@).len() == 0,
        elements(forest, "footnotecontainer"@).len() <= (if armed {
            1nat
        } else {
            0nat
        }),
    ensures
        elements(
            rewrite(forest, references, definitions, base, armed),
            "footnotecontainer"@,
        ).len() == 0,
    decreases forest, 1nat,
{
    if forest.len() > 0 {
        let front = forest.drop_last();
        let offset = base + elements(front, "footnote"@).len();
        let still = armed && elements(front, "footnotecontainer"@).len() == 0;
        lemma_rewrite_leaves_no_container(front, references, definitions, base, armed);
        lemma_rewrite_in_leaves_no_container(forest.last(), references, definitions, offset, still);
        lemma_elements_concat(
            rewrite(front, references, definitions, base, armed),
            rewrite_in(forest.last(), references, definitions, offset, still),
            "footnotecontainer"@,
        );
    }
}

/// [`lemma_rewrite_leaves_no_container`] for one tree.
pub proof fn lemma_rewrite_in_leaves_no_container(
    tree: Tree,
    references: Seq<Seq<Tree>>,
    definitions: Seq<Tree>,
    base: int,
    armed: bool,
)
    requires
        0 <= base,
        base + elements_in(tree, "footnote"@).len() <= references.len(),
        forall|i: int|
            base <= i < base + elements_in(tree, "footnote"@).len() ==> elements(
                #[trigger] references[i],
                "footnotecontainer"@,
            ).len() == 0,
        elements(definitions, "footnotecontainer"@).len() == 0,
        elements_in(tree, "footnotecontainer"@).len() <= (if armed {
            1nat
        } else {
            0nat
        }),
    ensures
        elements(
            rewrite_in(tree, references, definitions, base, armed),
            "footnotecontainer"@,
        ).len() == 0,
    decreases tree, 0nat,
{
    if !tree.is_named("footnote"@) && !(armed && tree.is_named("footnotecontainer"@)) {
        lemma_rewrite_leaves_no_container(tree.children, references, definitions, base, armed);
        let kept = Tree {
            data: tree.data,
            children: rewrite(tree.children, references, definitions, base, armed),
        };
        lemma_elements_single(kept, "footnotecontainer"@);
    }
}


/// A reference holds no element of a name other than `a` and `sup`.
pub proof fn lemma_reference_holds_no(number: nat, text: Seq<char>, tag: Seq<char>)
    requires
        tag != "a"@,
        tag != "sup"@,
    ensures
        elements(seq![reference_tree(number, text)], tag).len() == 0,
{
    let digits = text_node(decimal(number));
    let raised = html_element(
        "sup"@,
        seq![
            plain_attribute("id"@, "ft-sup-"@ + decimal(number)),
            plain_attribute("title"@, text),
        ],
        seq![digits],
    );
    lemma_elements_single(digits, tag);
    assert(elements(digits.children, tag) =~= Seq::<Tree>::empty());
    lemma_elements_single(raised, tag);
    lemma_elements_single(reference_tree(number, text), tag);
}

/// A note holds no element of a name other than `p` and `a`.
pub proof fn lemma_definition_holds_no(number: nat, text: Seq<char>, tag: Seq<char>)
    requires
        tag != "p"@,
        tag != "a"@,
    ensures
        elements_in(definition_tree(number, text), tag).len() == 0,
{
    let label = text_node(decimal(number) + ":"@);
    let link = html_element(
        "a"@,
        seq![plain_attribute("href"@, "#ft-sup-"@ + decimal(number))],
        seq![label],
    );
    let rest = text_node(" "@ + text);
    lemma_elements_single(label, tag);
    assert(elements(label.children, tag) =~= Seq::<Tree>::empty());
    lemma_elements_single(link, tag);
    lemma_elements_single(rest, tag);
    assert(elements(rest.children, tag) =~= Seq::<Tree>::empty());
    lemma_elements_concat(seq![link], seq![rest], tag);
    assert(seq![link, rest] =~= seq![link] + seq![rest]);
}

/// The notes hold no element of a name other than `p` and `a`.
pub proof fn lemma_definitions_hold_no(markers: Seq<Tree>, tag: Seq<char>)
    requires
        tag != "p"@,
        tag != "a"@,
    ensures
        elements(definitions_of(markers), tag).len() == 0,
    decreases markers.len(),
{
    if markers.len() > 0 {
        let notes = definitions_of(markers);
        assert(notes.drop_last() =~= definitions_of(markers.drop_last()));
        lemma_definitions_hold_no(markers.drop_last(), tag);
        lemma_definition_holds_no(
            markers.len(),
            text_content(markers[markers.len() - 1]),
            tag,
        );
    }
}

/// The names of the elements that the pass looks for differ from the names of
/// the elements that it makes.
pub proof fn lemma_footnote_names_differ()
    ensures
        "footnote"@ != "a"@,
        "footnote"@ != "sup"@,
        "footnote"@ != "p"@,
        "footnotecontainer"@ != "a"@,
        "footnotecontainer"@ != "sup"@,
        "footnotecontainer"@ != "p"@,
{
    reveal_strlit("footnote");
    reveal_strlit("footnotecontainer");
    reveal_strlit("a");
    reveal_strlit("sup");
    reveal_strlit("p");
    assert("footnote"@.len() == 8);
    assert("footnotecontainer"@.len() == 17);
    assert("a"@.len() == 1);
    assert("sup"@.len() == 3);
    assert("p"@.len() == 1);
}

/// The element of HTML called `name` with the given attributes and children.
pub fn element(name: &str, attributes: Attributes, children: Vec<Node>) -> (node: Node)
    ensures
        node@ == html_element(name@, attributes@, forest_view(children@)),
{
    Node {
        data: NodeData::Element {
            namespace: "http://www.w3.org/1999/xhtml".to_owned(),
            name: name.to_owned(),
            attributes,
        },
        children,
    }
}

/// The one attribute `name` with the value `value`.
pub fn one_attribute(name: &str, value: String) -> (attributes: Attributes)
    ensures
        attributes@ == seq![plain_attribute(name@, value@)],
{
    let mut attributes = Attributes::new();
    attributes.insert(name, value);
    assert(with_attribute(Seq::empty(), name@, value@) =~= seq![
        plain_attribute(name@, value@),
    ]);
    attributes
}

/// The one node `node`.
fn one_node(node: Node) -> (nodes: Vec<Node>)
    ensures
        forest_view(nodes@) == seq![node@],
{
    let mut nodes: Vec<Node> = Vec::new();
    nodes.push(node);
    assert(forest_view(nodes@) =~= seq![node@]);
    nodes
}

/// The reference to note `number`, whose text is `text`.
pub fn reference_node(number: usize, text: &str) -> (node: Node)
    ensures
        node@ == reference_tree(number as nat, text@),
{
    let digits = decimal_string(number);
    let mut raised = one_attribute("id", "ft-sup-".to_owned().concat(digits.as_str()));
    let ghost first = plain_attribute("id"@, "ft-sup-"@ + digits@);
    raised.insert("title", text.to_owned());
    proof {
        reveal_strlit("id");
        reveal_strlit("title");
        assert("id"@.len() != "title"@.len());
        let one = seq![first];
        assert(one.drop_first() =~= Seq::<AttributeModel>::empty());
        assert(with_attribute(one.drop_first(), "title"@, text@) =~= seq![
            plain_attribute("title"@, text@),
        ]);
        assert(with_attribute(one, "title"@, text@) =~= seq![
            first,
            plain_attribute("title"@, text@),
        ]);
    }
    let sup = element("sup", raised, one_node(Node::text(digits.clone())));
    element(
        "a",
        one_attribute("href", "#ft-text-".to_owned().concat(digits.as_str())),
        one_node(sup),
    )
}

/// Note `number`, whose text is `text`.
pub fn definition_node(number: usize, text: &str) -> (node: Node)
    ensures
        node@ == definition_tree(number as nat, text@),
{
    let digits = decimal_string(number);
    let label = Node::text(digits.clone().concat(":"));
    let link = element(
        "a",
        one_attribute("href", "#ft-sup-".to_owned().concat(digits.as_str())),
        one_node(label),
    );
    let rest = Node::text(" ".to_owned().concat(text));
    let mut children = one_node(link);
    let ghost before = forest_view(children@);
    children.push(rest);
    assert(forest_view(children@) =~= before.push(rest@));
    assert(before.push(rest@) =~= seq![link@, rest@]);
    element("p", one_attribute("id", "ft-text-".to_owned().concat(digits.as_str())), children)
}

/// Appends to `out` what `node` becomes, and returns the reference that
/// belongs to the next marker after `node`, and whether the container is still
/// to come.
pub(crate) fn rewrite_node(
    node: &Node,
    references: &Vec<Vec<Node>>,
    definitions: &Vec<Node>,
    base: usize,
    armed: bool,
    out: &mut Vec<Node>,
) -> (next: (usize, bool))
    requires
        base + elements_in(node@, "footnote"@).len() <= references.len(),
    ensures
        forest_view(final(out)@) == forest_view(old(out)@) + rewrite_in(
            node@,
            plan_view(references@),
            forest_view(definitions@),
            base as int,
            armed,
        ),
        next.0 == base + elements_in(node@, "footnote"@).len(),
        next.1 == (armed && elements_in(node@, "footnotecontainer"@).len() == 0),
    decreases node, 0nat,
{
    if node.is_named("footnote") {
        let markers = node.select("footnote");
        let containers = node.select("footnotecontainer");
        append_copies(out, &references[base]);
        (base + markers.len(), armed && containers.len() == 0)
    } else if armed && node.is_named("footnotecontainer") {
        let markers = node.select("footnote");
        append_copies(out, definitions);
        (base + markers.len(), false)
    } else {
        let (children, next, still) = rewrite_forest(
            &node.children,
            references,
            definitions,
            base,
            armed,
        );
        let ghost before = forest_view(out@);
        let kept = Node { data: node.data.copy(), children };
        out.push(kept);
        assert(forest_view(out@) =~= before + seq![kept@]);
        (next, still)
    }
}

/// What `forest` becomes, the reference that belongs to the next marker after
/// it, and whether the container is still to come.
pub(crate) fn rewrite_forest(
    forest: &Vec<Node>,
    references: &Vec<Vec<Node>>,
    definitions: &Vec<Node>,
    base: usize,
    armed: bool,
) -> (out: (Vec<Node>, usize, bool))
    requires
        base + elements(forest_view(forest@), "footnote"@).len() <= references.len(),
    ensures
        forest_view(out.0@) == rewrite(
            forest_view(forest@),
            plan_view(references@),
            forest_view(definitions@),
            base as int,
            armed,
        ),
        out.1 == base + elements(forest_view(forest@), "footnote"@).len(),
        out.2 == (armed && elements(forest_view(forest@), "footnotecontainer"@).len() == 0),
    decreases forest, 1nat,
{
    let ghost trees = forest_view(forest@);
    let ghost plan = plan_view(references@);
    let ghost notes = forest_view(definitions@);
    let mut rewritten: Vec<Node> = Vec::new();
    let mut cursor: usize = base;
    let mut still: bool = armed;
    let mut i: usize = 0;
    assert(forest_view(rewritten@) =~= rewrite(trees.take(0), plan, notes, base as int, armed));
    while i < forest.len()
        invariant
            i <= forest.len(),
            trees == forest_view(forest@),
            plan == plan_view(references@),
            notes == forest_view(definitions@),
            base + elements(trees, "footnote"@).len() <= references.len(),
            cursor == base + elements(trees.take(i as int), "footnote"@).len(),
            still == (armed && elements(trees.take(i as int), "footnotecontainer"@).len() == 0),
            forest_view(rewritten@) == rewrite(trees.take(i as int), plan, notes, base as int, armed),
        decreases forest.len() - i,
    {
        proof {
            lemma_elements_step(trees, "footnote"@, i as int);
            lemma_elements_step(trees, "footnotecontainer"@, i as int);
            lemma_elements_prefix(trees, "footnote"@, i + 1);
            lemma_rewrite_step(trees, plan, notes, base as int, armed, i as int);
        }
        let next = rewrite_node(&forest[i], references, definitions, cursor, still, &mut rewritten);
        cursor = next.0;
        still = next.1;
        i += 1;
    }
    assert(trees.take(forest.len() as int) =~= trees);
    (rewritten, cursor, still)
}

/// `document` with `references[i]` in the place of its marker number `i`, and
/// `definitions` in the place of its first container. A marker or a container
/// inside a marker goes with the outer one, and a marker without a reference
/// stays as it is.
pub fn splice_footnotes(
    document: &Node,
    references: Vec<Vec<Node>>,
    definitions: &Vec<Node>,
) -> (spliced:
    Node)
    ensures
        spliced@.data == document@.data,
        spliced@.children == rewrite(
            document@.children,
            padded(plan_view(references@), elements(document@.children, "footnote"@)),
            forest_view(definitions@),
            0,
            true,
        ),
{
    let markers = select_all(&document.children, "footnote");
    let ghost found = borrowed_view(markers@);
    let ghost given = plan_view(references@);
    let mut references = references;
    references.truncate(markers.len());
    let mut i: usize = references.len();
    while i < markers.len()
        invariant
            i == references.len(),
            i <= markers.len(),
            i < markers.len() ==> i >= given.len(),
            found == borrowed_view(markers@),
            forall|j: int|
                0 <= j < i ==> forest_view(#[trigger] references[j]@) == padded(given, found)[j],
        decreases markers.len() - i,
    {
        let mut own: Vec<Node> = Vec::new();
        own.push(markers[i].copy());
        assert(forest_view(own@) =~= seq![found[i as int]]);
        references.push(own);
        i += 1;
    }
    assert(plan_view(references@) =~= padded(given, found));
    let (children, _, _) = rewrite_forest(&document.children, &references, definitions, 0, true);
    Node { data: document.data.copy(), children }
}


/// Numbers the footnotes of `document`. A document without a container comes
/// back as it is. Else no `footnote` element is left in it, and no
/// `footnotecontainer` where it held one only.
pub fn generate_footnotes(document: Node) -> (result: Result<Node, PageError>)
    ensures
        result is Ok,
        result->Ok_0@.data == document@.data,
        result->Ok_0@.children == with_footnotes(document@.children),
        elements(document@.children, "footnotecontainer"@).len() > 0 ==> elements(
            result->Ok_0@.children,
            "footnote"@,
        ).len() == 0,
        elements(document@.children, "footnotecontainer"@).len() == 1 ==> elements(
            result->Ok_0@.children,
            "footnotecontainer"@,
        ).len() == 0,
{
    let containers = select_all(&document.children, "footnotecontainer");
    if containers.len() == 0 {
        return Ok(document);
    }
    let markers = select_all(&document.children, "footnote");
    let ghost found = borrowed_view(markers@);
    let mut references: Vec<Vec<Node>> = Vec::new();
    let mut definitions: Vec<Node> = Vec::new();
    let mut i: usize = 0;
    while i < markers.len()
        invariant
            i <= markers.len(),
            found == borrowed_view(markers@),
            references.len() == i,
            definitions.len() == i,
            forall|j: int|
                0 <= j < i ==> forest_view(#[trigger] references[j]@) == references_of(found)[j],
            forall|j: int| 0 <= j < i ==> (#[trigger] definitions[j])@ == definitions_of(found)[j],
        decreases markers.len() - i,
    {
        assert(found[i as int] == markers[i as int]@);
        let text = markers[i].text_contents();
        references.push(one_node(reference_node(i + 1, text.as_str())));
        definitions.push(definition_node(i + 1, text.as_str()));
        i += 1;
    }
    let ghost plan = plan_view(references@);
    let ghost notes = forest_view(definitions@);
    assert(plan =~= references_of(found));
    assert(notes =~= definitions_of(found));
    proof {
        lemma_padded_full(plan, found);
    }
    let numbered = splice_footnotes(&document, references, &definitions);
    proof {
        lemma_footnote_names_differ();
        assert forall|k: int| 0 <= k < found.len() implies elements(
            #[trigger] plan[k],
            "footnote"@,
        ).len() == 0 && elements(plan[k], "footnotecontainer"@).len() == 0 by {
            lemma_reference_holds_no((k + 1) as nat, text_content(found[k]), "footnote"@);
            lemma_reference_holds_no(
                (k + 1) as nat,
                text_content(found[k]),
                "footnotecontainer"@,
            );
        }
        lemma_definitions_hold_no(found, "footnote"@);
        lemma_definitions_hold_no(found, "footnotecontainer"@);
        lemma_rewrite_leaves_none(document@.children, plan, notes, 0, true);
        if elements(document@.children, "footnotecontainer"@).len() == 1 {
            lemma_rewrite_leaves_no_container(document@.children, plan, notes, 0, true);
        }
    }
    Ok(numbered)
}

} // verus!
