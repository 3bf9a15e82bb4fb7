//! The document tree and its mathematical model.
//!
//! A [`Node`] owns its children; its view is a [`Tree`], the same shape over
//! sequences. Contracts throughout the crate are stated over trees. Elements
//! are found by their name or their `id` on this tree itself, in document
//! order.

use vstd::prelude::*;
use vstd::string::StringExecFns;

verus! {

/// One attribute of an element. An attribute without a namespace has the empty
/// string in `namespace`.
#[derive(Debug)]
pub struct Attribute {
    pub namespace: String,
    pub name: String,
    pub value: String,
}

/// The model of an [`Attribute`].
pub struct AttributeModel {
    pub namespace: Seq<char>,
    pub name: Seq<char>,
    pub value: Seq<char>,
}

impl View for Attribute {
    type V = AttributeModel;

    open spec fn view(&self) -> AttributeModel {
        AttributeModel { namespace: self.namespace@, name: self.name@, value: self.value@ }
    }
}

/// Whether no two of `attributes` have the same namespace and name.
pub open spec fn distinct_keys(attributes: Seq<AttributeModel>) -> bool {
    forall|i: int, j: int|
        0 <= i < j < attributes.len() ==> !(attributes[i].namespace == attributes[j].namespace
            && attributes[i].name == attributes[j].name)
}

/// The attributes of an element, in the order in which they were written. No
/// two of them have the same namespace and name.
#[derive(Debug)]
pub struct Attributes {
    pub(crate) items: Vec<Attribute>,
}

impl View for Attributes {
    type V = Seq<AttributeModel>;

    closed spec fn view(&self) -> Seq<AttributeModel> {
        attributes_view(self.items@)
    }
}

/// What a node is, apart from its children.
#[derive(Debug)]
pub enum NodeData {
    /// The root of a parsed document or fragment.
    Document,
    /// A document type declaration.
    Doctype { name: String, public_id: String, system_id: String },
    /// An element, with the namespace and the local part of its name.
    Element { namespace: String, name: String, attributes: Attributes },
    /// Text.
    Text(String),
    /// A comment.
    Comment(String),
    /// A processing instruction.
    Instruction { target: String, data: String },
}

/// The model of a [`NodeData`].
pub enum DataModel {
    Document,
    Doctype { name: Seq<char>, public_id: Seq<char>, system_id: Seq<char> },
    Element { namespace: Seq<char>, name: Seq<char>, attributes: Seq<AttributeModel> },
    Text(Seq<char>),
    Comment(Seq<char>),
    Instruction { target: Seq<char>, data: Seq<char> },
}

/// A node of a document tree, with the subtrees below it in document order.
#[derive(Debug)]
pub struct Node {
    pub data: NodeData,
    pub children: Vec<Node>,
}

/// The model of a [`Node`].
pub struct Tree {
    pub data: DataModel,
    pub children: Seq<Tree>,
}

/// The models of a sequence of attributes, in the same order.
pub open spec fn attributes_view(attributes: Seq<Attribute>) -> Seq<AttributeModel> {
    Seq::new(attributes.len(), |i: int| attributes[i]@)
}

impl View for NodeData {
    type V = DataModel;

    open spec fn view(&self) -> DataModel {
        match *self {
            NodeData::Document => DataModel::Document,
            NodeData::Doctype { name, public_id, system_id } => DataModel::Doctype {
                name: name@,
                public_id: public_id@,
                system_id: system_id@,
            },
            NodeData::Element { namespace, name, attributes } => DataModel::Element {
                namespace: namespace@,
                name: name@,
                attributes: attributes@,
            },
            NodeData::Text(text) => DataModel::Text(text@),
            NodeData::Comment(text) => DataModel::Comment(text@),
            NodeData::Instruction { target, data } => DataModel::Instruction {
                target: target@,
                data: data@,
            },
        }
    }
}

/// The tree of a node: the model of what it holds, above the trees of its
/// children.
pub open spec fn node_view(node: Node) -> Tree
    decreases node,
{
    Tree { data: node.data@, children: forest_view(node.children@) }
}

/// The trees of a sequence of nodes, in the same order.
pub open spec fn forest_view(nodes: Seq<Node>) -> Seq<Tree>
    decreases nodes,
{
    Seq::new(
        nodes.len(),
        |i: int|
            if 0 <= i < nodes.len() {
                node_view(nodes[i])
            } else {
                arbitrary()
            },
    )
}

impl View for Node {
    type V = Tree;

    open spec fn view(&self) -> Tree {
        node_view(*self)
    }
}

/// The value of the first among `attributes` that has no namespace and is
/// called `name`.
pub open spec fn attribute_value(attributes: Seq<AttributeModel>, name: Seq<char>) -> Option<
    Seq<char>,
>
    decreases attributes.len(),
{
    if attributes.len() == 0 {
        None
    } else if attributes[0].namespace.len() == 0 && attributes[0].name == name {
        Some(attributes[0].value)
    } else {
        attribute_value(attributes.drop_first(), name)
    }
}

/// `attributes` with the value `value` under the name `name` and no namespace:
/// in the place of the first attribute of that name, or at the end where there
/// is none.
pub open spec fn with_attribute(
    attributes: Seq<AttributeModel>,
    name: Seq<char>,
    value: Seq<char>,
) -> Seq<AttributeModel>
    decreases attributes.len(),
{
    let added = AttributeModel { namespace: Seq::empty(), name, value };
    if attributes.len() == 0 {
        seq![added]
    } else if attributes[0].namespace.len() == 0 && attributes[0].name == name {
        seq![added] + attributes.drop_first()
    } else {
        seq![attributes[0]] + with_attribute(attributes.drop_first(), name, value)
    }
}

/// Where [`with_attribute`] puts the value: at `index`, where the first
/// attribute of the name is, or at the end.
pub proof fn lemma_with_attribute(
    attributes: Seq<AttributeModel>,
    name: Seq<char>,
    value: Seq<char>,
    index: int,
)
    requires
        0 <= index <= attributes.len(),
        forall|j: int|
            0 <= j < index ==> !(attributes[j].namespace.len() == 0 && attributes[j].name == name),
        index < attributes.len() ==> attributes[index].namespace.len() == 0
            && attributes[index].name == name,
    ensures
        with_attribute(attributes, name, value) == if index < attributes.len() {
            attributes.update(index, AttributeModel { namespace: Seq::empty(), name, value })
        } else {
            attributes.push(AttributeModel { namespace: Seq::empty(), name, value })
        },
        attribute_value(with_attribute(attributes, name, value), name) == Some(value),
    decreases attributes.len(),
{
    let added = AttributeModel { namespace: Seq::empty(), name, value };
    if attributes.len() == 0 {
        assert(seq![added] =~= attributes.push(added));
    } else if index == 0 {
        assert(seq![added] + attributes.drop_first() =~= attributes.update(0, added));
    } else {
        let rest = attributes.drop_first();
        assert(forall|j: int| 0 <= j < index - 1 ==> rest[j] == attributes[j + 1]);
        lemma_with_attribute(rest, name, value, index - 1);
        let tail = with_attribute(rest, name, value);
        let whole = seq![attributes[0]] + tail;
        assert(whole.drop_first() =~= tail);
        if index < attributes.len() {
            assert(whole =~= attributes.update(index, added));
        } else {
            assert(whole =~= attributes.push(added));
        }
    }
}

impl Tree {
    /// Whether the tree's root is an element called `tag`, in any namespace.
    pub open spec fn is_named(self, tag: Seq<char>) -> bool {
        self.data matches DataModel::Element { name, .. } && name == tag
    }

    /// The text at the start of the tree: the text of the root's first child
    /// where that is a text node, else the empty text.
    pub open spec fn leading_text(self) -> Seq<char> {
        if self.children.len() > 0 {
            match self.children[0].data {
                DataModel::Text(text) => text,
                _ => Seq::empty(),
            }
        } else {
            Seq::empty()
        }
    }

    /// The value of the root's attribute `name`, where the root is an element
    /// that has one.
    pub open spec fn attribute(self, name: Seq<char>) -> Option<Seq<char>> {
        match self.data {
            DataModel::Element { attributes, .. } => attribute_value(attributes, name),
            _ => None,
        }
    }
}

/// The elements called `tag` in `tree`, the root among them, in document
/// order.
pub open spec fn elements_in(tree: Tree, tag: Seq<char>) -> Seq<Tree>
    decreases tree,
{
    if tree.is_named(tag) {
        seq![tree] + elements(tree.children, tag)
    } else {
        elements(tree.children, tag)
    }
}

/// The elements called `tag` in the trees of `forest`, in document order.
pub open spec fn elements(forest: Seq<Tree>, tag: Seq<char>) -> Seq<Tree>
    decreases forest,
{
    if forest.len() == 0 {
        Seq::empty()
    } else {
        elements(forest.drop_last(), tag) + elements_in(forest.last(), tag)
    }
}

/// The first element in `tree`, the root considered, whose `id` is `id`.
pub open spec fn first_with_id_in(tree: Tree, id: Seq<char>) -> Option<Tree>
    decreases tree,
{
    if tree.attribute("id"@) == Some(id) {
        Some(tree)
    } else {
        first_with_id(tree.children, id)
    }
}

/// The first element in the trees of `forest`, in document order, whose `id`
/// is `id`.
pub open spec fn first_with_id(forest: Seq<Tree>, id: Seq<char>) -> Option<Tree>
    decreases forest,
{
    if forest.len() == 0 {
        None
    } else {
        match first_with_id(forest.drop_last(), id) {
            Some(tree) => Some(tree),
            None => first_with_id_in(forest.last(), id),
        }
    }
}

/// The text of `tree`: the payloads of its text nodes, in document order.
pub open spec fn text_content(tree: Tree) -> Seq<char>
    decreases tree,
{
    match tree.data {
        DataModel::Text(text) => text + forest_text(tree.children),
        _ => forest_text(tree.children),
    }
}

/// The text of the trees of `forest`, one after the other.
pub open spec fn forest_text(forest: Seq<Tree>) -> Seq<char>
    decreases forest,
{
    if forest.len() == 0 {
        Seq::empty()
    } else {
        forest_text(forest.drop_last()) + text_content(forest.last())
    }
}

/// The trees that a sequence of borrowed nodes stands for.
pub open spec fn borrowed_view(nodes: Seq<&Node>) -> Seq<Tree> {
    Seq::new(nodes.len(), |i: int| nodes[i]@)
}

/// Unfolds [`elements`] by one tree at the end of a prefix of `forest`.
pub proof fn lemma_elements_step(forest: Seq<Tree>, tag: Seq<char>, i: int)
    requires
        0 <= i < forest.len(),
    ensures
        elements(forest.take(i + 1), tag) == elements(forest.take(i), tag) + elements_in(
            forest[i],
            tag,
        ),
{
    assert(forest.take(i + 1).drop_last() =~= forest.take(i));
}

/// What is found among the first `count` trees is found in the forest.
pub proof fn lemma_first_with_id_found(forest: Seq<Tree>, id: Seq<char>, count: int)
    requires
        0 <= count <= forest.len(),
        first_with_id(forest.take(count), id) is Some,
    ensures
        first_with_id(forest, id) == first_with_id(forest.take(count), id),
    decreases forest.len() - count,
{
    if count == forest.len() {
        assert(forest.take(count) =~= forest);
    } else {
        assert(forest.take(count + 1).drop_last() =~= forest.take(count));
        lemma_first_with_id_found(forest, id, count + 1);
    }
}

/// Unfolds [`forest_text`] by one tree at the end of a prefix of `forest`.
pub proof fn lemma_forest_text_step(forest: Seq<Tree>, i: int)
    requires
        0 <= i < forest.len(),
    ensures
        forest_text(forest.take(i + 1)) == forest_text(forest.take(i)) + text_content(forest[i]),
{
    assert(forest.take(i + 1).drop_last() =~= forest.take(i));
}

impl Attribute {
    /// A copy of this attribute.
    pub fn copy(&self) -> (copied: Attribute)
        ensures
            copied@ == self@,
    {
        Attribute {
            namespace: self.namespace.clone(),
            name: self.name.clone(),
            value: self.value.clone(),
        }
    }
}

impl Attributes {
    /// What every value of this type satisfies.
    #[verifier::type_invariant]
    pub open spec fn well_formed(self) -> bool {
        distinct_keys(self@)
    }

    /// No attributes.
    pub fn new() -> (attributes: Attributes)
        ensures
            attributes@ == Seq::<AttributeModel>::empty(),
    {
        let attributes = Attributes { items: Vec::new() };
        assert(attributes@ =~= Seq::<AttributeModel>::empty());
        attributes
    }

    /// Puts `value` under the name `name`, without a namespace: in the place
    /// of the value that the name had, or at the end.
    pub fn insert(&mut self, name: &str, value: String)
        ensures
            final(self)@ == with_attribute(old(self)@, name@, value@),
            attribute_value(final(self)@, name@) == Some(value@),
    {
        proof {
            use_type_invariant(&*self);
            reveal_strlit("");
        }
        let ghost before = self@;
        let added = Attribute { namespace: "".to_owned(), name: name.to_owned(), value };
        assert(added@ == (AttributeModel {
            namespace: Seq::empty(),
            name: name@,
            value: value@,
        })) by {
            assert(added.namespace@ =~= Seq::<char>::empty());
        }
        let mut index: usize = 0;
        while index < self.items.len() && !(self.items[index].namespace.as_str().eq("")
            && self.items[index].name.as_str().eq(name))
            invariant
                index <= self.items.len(),
                self@ == before,
                ""@.len() == 0,
                forall|j: int|
                    0 <= j < index ==> !(before[j].namespace.len() == 0 && before[j].name
                        == name@),
            decreases self.items.len() - index,
        {
            assert(before[index as int] == self.items[index as int]@);
            assert(self.items[index as int].namespace@.len() == 0
                <==> self.items[index as int].namespace@ =~= ""@);
            index += 1;
        }
        proof {
            if index < self.items.len() {
                assert(before[index as int] == self.items[index as int]@);
                assert(self.items[index as int].namespace@.len() == 0
                    <==> self.items[index as int].namespace@ =~= ""@);
            }
            lemma_with_attribute(before, name@, value@, index as int);
        }
        let mut items: Vec<Attribute> = Vec::new();
        let mut i: usize = 0;
        while i < index
            invariant
                i <= index <= self.items.len(),
                self@ == before,
                items.len() == i,
                forall|j: int| 0 <= j < i ==> items[j]@ == before[j],
            decreases index - i,
        {
            assert(before[i as int] == self.items[i as int]@);
            items.push(self.items[i].copy());
            i += 1;
        }
        items.push(added);
        i = items.len();
        while i < self.items.len()
            invariant
                index < i,
                i <= self.items.len() || i == index + 1,
                self@ == before,
                items.len() == i,
                forall|j: int| 0 <= j < index ==> items[j]@ == before[j],
                items[index as int]@ == added@,
                forall|j: int| index < j < i ==> items[j]@ == before[j],
            decreases self.items.len() - i,
        {
            assert(before[i as int] == self.items[i as int]@);
            items.push(self.items[i].copy());
            i += 1;
        }
        let ghost after = attributes_view(items@);
        assert(after =~= with_attribute(before, name@, value@));
        assert(distinct_keys(after)) by {
            assert forall|j: int, k: int| 0 <= j < k < after.len() implies !(after[j].namespace
                == after[k].namespace && after[j].name == after[k].name) by {
                if index < before.len() {
                    assert(after[index as int].namespace =~= before[index as int].namespace);
                    assert(after[index as int].name == before[index as int].name);
                    assert(after[j].namespace == before[j].namespace && after[j].name
                        == before[j].name);
                    assert(after[k].namespace == before[k].namespace && after[k].name
                        == before[k].name);
                } else if k == index {
                    assert(after[j] == before[j]);
                }
            }
        }
        *self = Attributes { items };
    }

    /// The number of attributes.
    pub fn len(&self) -> (count: usize)
        ensures
            count == self@.len(),
    {
        self.items.len()
    }

    /// The attribute at `index`.
    pub fn entry(&self, index: usize) -> (attribute: &Attribute)
        requires
            index < self@.len(),
        ensures
            attribute@ == self@[index as int],
    {
        &self.items[index]
    }

    /// A copy of these attributes.
    pub fn copy(&self) -> (copied: Attributes)
        ensures
            copied@ == self@,
    {
        proof {
            use_type_invariant(self);
        }
        let mut items: Vec<Attribute> = Vec::new();
        let mut i: usize = 0;
        while i < self.items.len()
            invariant
                i <= self.items.len(),
                items.len() == i,
                forall|j: int| 0 <= j < i ==> items[j]@ == self.items[j]@,
            decreases self.items.len() - i,
        {
            items.push(self.items[i].copy());
            i += 1;
        }
        assert(attributes_view(items@) =~= attributes_view(self.items@));
        Attributes { items }
    }

    /// The value of the attribute that has no namespace and is called `name`.
    pub fn get(&self, name: &str) -> (value: Option<&String>)
        ensures
            match value {
                Some(text) => attribute_value(self@, name@) == Some(text@),
                None => attribute_value(self@, name@) is None,
            },
    {
        proof {
            reveal_strlit("");
            assert(self@.skip(0) =~= self@);
        }
        let mut i: usize = 0;
        while i < self.items.len()
            invariant
                i <= self.items.len(),
                ""@.len() == 0,
                attribute_value(self@, name@) == attribute_value(
                    self@.skip(i as int),
                    name@,
                ),
            decreases self.items.len() - i,
        {
            let ghost rest = self@.skip(i as int);
            assert(rest[0] == self.items[i as int]@);
            assert(rest.drop_first() =~= self@.skip(i + 1));
            assert(self.items[i as int].namespace@.len() == 0 <==> self.items[i as int].namespace@
                =~= ""@);
            if self.items[i].namespace.as_str().eq("") && self.items[i].name.as_str().eq(name) {
                return Some(&self.items[i].value);
            }
            i += 1;
        }
        None
    }
}

impl NodeData {
    /// A copy of this value.
    pub fn copy(&self) -> (copied: NodeData)
        ensures
            copied@ == self@,
    {
        match self {
            NodeData::Document => NodeData::Document,
            NodeData::Doctype { name, public_id, system_id } => NodeData::Doctype {
                name: name.clone(),
                public_id: public_id.clone(),
                system_id: system_id.clone(),
            },
            NodeData::Element { namespace, name, attributes } => NodeData::Element {
                namespace: namespace.clone(),
                name: name.clone(),
                attributes: attributes.copy(),
            },
            NodeData::Text(text) => NodeData::Text(text.clone()),
            NodeData::Comment(text) => NodeData::Comment(text.clone()),
            NodeData::Instruction { target, data } => NodeData::Instruction {
                target: target.clone(),
                data: data.clone(),
            },
        }
    }
}

impl Node {
    /// A text node.
    pub fn text(payload: String) -> (node: Node)
        ensures
            node@ == (Tree { data: DataModel::Text(payload@), children: Seq::empty() }),
    {
        let node = Node { data: NodeData::Text(payload), children: Vec::new() };
        assert(node@.children =~= Seq::empty());
        node
    }

    /// Whether this node is an element called `tag`.
    pub fn is_named(&self, tag: &str) -> (named: bool)
        ensures
            named == self@.is_named(tag@),
    {
        match &self.data {
            NodeData::Element { name, .. } => name.as_str().eq(tag),
            _ => false,
        }
    }

    /// The text at the start of this node: the text of its first child where
    /// that is a text node, else the empty text.
    pub fn leading_text(&self) -> (text: &str)
        ensures
            text@ == self@.leading_text(),
    {
        proof {
            reveal_strlit("");
            assert(""@ =~= Seq::<char>::empty());
        }
        if self.children.len() > 0 {
            assert(self@.children[0] == self.children[0]@);
            match &self.children[0].data {
                NodeData::Text(payload) => payload.as_str(),
                _ => "",
            }
        } else {
            ""
        }
    }

    /// The value of the attribute `name`, where this node is an element that
    /// has one.
    pub fn attribute(&self, name: &str) -> (value: Option<&String>)
        ensures
            match value {
                Some(text) => self@.attribute(name@) == Some(text@),
                None => self@.attribute(name@) is None,
            },
    {
        match &self.data {
            NodeData::Element { attributes, .. } => attributes.get(name),
            _ => None,
        }
    }

    /// A copy of this node and of everything below it.
    pub fn copy(&self) -> (copied: Node)
        ensures
            copied@ == self@,
        decreases self,
    {
        let mut children: Vec<Node> = Vec::new();
        let mut i: usize = 0;
        while i < self.children.len()
            invariant
                i <= self.children.len(),
                children.len() == i,
                forall|j: int| 0 <= j < i ==> children[j]@ == self.children[j]@,
            decreases self.children.len() - i,
        {
            children.push(self.children[i].copy());
            i += 1;
        }
        let copied = Node { data: self.data.copy(), children };
        assert(copied@.children =~= self@.children);
        copied
    }

    /// The text of this node: the payloads of the text nodes in it, in
    /// document order.
    pub fn text_contents(&self) -> (text: String)
        ensures
            text@ == text_content(self@),
    {
        let mut text = String::new();
        self.push_text(&mut text);
        text
    }

    /// Appends the text of this node to `buffer`.
    pub fn push_text(&self, buffer: &mut String)
        ensures
            final(buffer)@ == old(buffer)@ + text_content(self@),
        decreases self,
    {
        match &self.data {
            NodeData::Text(payload) => {
                buffer.append(payload.as_str());
            },
            _ => {},
        }
        let ghost start = buffer@;
        let mut i: usize = 0;
        while i < self.children.len()
            invariant
                i <= self.children.len(),
                buffer@ == start + forest_text(self@.children.take(i as int)),
            decreases self.children.len() - i,
        {
            proof {
                lemma_forest_text_step(self@.children, i as int);
            }
            self.children[i].push_text(buffer);
            i += 1;
        }
        assert(self@.children.take(self.children.len() as int) =~= self@.children);
    }

    /// Appends to `found` the elements called `tag` in this node, itself among
    /// them, in document order.
    pub fn collect_elements<'a>(&'a self, tag: &str, found: &mut Vec<&'a Node>)
        ensures
            borrowed_view(final(found)@) == borrowed_view(old(found)@) + elements_in(self@, tag@),
        decreases self,
    {
        if self.is_named(tag) {
            found.push(self);
        }
        let ghost start = borrowed_view(found@);
        assert(start =~= borrowed_view(old(found)@) + (if self@.is_named(tag@) {
            seq![self@]
        } else {
            Seq::empty()
        }));
        let mut i: usize = 0;
        while i < self.children.len()
            invariant
                i <= self.children.len(),
                borrowed_view(found@) == start + elements(self@.children.take(i as int), tag@),
            decreases self.children.len() - i,
        {
            proof {
                lemma_elements_step(self@.children, tag@, i as int);
            }
            self.children[i].collect_elements(tag, found);
            i += 1;
        }
        assert(self@.children.take(self.children.len() as int) =~= self@.children);
    }

    /// The elements called `tag` in this node, itself among them, in document
    /// order.
    pub fn select(&self, tag: &str) -> (found: Vec<&Node>)
        ensures
            borrowed_view(found@) == elements_in(self@, tag@),
    {
        let mut found: Vec<&Node> = Vec::new();
        self.collect_elements(tag, &mut found);
        assert(borrowed_view(Seq::<&Node>::empty()) =~= Seq::<Tree>::empty());
        found
    }

    /// The first element in this node, itself considered, whose `id` is `id`.
    pub fn select_first_by_id(&self, id: &str) -> (first: Option<&Node>)
        ensures
            match first {
                Some(node) => first_with_id_in(self@, id@) == Some(node@),
                None => first_with_id_in(self@, id@) is None,
            },
        decreases self,
    {
        match self.attribute("id") {
            Some(value) => {
                if value.as_str().eq(id) {
                    return Some(self);
                }
            },
            None => {},
        }
        let mut i: usize = 0;
        while i < self.children.len()
            invariant
                i <= self.children.len(),
                first_with_id(self@.children.take(i as int), id@) is None,
                self@.attribute("id"@) != Some(id@),
            decreases self.children.len() - i,
        {
            assert(self@.children.take(i + 1).drop_last() =~= self@.children.take(i as int));
            match self.children[i].select_first_by_id(id) {
                Some(node) => {
                    proof {
                        lemma_first_with_id_found(self@.children, id@, i + 1);
                    }
                    return Some(node);
                },
                None => {},
            }
            i += 1;
        }
        assert(self@.children.take(self.children.len() as int) =~= self@.children);
        None
    }

    /// The first element called `tag` in this node, itself considered, in
    /// document order.
    pub fn select_first(&self, tag: &str) -> (first: Option<&Node>)
        ensures
            match first {
                Some(node) => elements_in(self@, tag@).len() > 0 && node@ == elements_in(
                    self@,
                    tag@,
                )[0],
                None => elements_in(self@, tag@).len() == 0,
            },
    {
        let found = self.select(tag);
        if found.len() > 0 {
            Some(found[0])
        } else {
            None
        }
    }
}

/// The elements called `tag` in the nodes of `forest`, in document order.
pub fn select_all<'a>(forest: &'a Vec<Node>, tag: &str) -> (found: Vec<&'a Node>)
    ensures
        borrowed_view(found@) == elements(forest_view(forest@), tag@),
{
    let ghost trees = forest_view(forest@);
    let mut found: Vec<&Node> = Vec::new();
    let mut i: usize = 0;
    assert(borrowed_view(found@) =~= elements(trees.take(0), tag@));
    while i < forest.len()
        invariant
            i <= forest.len(),
            trees == forest_view(forest@),
            borrowed_view(found@) == elements(trees.take(i as int), tag@),
        decreases forest.len() - i,
    {
        proof {
            lemma_elements_step(trees, tag@, i as int);
        }
        forest[i].collect_elements(tag, &mut found);
        i += 1;
    }
    assert(trees.take(forest.len() as int) =~= trees);
    found
}

/// A copy of the nodes of `forest`.
pub fn copy_forest(forest: &Vec<Node>) -> (copied: Vec<Node>)
    ensures
        forest_view(copied@) == forest_view(forest@),
{
    let mut copied: Vec<Node> = Vec::new();
    let mut i: usize = 0;
    while i < forest.len()
        invariant
            i <= forest.len(),
            copied.len() == i,
            forall|j: int| 0 <= j < i ==> copied[j]@ == forest[j]@,
        decreases forest.len() - i,
    {
        copied.push(forest[i].copy());
        i += 1;
    }
    assert(forest_view(copied@) =~= forest_view(forest@));
    copied
}

} // verus!
