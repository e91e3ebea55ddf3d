//! What holds of the walk of one element among that of a document, and of the records of views: the
//! model that the arch targets, wherever the record names it.
use vstd::prelude::*;

use crate::seqs::{concat_map, lemma_concat_map_add};
use crate::symbols::SymbolKey;
use crate::text::trimmed;
use crate::xml_ast_utils::{value_spans, RefView, XmlRefKind};
use crate::xml_document::{AttributeView, DocumentView, NodeView, XmlNodeKind};
use crate::xml_lookup::Resolver;
use crate::xml_scope::{ModelScopeView, ScopeView};
use crate::xml_spans::ByteSpan;

verus! {

impl DocumentView {
    /// Whether `child` is a direct `<field name="model">` of `node`.
    pub open spec fn is_model_field(self, node: int, child: int) -> bool {
        &&& self.is_child(node, child)
        &&& self.nodes[child].kind == XmlNodeKind::Element
        &&& self.nodes[child].tag == "field"@
        &&& self.nodes[child].attribute("name"@) == Some("model"@)
    }

    /// The texts of the direct `<field name="model">` children of `node` at or after `from`, in order.
    pub open spec fn model_texts_from(self, node: int, from: int) -> Seq<Option<Seq<char>>>
        decreases self.nodes.len() - from,
    {
        if from >= self.nodes.len() {
            Seq::empty()
        } else if self.is_model_field(node, from) {
            seq![self.nodes[from].text] + self.model_texts_from(node, from + 1)
        } else {
            self.model_texts_from(node, from + 1)
        }
    }

    /// The texts of the direct `<field name="model">` children of `node`, in order.
    pub open spec fn model_texts(self, node: int) -> Seq<Option<Seq<char>>> {
        self.model_texts_from(node, node + 1)
    }

    proof fn lemma_target_of_texts(self, node: int, from: int)
        ensures
            self.target_model_from(node, from) == first_named(self.model_texts_from(node, from)),
        decreases self.nodes.len() - from,
    {
        if from < self.nodes.len() {
            self.lemma_target_of_texts(node, from + 1);
            if self.is_model_field(node, from) {
                let rest = self.model_texts_from(node, from + 1);
                let texts = self.model_texts_from(node, from);
                assert(texts[0] == self.nodes[from].text);
                assert(texts.drop_first() =~= rest);
            }
        }
    }

    /// The node at a place below `top`, `top` itself being at place zero.
    pub open spec fn nth(self, top: int, place: int) -> NodeView {
        self.nodes[top + place]
    }

    /// Whether the parent of `node` lies between two indices.
    pub open spec fn has_parent_in(self, node: int, start: int, end: int) -> bool {
        self.nodes[node].parent matches Some(parent) && start <= parent < end
    }

    /// Whether the `size` nodes from `top` on are `top` with all of its content.
    pub open spec fn is_subtree(self, top: int, size: int) -> bool {
        &&& 0 <= top
        &&& 0 < size
        &&& top + size <= self.nodes.len()
        &&& top + size <= usize::MAX
        &&& forall|place: int|
            0 < place < size ==> ((#[trigger] self.nth(top, place)).parent matches Some(parent)
                && top <= parent < top + place)
        &&& forall|node: int|
            0 <= node < self.nodes.len() && !(top < node < top + size)
                ==> !#[trigger] self.has_parent_in(node, top, top + size)
    }
}

/// The model that a text names.
pub open spec fn named_by(text: Option<Seq<char>>) -> Option<Seq<char>> {
    match text {
        Some(text) => if trimmed(text).len() > 0 {
            Some(trimmed(text))
        } else {
            None
        },
        None => None,
    }
}

/// The model that the first of the texts names that names one.
pub open spec fn first_named(texts: Seq<Option<Seq<char>>>) -> Option<Seq<char>>
    decreases texts.len(),
{
    if texts.len() == 0 {
        None
    } else {
        match named_by(texts[0]) {
            Some(model) => Some(model),
            None => first_named(texts.drop_first()),
        }
    }
}

/// The model that the arch of a view targets is a matter of the `<field name="model">` children of
/// the record alone: whatever stands between them, before or after, the arch included.
pub proof fn target_model_ignores_other_children(
    doc: DocumentView,
    record: int,
    other_doc: DocumentView,
    other: int,
)
    requires
        doc.model_texts(record) == other_doc.model_texts(other),
    ensures
        doc.target_model(record) == other_doc.target_model(other),
{
    doc.lemma_target_of_texts(record, record + 1);
    other_doc.lemma_target_of_texts(other, other + 1);
}

/// Whether attributes have the same names and values in the same order, wherever they stand.
pub open spec fn attributes_alike(left: Seq<AttributeView>, right: Seq<AttributeView>) -> bool {
    &&& left.len() == right.len()
    &&& forall|k: int|
        0 <= k < left.len() ==> (#[trigger] left[k]).name == right[k].name && left[k].value
            == right[k].value
}

/// Whether nodes are the same but for where they stand.
pub open spec fn nodes_alike(left: NodeView, right: NodeView) -> bool {
    &&& left.kind == right.kind
    &&& left.tag == right.tag
    &&& left.text == right.text
    &&& attributes_alike(left.attributes, right.attributes)
}

/// Whether two subtrees of that size are the same but for where they stand.
pub open spec fn subtrees_alike(
    doc: DocumentView,
    top: int,
    other_doc: DocumentView,
    other_top: int,
    size: int,
) -> bool {
    &&& doc.is_subtree(top, size)
    &&& other_doc.is_subtree(other_top, size)
    &&& forall|place: int|
        0 <= place < size ==> nodes_alike(
            #[trigger] doc.nth(top, place),
            other_doc.nth(other_top, place),
        )
    &&& forall|place: int|
        0 < place < size ==> (#[trigger] doc.nth(top, place)).parent->0 - top == other_doc.nth(
            other_top,
            place,
        ).parent->0 - other_top
}

/// Nodes that are alike have the same value under a name.
proof fn lemma_alike_attribute(left: NodeView, right: NodeView, name: Seq<char>)
    requires
        nodes_alike(left, right),
    ensures
        left.attribute(name) == right.attribute(name),
        left.last_attribute(name) == right.last_attribute(name),
{
    assert forall|k: int| left.is_first_named(name, k) == right.is_first_named(name, k) by {
        if left.is_first_named(name, k) {
            assert(left.attributes[k].name == right.attributes[k].name);
            assert forall|j: int| 0 <= j < k implies (#[trigger] right.attributes[j]).name
                != name by {
                assert(left.attributes[j].name == right.attributes[j].name);
            }
        }
        if right.is_first_named(name, k) {
            assert(left.attributes[k].name == right.attributes[k].name);
            assert forall|j: int| 0 <= j < k implies (#[trigger] left.attributes[j]).name
                != name by {
                assert(left.attributes[j].name == right.attributes[j].name);
            }
        }
    }
    if exists|k: int| left.is_first_named(name, k) {
        let k = choose|k: int| left.is_first_named(name, k);
        left.lemma_attribute(name, k);
        right.lemma_attribute(name, k);
        assert(left.attributes[k].value == right.attributes[k].value);
    } else {
        assert forall|k: int| !right.is_first_named(name, k) by {
            assert(!left.is_first_named(name, k));
        }
    }
    lemma_alike_last(left, right, name, left.attributes.len() as int);
}

proof fn lemma_alike_last(left: NodeView, right: NodeView, name: Seq<char>, count: int)
    requires
        nodes_alike(left, right),
        count <= left.attributes.len(),
    ensures
        left.last_attribute_of(name, count) == right.last_attribute_of(name, count),
    decreases count,
{
    if count > 0 {
        assert(left.attributes[count - 1].name == right.attributes[count - 1].name);
        lemma_alike_last(left, right, name, count - 1);
    }
}

/// Children in a subtree have children at the same places in one that is alike.
proof fn lemma_alike_child(
    doc: DocumentView,
    top: int,
    other_doc: DocumentView,
    other_top: int,
    size: int,
    place: int,
    child: int,
)
    requires
        subtrees_alike(doc, top, other_doc, other_top, size),
        0 <= place < size,
        doc.is_child(top + place, child),
    ensures
        top < child < top + size,
        place < child - top,
        other_doc.is_child(other_top + place, child - top + other_top),
{
    if !(top < child < top + size) {
        assert(!doc.has_parent_in(child, top, top + size));
    }
    let at = child - top;
    assert(doc.nth(top, at) == doc.nodes[child]);
    assert(doc.nth(top, at).parent->0 - top == other_doc.nth(other_top, at).parent->0 - other_top);
    assert(other_doc.nth(other_top, at) == other_doc.nodes[other_top + at]);
}

/// Being alike goes both ways.
proof fn lemma_alike_symmetric(
    doc: DocumentView,
    top: int,
    other_doc: DocumentView,
    other_top: int,
    size: int,
)
    requires
        subtrees_alike(doc, top, other_doc, other_top, size),
    ensures
        subtrees_alike(other_doc, other_top, doc, top, size),
{
    assert forall|place: int| 0 <= place < size implies nodes_alike(
        #[trigger] other_doc.nth(other_top, place),
        doc.nth(top, place),
    ) by {
        let (left, right) = (doc.nth(top, place), other_doc.nth(other_top, place));
        assert(nodes_alike(left, right));
        assert forall|k: int| 0 <= k < right.attributes.len() implies (
        #[trigger] right.attributes[k]).name == left.attributes[k].name && right.attributes[k].value
            == left.attributes[k].value by {
            assert(left.attributes[k].name == right.attributes[k].name);
        }
    }
    assert forall|place: int| 0 < place < size implies (#[trigger] other_doc.nth(
        other_top,
        place,
    )).parent->0 - other_top == doc.nth(top, place).parent->0 - top by {
        assert(doc.nth(top, place).parent->0 - top == other_doc.nth(
            other_top,
            place,
        ).parent->0 - other_top);
    }
}

/// A node in a subtree holds an inline subview if the one at its place in a subtree alike does.
proof fn lemma_alike_subview(
    doc: DocumentView,
    top: int,
    other_doc: DocumentView,
    other_top: int,
    size: int,
    place: int,
)
    requires
        subtrees_alike(doc, top, other_doc, other_top, size),
        0 <= place < size,
        doc.has_subview(top + place),
    ensures
        other_doc.has_subview(other_top + place),
{
    let node = top + place;
    let child = choose|child: int| doc.is_subview_child(node, child);
    lemma_alike_child(doc, top, other_doc, other_top, size, place, child);
    let at = child - top;
    assert(nodes_alike(doc.nth(top, at), other_doc.nth(other_top, at)));
    assert(other_doc.is_subview_child(other_top + place, at + other_top));
}

/// Past its subtree a node has no `<field name="model">`.
proof fn lemma_no_texts_past(doc: DocumentView, top: int, size: int, place: int, from: int)
    requires
        doc.is_subtree(top, size),
        0 <= place < size,
        top + size <= from,
    ensures
        doc.model_texts_from(top + place, from) == Seq::<Option<Seq<char>>>::empty(),
    decreases doc.nodes.len() - from,
{
    if from < doc.nodes.len() {
        assert(!doc.has_parent_in(from, top, top + size));
        lemma_no_texts_past(doc, top, size, place, from + 1);
    }
}

/// Nodes at the same place in subtrees that are alike name the same models.
proof fn lemma_alike_texts(
    doc: DocumentView,
    top: int,
    other_doc: DocumentView,
    other_top: int,
    size: int,
    place: int,
    from: int,
)
    requires
        subtrees_alike(doc, top, other_doc, other_top, size),
        0 <= place < size,
        place < from <= size,
    ensures
        doc.model_texts_from(top + place, top + from) == other_doc.model_texts_from(
            other_top + place,
            other_top + from,
        ),
    decreases size - from,
{
    if from == size {
        lemma_no_texts_past(doc, top, size, place, top + from);
        lemma_no_texts_past(other_doc, other_top, size, place, other_top + from);
    } else {
        lemma_alike_texts(doc, top, other_doc, other_top, size, place, from + 1);
        lemma_alike_symmetric(doc, top, other_doc, other_top, size);
        let (left, right) = (doc.nth(top, from), other_doc.nth(other_top, from));
        assert(nodes_alike(left, right));
        lemma_alike_attribute(left, right, "name"@);
        if doc.is_child(top + place, top + from) {
            lemma_alike_child(doc, top, other_doc, other_top, size, place, top + from);
        }
        if other_doc.is_child(other_top + place, other_top + from) {
            lemma_alike_child(other_doc, other_top, doc, top, size, place, other_top + from);
        }
    }
}

impl Resolver {
    /// Nodes at the same place in subtrees that are alike hand the same scope down.
    proof fn lemma_alike_child_scope(
        self,
        doc: DocumentView,
        top: int,
        other_doc: DocumentView,
        other_top: int,
        size: int,
        place: int,
        scope: ScopeView,
    )
        requires
            subtrees_alike(doc, top, other_doc, other_top, size),
            0 <= place < size,
        ensures
            self.child_scope(doc, top + place, scope) == self.child_scope(
                other_doc,
                other_top + place,
                scope,
            ),
    {
        let (left, right) = (doc.nth(top, place), other_doc.nth(other_top, place));
        assert(nodes_alike(left, right));
        lemma_alike_attribute(left, right, "name"@);
        lemma_alike_attribute(left, right, "model"@);
        lemma_alike_symmetric(doc, top, other_doc, other_top, size);
        if doc.has_subview(top + place) {
            lemma_alike_subview(doc, top, other_doc, other_top, size, place);
        }
        if other_doc.has_subview(other_top + place) {
            lemma_alike_subview(other_doc, other_top, doc, top, size, place);
        }
        lemma_alike_texts(doc, top, other_doc, other_top, size, place, place + 1);
        target_model_ignores_other_children(doc, top + place, other_doc, other_top + place);
    }

    /// Nodes at the same place in subtrees that are alike stand in the same scope when the tops do.
    proof fn lemma_alike_scope(
        self,
        doc: DocumentView,
        root: int,
        top: int,
        other_doc: DocumentView,
        other_root: int,
        other_top: int,
        size: int,
        handed: ScopeView,
        place: int,
    )
        requires
            subtrees_alike(doc, top, other_doc, other_top, size),
            0 <= root < top,
            0 <= other_root < other_top,
            self.scope_below(doc, root, handed, top) == self.scope_below(
                other_doc,
                other_root,
                handed,
                other_top,
            ),
            0 <= place < size,
        ensures
            self.scope_below(doc, root, handed, top + place) == self.scope_below(
                other_doc,
                other_root,
                handed,
                other_top + place,
            ),
        decreases place,
    {
        if place > 0 {
            let parent = doc.nth(top, place).parent->0 - top;
            assert(other_doc.nth(other_top, place).parent->0 - other_top == parent);
            self.lemma_alike_scope(
                doc,
                root,
                top,
                other_doc,
                other_root,
                other_top,
                size,
                handed,
                parent,
            );
            if let Some(scope) = self.scope_below(doc, root, handed, top + parent) {
                self.lemma_alike_child_scope(
                    doc,
                    top,
                    other_doc,
                    other_top,
                    size,
                    parent,
                    scope,
                );
            }
        }
    }

    /// What those of the `count` nodes from `from` on that lie below `top` refer to, in source order.
    pub open spec fn content_refs(
        self,
        doc: DocumentView,
        top: int,
        handed: ScopeView,
        from: int,
        count: int,
        offset: Option<usize>,
    ) -> Seq<RefView>
        decreases count,
    {
        if count <= 0 {
            Seq::empty()
        } else {
            self.content_refs(doc, top, handed, from, count - 1, offset) + self.refs_at(
                doc,
                top,
                handed,
                from + count - 1,
                offset,
            )
        }
    }

    /// What some nodes refer to stands in one piece among what the nodes up to them refer to.
    pub proof fn content_refs_are_a_piece(
        self,
        doc: DocumentView,
        top: int,
        handed: ScopeView,
        from: int,
        count: int,
        offset: Option<usize>,
    )
        requires
            0 <= from,
            0 <= count,
        ensures
            self.refs_before(doc, top, handed, from + count, offset) == self.refs_before(
                doc,
                top,
                handed,
                from,
                offset,
            ) + self.content_refs(doc, top, handed, from, count, offset),
        decreases count,
    {
        if count > 0 {
            self.content_refs_are_a_piece(doc, top, handed, from, count - 1, offset);
        }
        assert(self.refs_before(doc, top, handed, from + count, offset) =~= self.refs_before(
            doc,
            top,
            handed,
            from,
            offset,
        ) + self.content_refs(doc, top, handed, from, count, offset));
    }

    /// What the walk of a node in `scope` finds before it reaches the node at `to`.
    pub open spec fn tree_refs_before(
        self,
        doc: DocumentView,
        node: int,
        scope: ScopeView,
        to: int,
        offset: Option<usize>,
    ) -> Seq<RefView> {
        self.node_refs(doc.text, doc.nodes[node], scope, offset) + self.refs_before(
            doc,
            node,
            self.child_scope(doc, node, scope),
            to,
            offset,
        )
    }

    /// What the walk of a node in `scope` finds at the `count` nodes from `from` on.
    pub open spec fn tree_piece(
        self,
        doc: DocumentView,
        node: int,
        scope: ScopeView,
        from: int,
        count: int,
        offset: Option<usize>,
    ) -> Seq<RefView> {
        self.content_refs(doc, node, self.child_scope(doc, node, scope), from, count, offset)
    }

    /// The walk of an element finds what some nodes of its content refer to in one piece, after what
    /// comes before these nodes and before what comes after them.
    pub proof fn tree_refs_are_pieces(
        self,
        doc: DocumentView,
        node: int,
        scope: ScopeView,
        from: int,
        count: int,
        offset: Option<usize>,
    )
        requires
            doc.nodes[node].kind == XmlNodeKind::Element,
            0 <= from,
            0 <= count,
            from + count <= doc.nodes.len(),
        ensures
            self.tree_refs(doc, node, scope, offset) == self.tree_refs_before(
                doc,
                node,
                scope,
                from,
                offset,
            ) + self.tree_piece(doc, node, scope, from, count, offset) + self.tree_piece(
                doc,
                node,
                scope,
                from + count,
                doc.nodes.len() - from - count,
                offset,
            ),
    {
        let handed = self.child_scope(doc, node, scope);
        self.content_refs_are_a_piece(doc, node, handed, from, count, offset);
        self.content_refs_are_a_piece(
            doc,
            node,
            handed,
            from + count,
            doc.nodes.len() - from - count,
            offset,
        );
        assert(self.tree_refs(doc, node, scope, offset) =~= self.tree_refs_before(
            doc,
            node,
            scope,
            from,
            offset,
        ) + self.tree_piece(doc, node, scope, from, count, offset) + self.tree_piece(
            doc,
            node,
            scope,
            from + count,
            doc.nodes.len() - from - count,
            offset,
        ));
    }

    /// A node in a subtree stands in the same scope whether the walk starts at the top of the
    /// subtree or further up.
    pub proof fn scope_is_that_of_the_whole_walk(
        self,
        doc: DocumentView,
        root: int,
        handed: ScopeView,
        top: int,
        node: int,
    )
        requires
            self.scope_below(doc, root, handed, top) matches Some(scope) && self.scope_below(
                doc,
                top,
                self.child_scope(doc, top, scope),
                node,
            ) is Some,
        ensures
            self.scope_below(doc, root, handed, node) == self.scope_below(
                doc,
                top,
                self.child_scope(doc, top, self.scope_below(doc, root, handed, top)->0),
                node,
            ),
        decreases node,
    {
        let parent = doc.nodes[node].parent->0 as int;
        if parent != top {
            self.scope_is_that_of_the_whole_walk(doc, root, handed, top, parent);
        }
    }

    /// Nodes past a subtree do not lie below its top.
    proof fn lemma_not_below(
        self,
        doc: DocumentView,
        top: int,
        size: int,
        handed: ScopeView,
        node: int,
    )
        requires
            doc.is_subtree(top, size),
            top + size <= node,
        ensures
            self.scope_below(doc, top, handed, node) is None,
        decreases node,
    {
        if node < doc.nodes.len() {
            if let Some(parent) = doc.nodes[node].parent {
                assert(!doc.has_parent_in(node, top, top + size));
                if top + size <= parent < node {
                    self.lemma_not_below(doc, top, size, handed, parent as int);
                }
            }
        }
    }

    /// Nodes of a subtree lie below its top.
    proof fn lemma_below(
        self,
        doc: DocumentView,
        top: int,
        size: int,
        handed: ScopeView,
        place: int,
    )
        requires
            doc.is_subtree(top, size),
            0 < place < size,
        ensures
            self.scope_below(doc, top, handed, top + place) is Some,
        decreases place,
    {
        let parent = doc.nth(top, place).parent->0 - top;
        if parent > 0 {
            self.lemma_below(doc, top, size, handed, parent);
        }
    }

    /// What lies past a subtree adds nothing to the walk of its top.
    proof fn lemma_nothing_past_subtree(
        self,
        doc: DocumentView,
        top: int,
        size: int,
        handed: ScopeView,
        count: int,
        offset: Option<usize>,
    )
        requires
            doc.is_subtree(top, size),
            top + size <= count,
        ensures
            self.refs_before(doc, top, handed, count, offset) == self.refs_before(
                doc,
                top,
                handed,
                top + size,
                offset,
            ),
        decreases count,
    {
        if top + size < count {
            self.lemma_nothing_past_subtree(doc, top, size, handed, count - 1, offset);
            self.lemma_not_below(doc, top, size, handed, count - 1);
            assert(self.refs_before(doc, top, handed, count, offset) =~= self.refs_before(
                doc,
                top,
                handed,
                count - 1,
                offset,
            ));
        }
    }

    /// The walk from further up finds at the first nodes of a subtree what the walk of its top does.
    proof fn lemma_same_piece(
        self,
        doc: DocumentView,
        root: int,
        handed: ScopeView,
        top: int,
        size: int,
        count: int,
        offset: Option<usize>,
    )
        requires
            doc.is_subtree(top, size),
            self.scope_below(doc, root, handed, top) is Some,
            0 < count <= size,
        ensures
            self.content_refs(doc, root, handed, top, count, offset) == self.tree_refs_before(
                doc,
                top,
                self.scope_below(doc, root, handed, top)->0,
                top + count,
                offset,
            ),
        decreases count,
    {
        let scope = self.scope_below(doc, root, handed, top)->0;
        let inner = self.child_scope(doc, top, scope);
        if count == 1 {
            self.lemma_nothing_up_to_top(doc, top, inner, top + 1, offset);
            assert(self.content_refs(doc, root, handed, top, 0, offset) =~= Seq::empty());
        } else {
            self.lemma_same_piece(doc, root, handed, top, size, count - 1, offset);
            self.lemma_below(doc, top, size, inner, count - 1);
            self.scope_is_that_of_the_whole_walk(doc, root, handed, top, top + count - 1);
        }
        assert(self.content_refs(doc, root, handed, top, count, offset) =~= self.tree_refs_before(
            doc,
            top,
            scope,
            top + count,
            offset,
        ));
    }

    /// The walk from further up finds at a subtree what the walk of its top in the scope that it
    /// stands in finds.
    pub proof fn walk_of_a_subtree_is_a_piece(
        self,
        doc: DocumentView,
        root: int,
        handed: ScopeView,
        top: int,
        size: int,
        offset: Option<usize>,
    )
        requires
            doc.is_subtree(top, size),
            doc.nodes[top].kind == XmlNodeKind::Element,
            self.scope_below(doc, root, handed, top) is Some,
        ensures
            self.content_refs(doc, root, handed, top, size, offset) == self.tree_refs(
                doc,
                top,
                self.scope_below(doc, root, handed, top)->0,
                offset,
            ),
    {
        let scope = self.scope_below(doc, root, handed, top)->0;
        let inner = self.child_scope(doc, top, scope);
        self.lemma_same_piece(doc, root, handed, top, size, size, offset);
        self.lemma_nothing_past_subtree(doc, top, size, inner, doc.nodes.len() as int, offset);
    }
}

/// Symbols of a location, when it names a member.
pub open spec fn member_symbols() -> spec_fn(RefView) -> Seq<Seq<SymbolKey>> {
    |xml_ref: RefView|
        if xml_ref.kind == XmlRefKind::Member {
            seq![xml_ref.symbols]
        } else {
            Seq::empty()
        }
}

/// Symbols of the locations that name a member, in order.
pub open spec fn members_named(refs: Seq<RefView>) -> Seq<Seq<SymbolKey>> {
    concat_map(refs, member_symbols())
}

proof fn lemma_members_add(left: Seq<RefView>, right: Seq<RefView>)
    ensures
        members_named(left + right) == members_named(left) + members_named(right),
{
    lemma_concat_map_add(left, right, member_symbols());
}

/// A single location names what it names.
proof fn lemma_members_single(xml_ref: RefView)
    ensures
        members_named(seq![xml_ref]) == member_symbols()(xml_ref),
{
    assert(seq![xml_ref].drop_last() =~= Seq::<RefView>::empty());
    assert(concat_map(seq![xml_ref].drop_last(), member_symbols()) =~= Seq::empty());
    assert(members_named(seq![xml_ref]) =~= member_symbols()(xml_ref));
}

/// Parts that name the same members name the same together.
proof fn lemma_members_parts<A>(
    left: Seq<A>,
    right: Seq<A>,
    left_part: spec_fn(A) -> Seq<RefView>,
    right_part: spec_fn(A) -> Seq<RefView>,
)
    requires
        left.len() == right.len(),
        forall|k: int|
            0 <= k < left.len() ==> members_named(left_part(#[trigger] left[k])) == members_named(
                right_part(right[k]),
            ),
    ensures
        members_named(concat_map(left, left_part)) == members_named(concat_map(right, right_part)),
    decreases left.len(),
{
    if left.len() > 0 {
        let (l, r) = (left.drop_last(), right.drop_last());
        assert forall|k: int| 0 <= k < l.len() implies members_named(left_part(#[trigger] l[k]))
            == members_named(right_part(r[k])) by {
            assert(l[k] == left[k] && r[k] == right[k]);
        }
        lemma_members_parts(l, r, left_part, right_part);
        assert(members_named(left_part(left[left.len() - 1])) == members_named(
            right_part(right[right.len() - 1]),
        ));
        lemma_members_add(concat_map(l, left_part), left_part(left.last()));
        lemma_members_add(concat_map(r, right_part), right_part(right.last()));
    }
}

impl Resolver {
    /// Xml ids inside of a value name no member.
    proof fn lemma_spans_name_none(
        self,
        text: Seq<char>,
        spans: Seq<ByteSpan>,
        offset: Option<usize>,
    )
        ensures
            members_named(self.span_list_refs(text, spans, offset)) == Seq::<
                Seq<SymbolKey>,
            >::empty(),
        decreases spans.len(),
    {
        let part = self.span_refs(text, offset);
        if spans.len() > 0 {
            let shorter = spans.drop_last();
            self.lemma_spans_name_none(text, shorter, offset);
            lemma_members_add(concat_map(shorter, part), part(spans.last()));
            let last = part(spans.last());
            if last.len() > 0 {
                assert(last =~= seq![last[0]]);
                lemma_members_single(last[0]);
            } else {
                assert(last =~= Seq::empty());
            }
        }
    }

    /// Attributes that are alike, of nodes that are alike, name the same members.
    proof fn lemma_alike_attribute_members(
        self,
        text: Seq<char>,
        node: NodeView,
        other_text: Seq<char>,
        other: NodeView,
        scope: ScopeView,
        k: int,
    )
        requires
            nodes_alike(node, other),
            0 <= k < node.attributes.len(),
        ensures
            members_named(
                self.attribute_part(text, node, scope, None)(node.attributes[k]),
            ) == members_named(
                self.attribute_part(other_text, other, scope, None)(other.attributes[k]),
            ),
    {
        let (left, right) = (node.attributes[k], other.attributes[k]);
        assert(left.name == right.name && left.value == right.value);
        lemma_alike_attribute(node, other, "type"@);
        let (whole, other_whole) = (
            self.value_refs(node, scope, left),
            self.value_refs(other, scope, right),
        );
        self.lemma_spans_name_none(text, value_spans(text, left), None);
        self.lemma_spans_name_none(other_text, value_spans(other_text, right), None);
        lemma_members_add(whole, self.span_list_refs(text, value_spans(text, left), None));
        lemma_members_add(
            other_whole,
            self.span_list_refs(other_text, value_spans(other_text, right), None),
        );
        assert(whole.len() == other_whole.len());
        if whole.len() > 0 {
            assert(whole =~= seq![whole[0]]);
            assert(other_whole =~= seq![other_whole[0]]);
            assert(whole[0].kind == other_whole[0].kind && whole[0].symbols
                == other_whole[0].symbols);
            lemma_members_single(whole[0]);
            lemma_members_single(other_whole[0]);
        } else {
            assert(whole =~= other_whole);
        }
    }

    /// Nodes that are alike name the same members in the same scope.
    proof fn lemma_alike_node_members(
        self,
        text: Seq<char>,
        node: NodeView,
        other_text: Seq<char>,
        other: NodeView,
        scope: ScopeView,
    )
        requires
            nodes_alike(node, other),
        ensures
            members_named(self.node_refs(text, node, scope, None)) == members_named(
                self.node_refs(other_text, other, scope, None),
            ),
    {
        if node.kind == XmlNodeKind::Element {
            let part = self.attribute_part(text, node, scope, None);
            let other_part = self.attribute_part(other_text, other, scope, None);
            assert forall|k: int| 0 <= k < node.attributes.len() implies members_named(
                part(#[trigger] node.attributes[k]),
            ) == members_named(other_part(other.attributes[k])) by {
                self.lemma_alike_attribute_members(text, node, other_text, other, scope, k);
            }
            lemma_members_parts(node.attributes, other.attributes, part, other_part);
        } else if node.kind == XmlNodeKind::Text {
            let (refs, other_refs) = (
                self.text_refs(node, scope, None),
                self.text_refs(other, scope, None),
            );
            if refs.len() > 0 {
                assert(refs =~= seq![refs[0]]);
                assert(other_refs =~= seq![other_refs[0]]);
                lemma_members_single(refs[0]);
                lemma_members_single(other_refs[0]);
            } else {
                assert(refs =~= other_refs);
            }
        }
    }

    /// Subtrees that are alike name the same members when their tops stand in the same scope.
    proof fn lemma_alike_members(
        self,
        doc: DocumentView,
        root: int,
        top: int,
        other_doc: DocumentView,
        other_root: int,
        other_top: int,
        size: int,
        handed: ScopeView,
        count: int,
    )
        requires
            subtrees_alike(doc, top, other_doc, other_top, size),
            0 <= root < top,
            0 <= other_root < other_top,
            self.scope_below(doc, root, handed, top) == self.scope_below(
                other_doc,
                other_root,
                handed,
                other_top,
            ),
            0 <= count <= size,
        ensures
            members_named(self.content_refs(doc, root, handed, top, count, None)) == members_named(
                self.content_refs(other_doc, other_root, handed, other_top, count, None),
            ),
        decreases count,
    {
        if count > 0 {
            let place = count - 1;
            self.lemma_alike_members(
                doc,
                root,
                top,
                other_doc,
                other_root,
                other_top,
                size,
                handed,
                place,
            );
            self.lemma_alike_scope(
                doc,
                root,
                top,
                other_doc,
                other_root,
                other_top,
                size,
                handed,
                place,
            );
            assert(nodes_alike(doc.nth(top, place), other_doc.nth(other_top, place)));
            if let Some(scope) = self.scope_below(doc, root, handed, top + place) {
                self.lemma_alike_node_members(
                    doc.text,
                    doc.nth(top, place),
                    other_doc.text,
                    other_doc.nth(other_top, place),
                    scope,
                );
            }
            lemma_members_add(
                self.content_refs(doc, root, handed, top, place, None),
                self.refs_at(doc, root, handed, top + place, None),
            );
            lemma_members_add(
                self.content_refs(other_doc, other_root, handed, other_top, place, None),
                self.refs_at(other_doc, other_root, handed, other_top + place, None),
            );
        }
    }

    /// What stands in the arch of a view resolves against the model that the record names, wherever
    /// in the record it does.
    pub proof fn arch_resolves_on_target_model(
        self,
        doc: DocumentView,
        record: int,
        scope: ScopeView,
        arch: int,
    )
        requires
            is_view_record(doc, record),
            is_arch_field(doc, record, arch),
            doc.target_model(record) is Some,
        ensures
            self.scope_below(doc, record, self.child_scope(doc, record, scope), arch) == Some(
                self.child_scope(doc, record, scope),
            ),
            self.child_scope(doc, arch, self.child_scope(doc, record, scope)).record_model
                == ModelScopeView::Known(doc.target_model(record)->0),
    {
        reveal_strlit("ir.ui.view");
        reveal_strlit("record");
        reveal_strlit("field");
        assert("field"@.len() != "record"@.len());
        assert("ir.ui.view"@.len() > 0);
    }

    /// The members named in the arch of a view are the same wherever the record names its model: of
    /// two records of views that name it alike, stand in the same scope and hold the same arch, the
    /// walks find the members of the arch in one piece each, with the same symbols in the same
    /// order, whether the arch comes first or last.
    pub proof fn arch_members_ignore_order(
        self,
        doc: DocumentView,
        record: int,
        arch: int,
        other_doc: DocumentView,
        other_record: int,
        other_arch: int,
        scope: ScopeView,
        size: int,
    )
        requires
            is_view_record(doc, record),
            is_arch_field(doc, record, arch),
            is_view_record(other_doc, other_record),
            is_arch_field(other_doc, other_record, other_arch),
            doc.model_texts(record) == other_doc.model_texts(other_record),
            subtrees_alike(doc, arch, other_doc, other_arch, size),
        ensures
            members_named(self.tree_piece(doc, record, scope, arch, size, None)) == members_named(
                self.tree_piece(other_doc, other_record, scope, other_arch, size, None),
            ),
            self.tree_refs(doc, record, scope, None) == self.tree_refs_before(
                doc,
                record,
                scope,
                arch,
                None,
            ) + self.tree_piece(doc, record, scope, arch, size, None) + self.tree_piece(
                doc,
                record,
                scope,
                arch + size,
                doc.nodes.len() - arch - size,
                None,
            ),
            self.tree_refs(other_doc, other_record, scope, None) == self.tree_refs_before(
                other_doc,
                other_record,
                scope,
                other_arch,
                None,
            ) + self.tree_piece(other_doc, other_record, scope, other_arch, size, None)
                + self.tree_piece(
                other_doc,
                other_record,
                scope,
                other_arch + size,
                other_doc.nodes.len() - other_arch - size,
                None,
            ),
    {
        target_model_ignores_other_children(doc, record, other_doc, other_record);
        let handed = self.child_scope(doc, record, scope);
        assert(handed == self.child_scope(other_doc, other_record, scope));
        assert(self.scope_below(doc, record, handed, arch) == Some(handed));
        assert(self.scope_below(other_doc, other_record, handed, other_arch) == Some(handed));
        self.lemma_alike_members(
            doc,
            record,
            arch,
            other_doc,
            other_record,
            other_arch,
            size,
            handed,
            size,
        );
        self.tree_refs_are_pieces(doc, record, scope, arch, size, None);
        self.tree_refs_are_pieces(other_doc, other_record, scope, other_arch, size, None);
    }
}

/// Whether a node is a direct `<field name="arch">` of a record.
pub open spec fn is_arch_field(doc: DocumentView, record: int, node: int) -> bool {
    &&& 0 <= record < node
    &&& record <= usize::MAX
    &&& doc.is_child(record, node)
    &&& doc.nodes[node].kind == XmlNodeKind::Element
    &&& doc.nodes[node].tag == "field"@
    &&& doc.nodes[node].attribute("name"@) == Some("arch"@)
}

/// Whether a node is a `<record model="ir.ui.view">`.
pub open spec fn is_view_record(doc: DocumentView, node: int) -> bool {
    &&& doc.nodes[node].kind == XmlNodeKind::Element
    &&& doc.nodes[node].tag == "record"@
    &&& doc.nodes[node].last_attribute("model"@) == Some("ir.ui.view"@)
}

} // verus!
