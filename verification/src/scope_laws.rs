//! What holds of scopes: which model the content of an element belongs to.
use vstd::prelude::*;

use crate::text::{leading_space, trailing_space, trimmed, white_space};
use crate::xml_document::{DocumentView, NodeView, XmlNodeKind};
use crate::xml_lookup::Resolver;
use crate::xml_scope::{ModelScopeView, ScopeView};

verus! {

/// The tags that the walk tells apart are distinct.
pub proof fn lemma_tags_differ()
    ensures
        "record"@ != "field"@,
        "record"@ != "groupby"@,
        "record"@ != "menuitem"@,
        "record"@ != "template"@,
        "record"@ != "button"@,
        "field"@ != "groupby"@,
        "field"@ != "menuitem"@,
        "field"@ != "template"@,
        "field"@ != "button"@,
        "groupby"@ != "menuitem"@,
        "groupby"@ != "template"@,
        "groupby"@ != "button"@,
        "menuitem"@ != "template"@,
        "menuitem"@ != "button"@,
        "template"@ != "button"@,
{
    reveal_strlit("record");
    reveal_strlit("field");
    reveal_strlit("groupby");
    reveal_strlit("menuitem");
    reveal_strlit("template");
    reveal_strlit("button");
    assert("record"@.len() == 6 && "field"@.len() == 5 && "groupby"@.len() == 7);
    assert("menuitem"@.len() == 8 && "template"@.len() == 8 && "button"@.len() == 6);
    assert("record"@[0] == 'r' && "button"@[0] == 'b');
    assert("menuitem"@[0] == 'm' && "template"@[0] == 't');
}

/// A model is known when it has a name; an unknown one and none are not, nor is the empty name.
pub proof fn only_named_models_are_known(model: Seq<char>)
    ensures
        model.len() > 0 ==> ModelScopeView::Known(model).known() == Some(model),
        model.len() == 0 ==> ModelScopeView::Known(model).known() is None,
        ModelScopeView::Unknown.known() is None,
        ModelScopeView::Unset.known() is None,
{
}

/// Whether a node is an element of one of the tags of views: `form`, `list`, `tree`, `graph`, `kanban`
/// or `calendar`.
pub open spec fn is_view_element(node: NodeView) -> bool {
    &&& node.kind == XmlNodeKind::Element
    &&& {
        ||| node.tag == "form"@
        ||| node.tag == "list"@
        ||| node.tag == "tree"@
        ||| node.tag == "graph"@
        ||| node.tag == "kanban"@
        ||| node.tag == "calendar"@
    }
}

/// Whether a node is a `<field>` or, with `tag`, another element, that names a field in a known model.
pub open spec fn names_field(
    doc: DocumentView,
    node: int,
    tag: Seq<char>,
    scope: ScopeView,
    model: Seq<char>,
    field: Seq<char>,
) -> bool {
    &&& doc.nodes[node].kind == XmlNodeKind::Element
    &&& doc.nodes[node].tag == tag
    &&& doc.nodes[node].attribute("name"@) == Some(field)
    &&& scope.record_model == ModelScopeView::Known(model)
    &&& model.len() > 0
}

/// The model that a field relates to, unknown when that does not resolve.
pub open spec fn related(comodel: Option<Seq<char>>) -> ModelScopeView {
    match comodel {
        Some(comodel) => ModelScopeView::Known(comodel),
        None => ModelScopeView::Unknown,
    }
}

impl Resolver {
    /// The content of a `<field>` that holds a view, be it a `form`, `list`, `tree`, `graph`, `kanban`
    /// or `calendar`, belongs to the comodel of the field, or to an unknown model when the comodel does
    /// not resolve.
    pub proof fn inline_views_are_on_the_comodel(
        self,
        doc: DocumentView,
        node: int,
        scope: ScopeView,
        model: Seq<char>,
        field: Seq<char>,
        child: int,
    )
        requires
            names_field(doc, node, "field"@, scope, model, field),
            field != "arch"@,
            0 <= child < doc.nodes.len(),
            doc.nodes[child].parent == Some(node as usize),
            doc.nodes[child].kind == XmlNodeKind::Element,
            ({
                ||| doc.nodes[child].tag == "form"@
                ||| doc.nodes[child].tag == "list"@
                ||| doc.nodes[child].tag == "tree"@
                ||| doc.nodes[child].tag == "graph"@
                ||| doc.nodes[child].tag == "kanban"@
                ||| doc.nodes[child].tag == "calendar"@
            }),
        ensures
            self.child_scope(doc, node, scope).record_model == related(
                self.comodel(model, field),
            ),
            self.comodel(model, field) matches Some(comodel) ==> self.child_scope(
                doc,
                node,
                scope,
            ).record_model == ModelScopeView::Known(comodel),
    {
        lemma_tags_differ();
        assert(doc.is_subview_child(node, child));
    }

    /// The content of a `<field>` that holds no view, the arch of a view aside, belongs to the same
    /// model as the field.
    pub proof fn other_fields_keep_the_model(
        self,
        doc: DocumentView,
        node: int,
        scope: ScopeView,
        model: Seq<char>,
        field: Seq<char>,
    )
        requires
            names_field(doc, node, "field"@, scope, model, field),
            field != "arch"@,
            forall|child: int|
                0 <= child < doc.nodes.len() && (#[trigger] doc.nodes[child]).parent == Some(
                    node as usize,
                ) ==> !is_view_element(doc.nodes[child]),
        ensures
            self.child_scope(doc, node, scope).record_model == ModelScopeView::Known(model),
    {
        lemma_tags_differ();
        if doc.has_subview(node) {
            let child = choose|child: int| doc.is_subview_child(node, child);
            assert(is_view_element(doc.nodes[child]));
        }
    }

    /// The content of a `<groupby>` belongs to the comodel of the field that it names, whatever it
    /// holds, or to an unknown model when the comodel does not resolve.
    pub proof fn groupby_switches_to_the_comodel(
        self,
        doc: DocumentView,
        node: int,
        scope: ScopeView,
        model: Seq<char>,
        field: Seq<char>,
    )
        requires
            names_field(doc, node, "groupby"@, scope, model, field),
        ensures
            self.child_scope(doc, node, scope).record_model == related(
                self.comodel(model, field),
            ),
    {
        lemma_tags_differ();
    }

    /// The content of a `<field name="arch">` belongs to the model that the view targets, and to that
    /// of the record when it targets none.
    pub proof fn arch_is_on_the_target(
        self,
        doc: DocumentView,
        node: int,
        scope: ScopeView,
        model: Seq<char>,
    )
        requires
            names_field(doc, node, "field"@, scope, model, "arch"@),
        ensures
            self.child_scope(doc, node, scope).record_model == match scope.view_target_model {
                Some(target) => ModelScopeView::Known(target),
                None => ModelScopeView::Known(model),
            },
    {
        lemma_tags_differ();
    }

    /// Without a model in scope, or without a name, the content of a `<field>` or a `<groupby>` has the
    /// model of the element, be it unknown or none.
    pub proof fn nothing_switches_without_a_field(
        self,
        doc: DocumentView,
        node: int,
        scope: ScopeView,
    )
        requires
            doc.nodes[node].kind == XmlNodeKind::Element,
            doc.nodes[node].tag == "field"@ || doc.nodes[node].tag == "groupby"@,
            doc.nodes[node].attribute("name"@) is None || scope.record_model
                == ModelScopeView::Unknown || scope.record_model == ModelScopeView::Unset
                || scope.record_model == ModelScopeView::Known(Seq::empty()),
        ensures
            self.child_scope(doc, node, scope).record_model == scope.record_model,
    {
        lemma_tags_differ();
        only_named_models_are_known(Seq::empty());
    }

    /// A `<field>` and a `<groupby>` hand their name down, and leave the target of a view as it is.
    pub proof fn fields_hand_their_name_down(
        self,
        doc: DocumentView,
        node: int,
        scope: ScopeView,
        k: int,
    )
        requires
            doc.nodes[node].kind == XmlNodeKind::Element,
            doc.nodes[node].tag == "field"@ || doc.nodes[node].tag == "groupby"@,
            0 <= k < doc.nodes[node].attributes.len(),
            doc.nodes[node].attributes[k].name == "name"@,
            forall|j: int|
                k < j < doc.nodes[node].attributes.len() ==> (
                #[trigger] doc.nodes[node].attributes[j]).name != "name"@,
        ensures
            self.child_scope(doc, node, scope).field_name == Some(
                doc.nodes[node].attributes[k].value,
            ),
            self.child_scope(doc, node, scope).view_target_model == scope.view_target_model,
    {
        lemma_tags_differ();
        lemma_last_named(
            doc.nodes[node],
            "name"@,
            k,
            doc.nodes[node].attributes.len() as int,
        );
    }

    /// The content of a `<record>` belongs to the model that the record names; a record of a view
    /// targets the model of the first of its own `<field name="model">` that names one, and one of no
    /// view keeps the target.
    pub proof fn records_set_the_model(
        self,
        doc: DocumentView,
        node: int,
        scope: ScopeView,
        k: int,
    )
        requires
            doc.nodes[node].kind == XmlNodeKind::Element,
            doc.nodes[node].tag == "record"@,
            0 <= k < doc.nodes[node].attributes.len(),
            doc.nodes[node].attributes[k].name == "model"@,
            forall|j: int|
                k < j < doc.nodes[node].attributes.len() ==> (
                #[trigger] doc.nodes[node].attributes[j]).name != "model"@,
        ensures
            ({
                let after = self.child_scope(doc, node, scope);
                let model = doc.nodes[node].attributes[k].value;
                &&& after.record_model == ModelScopeView::Known(model)
                &&& after.field_name == scope.field_name
                &&& model == "ir.ui.view"@ ==> after.view_target_model == doc.target_model(node)
                &&& model != "ir.ui.view"@ ==> after.view_target_model == scope.view_target_model
            }),
    {
        lemma_last_named(
            doc.nodes[node],
            "model"@,
            k,
            doc.nodes[node].attributes.len() as int,
        );
        reveal_strlit("ir.ui.view");
        assert("ir.ui.view"@.len() > 0);
    }

    /// A `<record>` that names no model hands the one that it stands in down.
    pub proof fn records_without_a_model_keep_it(
        self,
        doc: DocumentView,
        node: int,
        scope: ScopeView,
    )
        requires
            doc.nodes[node].kind == XmlNodeKind::Element,
            doc.nodes[node].tag == "record"@,
            forall|j: int|
                0 <= j < doc.nodes[node].attributes.len() ==> (
                #[trigger] doc.nodes[node].attributes[j]).name != "model"@,
        ensures
            self.child_scope(doc, node, scope).record_model == scope.record_model,
            self.child_scope(doc, node, scope).field_name == scope.field_name,
    {
        lemma_none_named(doc.nodes[node], "model"@, doc.nodes[node].attributes.len() as int);
    }

    /// No other node changes the scope for its content.
    pub proof fn other_elements_keep_the_scope(
        self,
        doc: DocumentView,
        node: int,
        scope: ScopeView,
    )
        requires
            doc.nodes[node].kind != XmlNodeKind::Element || doc.nodes[node].tag != "record"@
                && doc.nodes[node].tag != "field"@ && doc.nodes[node].tag != "groupby"@,
        ensures
            self.child_scope(doc, node, scope) == scope,
    {
    }

    /// The children of the root of a document stand in a scope without a model; every other node
    /// stands in what its parent hands down.
    pub proof fn scopes_come_from_the_parent(self, doc: DocumentView, node: int, parent: int)
        requires
            doc.wf(),
            0 < node < doc.nodes.len(),
            doc.nodes[node].parent == Some(parent as usize),
            0 <= parent < doc.nodes.len(),
            parent <= usize::MAX,
        ensures
            parent == 0 ==> self.scope_of(doc, 0, node) == Some(
                ScopeView {
                    record_model: ModelScopeView::Unset,
                    field_name: None,
                    view_target_model: None,
                },
            ),
            parent > 0 ==> self.scope_of(doc, 0, parent) is Some,
            parent > 0 ==> self.scope_of(doc, 0, node) == Some(
                self.child_scope(doc, parent, self.scope_of(doc, 0, parent)->0),
            ),
    {
        assert(doc.node_wf(node));
        if parent > 0 {
            self.walk_reaches_every_node(doc, parent);
        }
    }
}

proof fn lemma_last_named(node: NodeView, name: Seq<char>, k: int, count: int)
    requires
        0 <= k < count <= node.attributes.len(),
        node.attributes[k].name == name,
        forall|j: int| k < j < count ==> (#[trigger] node.attributes[j]).name != name,
    ensures
        node.last_attribute_of(name, count) == Some(node.attributes[k].value),
    decreases count,
{
    if k < count - 1 {
        assert(node.attributes[count - 1].name != name);
        lemma_last_named(node, name, k, count - 1);
    }
}

proof fn lemma_none_named(node: NodeView, name: Seq<char>, count: int)
    requires
        count <= node.attributes.len(),
        forall|j: int| 0 <= j < count ==> (#[trigger] node.attributes[j]).name != name,
    ensures
        node.last_attribute_of(name, count) is None,
    decreases count,
{
    if count > 0 {
        assert(node.attributes[count - 1].name != name);
        lemma_none_named(node, name, count - 1);
    }
}

/// An element has under a name the value of its first attribute of that name, and nothing when it has
/// no such attribute.
pub proof fn attributes_are_found_by_name(node: NodeView, name: Seq<char>)
    ensures
        forall|k: int|
            0 <= k < node.attributes.len() && (#[trigger] node.attributes[k]).name == name && (
            forall|j: int| 0 <= j < k ==> (#[trigger] node.attributes[j]).name != name)
                ==> node.attribute(name) == Some(node.attributes[k].value),
        (forall|k: int|
            0 <= k < node.attributes.len() ==> (#[trigger] node.attributes[k]).name != name)
            ==> node.attribute(name) is None,
{
    assert forall|k: int|
        0 <= k < node.attributes.len() && (#[trigger] node.attributes[k]).name == name && (forall|
            j: int,
        |
            0 <= j < k ==> (#[trigger] node.attributes[j]).name != name) implies node.attribute(name)
        == Some(node.attributes[k].value) by {
        assert(node.is_first_named(name, k));
        node.lemma_attribute(name, k);
    }
    if forall|k: int| 0 <= k < node.attributes.len() ==> (#[trigger] node.attributes[k]).name
        != name {
        assert forall|k: int| !node.is_first_named(name, k) by {}
    }
}

/// Whether a node is a direct `<field name="model">` of a record with a text that is more than white
/// space.
pub open spec fn names_target(doc: DocumentView, record: int, node: int) -> bool {
    &&& 0 <= node < doc.nodes.len()
    &&& doc.nodes[node].parent == Some(record as usize)
    &&& doc.nodes[node].kind == XmlNodeKind::Element
    &&& doc.nodes[node].tag == "field"@
    &&& doc.nodes[node].attribute("name"@) == Some("model"@)
    &&& doc.nodes[node].text matches Some(text)
    &&& exists|i: int| 0 <= i < text.len() && !white_space(#[trigger] text[i])
}

/// A view targets the model that the first of the `<field name="model">` of its record names that
/// names any, without the white space around it; none when there is no such field.
pub proof fn target_is_the_first_model_named(doc: DocumentView, record: int)
    requires
        0 <= record <= usize::MAX,
        doc.wf(),
    ensures
        forall|node: int| #[trigger]
            names_target(doc, record, node) && (forall|other: int|
                0 <= other < node ==> !#[trigger] names_target(doc, record, other))
                ==> doc.target_model(record) == Some(trimmed(doc.nodes[node].text->0)),
        (forall|node: int| !#[trigger] names_target(doc, record, node)) ==> doc.target_model(
            record,
        ) is None,
{
    assert forall|node: int| #[trigger]
        names_target(doc, record, node) && (forall|other: int|
            0 <= other < node ==> !#[trigger] names_target(doc, record, other)) implies doc.target_model(
        record,
    ) == Some(trimmed(doc.nodes[node].text->0)) by {
        assert(doc.node_wf(node));
        lemma_target_at(doc, record, record + 1, node);
    }
    if forall|node: int| !#[trigger] names_target(doc, record, node) {
        lemma_target_none(doc, record, record + 1);
    }
}

proof fn lemma_named(doc: DocumentView, record: int, node: int)
    requires
        0 <= node < doc.nodes.len(),
        0 <= record <= usize::MAX,
    ensures
        names_target(doc, record, node) ==> doc.named_model(record, node) == Some(
            trimmed(doc.nodes[node].text->0),
        ),
        !names_target(doc, record, node) ==> doc.named_model(record, node) is None,
{
    if let Some(text) = doc.nodes[node].text {
        trimming_takes_white_space_off(text);
    }
}

proof fn lemma_target_at(doc: DocumentView, record: int, from: int, node: int)
    requires
        0 <= record <= usize::MAX,
        0 <= from <= node,
        names_target(doc, record, node),
        forall|other: int| 0 <= other < node ==> !#[trigger] names_target(doc, record, other),
    ensures
        doc.target_model_from(record, from) == Some(trimmed(doc.nodes[node].text->0)),
    decreases node - from,
{
    lemma_named(doc, record, from);
    if from < node {
        assert(!names_target(doc, record, from));
        lemma_target_at(doc, record, from + 1, node);
    }
}

proof fn lemma_target_none(doc: DocumentView, record: int, from: int)
    requires
        0 <= record <= usize::MAX,
        0 <= from,
        forall|node: int| !#[trigger] names_target(doc, record, node),
    ensures
        doc.target_model_from(record, from) is None,
    decreases doc.nodes.len() - from,
{
    if from < doc.nodes.len() {
        assert(!names_target(doc, record, from));
        lemma_named(doc, record, from);
        lemma_target_none(doc, record, from + 1);
    }
}

proof fn lemma_leading(text: Seq<char>)
    ensures
        leading_space(text) <= text.len(),
        forall|i: int| 0 <= i < leading_space(text) ==> white_space(#[trigger] text[i]),
        leading_space(text) < text.len() ==> !white_space(text[leading_space(text) as int]),
    decreases text.len(),
{
    if text.len() > 0 && white_space(text[0]) {
        let rest = text.drop_first();
        lemma_leading(rest);
        assert forall|i: int| 0 <= i < leading_space(text) implies white_space(
            #[trigger] text[i],
        ) by {
            if i > 0 {
                assert(rest[i - 1] == text[i]);
            }
        }
        if leading_space(text) < text.len() {
            assert(rest[leading_space(rest) as int] == text[leading_space(text) as int]);
        }
    }
}

proof fn lemma_trailing(text: Seq<char>)
    ensures
        trailing_space(text) <= text.len(),
        forall|i: int|
            text.len() - trailing_space(text) <= i < text.len() ==> white_space(#[trigger] text[i]),
        trailing_space(text) < text.len() ==> !white_space(
            text[text.len() - trailing_space(text) - 1],
        ),
    decreases text.len(),
{
    if text.len() > 0 && white_space(text.last()) {
        let rest = text.drop_last();
        lemma_trailing(rest);
        assert forall|i: int|
            text.len() - trailing_space(text) <= i < text.len() implies white_space(
            #[trigger] text[i],
        ) by {
            if i < rest.len() {
                assert(rest[i] == text[i]);
            }
        }
    }
}

/// Trimming takes white space off both ends of a text and nothing else: what it leaves starts and ends
/// with something else, and is empty only of a text of white space.
pub proof fn trimming_takes_white_space_off(text: Seq<char>)
    ensures
        exists|start: int, end: int|
            0 <= start <= end <= text.len() && #[trigger] text.subrange(start, end) == trimmed(text)
                && (forall|i: int| 0 <= i < start ==> white_space(#[trigger] text[i])) && (forall|
                i: int,
            |
                end <= i < text.len() ==> white_space(#[trigger] text[i])),
        trimmed(text).len() > 0 ==> !white_space(trimmed(text)[0]) && !white_space(
            trimmed(text).last(),
        ),
        trimmed(text).len() > 0 <==> exists|i: int|
            0 <= i < text.len() && !white_space(#[trigger] text[i]),
{
    let start = leading_space(text) as int;
    lemma_leading(text);
    let rest = text.skip(start);
    lemma_trailing(rest);
    let end = text.len() - trailing_space(rest);
    assert(trimmed(text) =~= text.subrange(start, end));
    assert forall|i: int| end <= i < text.len() implies white_space(#[trigger] text[i]) by {
        assert(rest[i - start] == text[i]);
    }
    if start < text.len() {
        assert(rest[0] == text[start]);
        if trailing_space(rest) >= rest.len() {
            assert(white_space(rest[0]));
        }
        assert(!white_space(rest[rest.len() - trailing_space(rest) - 1]));
    }
}

/// Among the characters of ASCII white space is the blank and those from the tab to the carriage
/// return; no letter, digit or sign is.
pub proof fn white_space_of_ascii(c: char)
    requires
        (c as u32) < 0x80,
    ensures
        white_space(c) <==> c == ' ' || 9 <= c as u32 <= 13,
{
}

} // verus!
