//! What holds of the position under the cursor: what it expects, and what a completion replaces.
use vstd::prelude::*;

use crate::completion_items::FilterView;
use crate::completion_laws::completions_continue_what_is_typed;
use crate::scope_laws::{lemma_tags_differ, only_named_models_are_known};
use crate::seqs::{
    first_index, first_where, lemma_first_index, lemma_first_where, lemma_is_first_index,
};
use crate::symbols::{ModuleKey, SessionInfo};
use crate::text::{boundary, byte_slice, lemma_ascii_boundary, utf8};
use crate::xml_completion::{
    attribute_place, attribute_span, document_candidates_fit, document_completion,
    is_element_at, is_empty_content_at, is_text_at, is_value_at, names_model, position_at,
    target_list, text_completion, text_place, text_span, TargetView,
};
use crate::xml_document::{AttributeView, DocumentView, NodeView, XmlNodeKind};
use crate::xml_lookup::Resolver;
use crate::xml_repair::repaired_text;
use crate::xml_scope::{ModelScopeView, ScopeView};
use crate::xml_spans::{
    last_byte, lemma_last_byte, lemma_next_byte, lemma_skip_space_back, lemma_skip_typed_lead,
    skip_space, ByteSpan,
};

verus! {

/// The attributes that the features tell apart are distinct.
pub proof fn lemma_names_differ()
    ensures
        "name"@ != "model"@,
        "name"@ != "ref"@,
        "name"@ != "parent"@,
        "name"@ != "action"@,
        "name"@ != "groups"@,
        "name"@ != "t-call"@,
        "name"@ != "id"@,
        "name"@ != "inherit_id"@,
        "model"@ != "ref"@,
        "model"@ != "parent"@,
        "model"@ != "action"@,
        "model"@ != "groups"@,
        "model"@ != "t-call"@,
        "model"@ != "id"@,
        "model"@ != "inherit_id"@,
        "ref"@ != "parent"@,
        "ref"@ != "action"@,
        "ref"@ != "groups"@,
        "ref"@ != "t-call"@,
        "ref"@ != "id"@,
        "parent"@ != "action"@,
        "parent"@ != "groups"@,
        "parent"@ != "t-call"@,
        "parent"@ != "id"@,
        "action"@ != "groups"@,
        "action"@ != "t-call"@,
        "action"@ != "id"@,
        "groups"@ != "t-call"@,
        "groups"@ != "id"@,
        "groups"@ != "inherit_id"@,
        "t-call"@ != "id"@,
        "t-call"@ != "inherit_id"@,
        "id"@ != "inherit_id"@,
{
    reveal_strlit("name");
    reveal_strlit("model");
    reveal_strlit("ref");
    reveal_strlit("parent");
    reveal_strlit("action");
    reveal_strlit("groups");
    reveal_strlit("t-call");
    reveal_strlit("id");
    reveal_strlit("inherit_id");
    assert("name"@.len() == 4 && "model"@.len() == 5 && "ref"@.len() == 3 && "id"@.len() == 2);
    assert("parent"@.len() == 6 && "action"@.len() == 6 && "groups"@.len() == 6);
    assert("t-call"@.len() == 6 && "inherit_id"@.len() == 10);
    assert("parent"@[0] == 'p' && "action"@[0] == 'a' && "groups"@[0] == 'g' && "t-call"@[0]
        == 't');
}

/// Whether the model of a scope is known, and which it is.
pub open spec fn is_on(scope: ScopeView, model: Seq<char>) -> bool {
    scope.record_model == ModelScopeView::Known(model) && model.len() > 0
}

/// Whether the model of a scope is not known: none, an unknown one or one without a name.
pub open spec fn is_on_no_model(scope: ScopeView) -> bool {
    ||| scope.record_model == ModelScopeView::Unset
    ||| scope.record_model == ModelScopeView::Unknown
    ||| scope.record_model == ModelScopeView::Known(Seq::empty())
}

impl Resolver {
    /// The `name` of a `<field>` and of a `<groupby>` expects a field of the model in scope, and
    /// nothing when no model is known.
    pub proof fn names_of_fields_expect_fields(
        self,
        node: NodeView,
        attribute: AttributeView,
        scope: ScopeView,
        model: Seq<char>,
    )
        requires
            node.tag == "field"@ || node.tag == "groupby"@,
            attribute.name == "name"@,
        ensures
            is_on(scope, model) ==> self.attribute_target(node, attribute, scope) == Some(
                TargetView::Field(model),
            ),
            is_on_no_model(scope) ==> self.attribute_target(node, attribute, scope) is None,
    {
        lemma_tags_differ();
        lemma_names_differ();
        only_named_models_are_known(model);
        only_named_models_are_known(Seq::empty());
    }

    /// The `name` of a `<button>` expects a method of the model in scope, nothing when no model is
    /// known, and nothing when the button is of type `action`.
    pub proof fn names_of_buttons_expect_methods(
        self,
        node: NodeView,
        attribute: AttributeView,
        scope: ScopeView,
        model: Seq<char>,
    )
        requires
            node.tag == "button"@,
            attribute.name == "name"@,
        ensures
            node.attribute("type"@) == Some("action"@) ==> self.attribute_target(
                node,
                attribute,
                scope,
            ) is None,
            node.attribute("type"@) != Some("action"@) && is_on(scope, model)
                ==> self.attribute_target(node, attribute, scope) == Some(
                TargetView::Method(model),
            ),
            is_on_no_model(scope) ==> self.attribute_target(node, attribute, scope) is None,
    {
        lemma_tags_differ();
        lemma_names_differ();
        only_named_models_are_known(model);
        only_named_models_are_known(Seq::empty());
    }

    /// The `model` of a `<record>` expects a model.
    pub proof fn models_of_records_expect_models(
        self,
        node: NodeView,
        attribute: AttributeView,
        scope: ScopeView,
    )
        requires
            node.tag == "record"@,
            attribute.name == "model"@,
        ensures
            self.attribute_target(node, attribute, scope) == Some(TargetView::Model),
    {
    }

    /// The `ref` of a `<field>` expects an xml id of the comodel of the field, and any when the field
    /// has none or is not known.
    pub proof fn refs_expect_ids_of_the_comodel(
        self,
        node: NodeView,
        attribute: AttributeView,
        scope: ScopeView,
        model: Seq<char>,
        field: Seq<char>,
    )
        requires
            node.tag == "field"@,
            attribute.name == "ref"@,
        ensures
            is_on(scope, model) && node.attribute("name"@) == Some(field) && self.comodel(
                model,
                field,
            ) is Some ==> self.attribute_target(node, attribute, scope) == Some(
                TargetView::XmlId(FilterView::Model(self.comodel(model, field)->0)),
            ),
            is_on(scope, model) && node.attribute("name"@) == Some(field) && self.comodel(
                model,
                field,
            ) is None ==> self.attribute_target(node, attribute, scope) == Some(
                TargetView::XmlId(FilterView::Any),
            ),
            is_on_no_model(scope) || node.attribute("name"@) is None ==> self.attribute_target(
                node,
                attribute,
                scope,
            ) == Some(TargetView::XmlId(FilterView::Any)),
    {
        lemma_tags_differ();
        lemma_names_differ();
        only_named_models_are_known(model);
        only_named_models_are_known(Seq::empty());
    }

    /// The `parent` of a `<menuitem>` expects a menu, its `action` any xml id.
    pub proof fn menus_expect_menus_and_actions(
        self,
        node: NodeView,
        attribute: AttributeView,
        scope: ScopeView,
    )
        requires
            node.tag == "menuitem"@,
        ensures
            attribute.name == "parent"@ ==> self.attribute_target(node, attribute, scope) == Some(
                TargetView::XmlId(FilterView::Model("ir.ui.menu"@)),
            ),
            attribute.name == "action"@ ==> self.attribute_target(node, attribute, scope) == Some(
                TargetView::XmlId(FilterView::Any),
            ),
    {
        lemma_tags_differ();
        lemma_names_differ();
    }

    /// On whatever element, `groups` expects groups and `t-call` a view.
    pub proof fn groups_and_calls_expect_their_ids(
        self,
        node: NodeView,
        attribute: AttributeView,
        scope: ScopeView,
    )
        ensures
            attribute.name == "groups"@ ==> self.attribute_target(node, attribute, scope) == Some(
                TargetView::XmlId(FilterView::Model("res.groups"@)),
            ),
            attribute.name == "t-call"@ ==> self.attribute_target(node, attribute, scope) == Some(
                TargetView::XmlId(FilterView::Model("ir.ui.view"@)),
            ),
    {
        lemma_tags_differ();
        lemma_names_differ();
    }

    /// No other attribute expects anything.
    pub proof fn other_attributes_expect_nothing(
        self,
        node: NodeView,
        attribute: AttributeView,
        scope: ScopeView,
    )
        requires
            !(node.tag == "record"@ && attribute.name == "model"@),
            !(node.tag == "field"@ && (attribute.name == "name"@ || attribute.name == "ref"@)),
            !(node.tag == "groupby"@ && attribute.name == "name"@),
            !(node.tag == "button"@ && attribute.name == "name"@),
            !(node.tag == "menuitem"@ && (attribute.name == "parent"@ || attribute.name
                == "action"@)),
            attribute.name != "groups"@,
            attribute.name != "t-call"@,
        ensures
            self.attribute_target(node, attribute, scope) is None,
    {
    }
}

/// A text expects a model in a field named `model` or `res_model` of a known model, and nothing
/// elsewhere.
pub proof fn texts_of_model_fields_expect_models(scope: ScopeView, model: Seq<char>)
    ensures
        is_on(scope, model) && scope.field_name == Some("model"@) ==> names_model(scope),
        is_on(scope, model) && scope.field_name == Some("res_model"@) ==> names_model(scope),
        scope.field_name != Some("model"@) && scope.field_name != Some("res_model"@)
            ==> !names_model(scope),
        is_on_no_model(scope) ==> !names_model(scope),
{
    only_named_models_are_known(model);
    only_named_models_are_known(Seq::empty());
}

/// Whether the cursor is in the value of an attribute of an element.
pub open spec fn in_value(doc: DocumentView, index: int, k: int, offset: usize) -> bool {
    &&& 0 <= index < doc.nodes.len()
    &&& doc.nodes[index].kind == XmlNodeKind::Element
    &&& 0 <= k < doc.nodes[index].attributes.len()
    &&& doc.nodes[index].attributes[k].start <= offset
    &&& offset <= doc.nodes[index].attributes[k].end
}

/// Whether the cursor is in a text.
pub open spec fn in_text(doc: DocumentView, index: int, offset: usize) -> bool {
    &&& 0 <= index < doc.nodes.len()
    &&& doc.nodes[index].kind == XmlNodeKind::Text
    &&& doc.nodes[index].start <= offset
    &&& offset <= doc.nodes[index].end
}

/// Whether the cursor stands before the end tag of an element without content: at the last `<` of the
/// element, which is not its first byte.
pub open spec fn in_empty_content(doc: DocumentView, index: int, offset: usize) -> bool {
    let bytes = utf8(doc.text);
    &&& 0 <= index < doc.nodes.len()
    &&& doc.nodes[index].kind == XmlNodeKind::Element
    &&& forall|child: int|
        0 <= child < doc.nodes.len() ==> (#[trigger] doc.nodes[child]).parent != Some(
            index as usize,
        )
    &&& doc.nodes[index].start < offset < doc.nodes[index].end
    &&& bytes[offset as int] == 0x3c
    &&& forall|j: int| offset < j < doc.nodes[index].end ==> #[trigger] bytes[j] != 0x3c
}

/// The code base as completions in a document of a module see it: what the module depends on.
pub open spec fn completing(session: SessionInfo, from_module: Option<ModuleKey>) -> Resolver {
    Resolver { session, from_module, on_dep_only: true }
}

proof fn lemma_element_at(doc: DocumentView, index: int, offset: usize)
    requires
        0 <= index < doc.nodes.len(),
    ensures
        is_element_at(doc, offset)(index) <==> exists|k: int| #[trigger]
            in_value(doc, index, k, offset),
{
    let attributes = doc.nodes[index].attributes;
    let at = is_value_at(offset);
    lemma_first_index(attributes, at);
    let first = first_index(attributes, at) as int;
    if is_element_at(doc, offset)(index) {
        assert(at(attributes[first]));
        assert(in_value(doc, index, first, offset));
    }
    if exists|k: int| #[trigger] in_value(doc, index, k, offset) {
        let k = choose|k: int| #[trigger] in_value(doc, index, k, offset);
        assert(at(attributes[k]));
        if first > k {
            assert(!at(attributes[k]));
        }
    }
}

/// With the cursor in the value of an attribute, the first such in the document, a completion is for
/// what that attribute expects in the scope of its element, and replaces what the attribute says.
pub proof fn cursor_in_a_value_is_for_its_attribute(
    session: SessionInfo,
    from_module: Option<ModuleKey>,
    doc: DocumentView,
    offset: usize,
    index: int,
    k: int,
)
    requires
        in_value(doc, index, k, offset),
        forall|j: int| 0 <= j < k ==> !#[trigger] in_value(doc, index, j, offset),
        forall|i: int, j: int| 0 <= i < index ==> !#[trigger] in_value(doc, i, j, offset),
    ensures
        ({
            let resolver = completing(session, from_module);
            let (node, attribute) = (doc.nodes[index], doc.nodes[index].attributes[k]);
            let scope = resolver.scope_of(doc, 0, index)->0;
            match position_at(session, from_module, doc, offset) {
                Some((target, span)) => resolver.attribute_target(node, attribute, scope) == Some(
                    target,
                ) && attribute_span(doc.text, attribute, offset) == Some(span),
                None => resolver.attribute_target(node, attribute, scope) is None
                    || attribute_span(doc.text, attribute, offset) is None,
            }
        }),
{
    let accepts = is_element_at(doc, offset);
    let count = doc.nodes.len() as int;
    lemma_first_where(0, count, accepts);
    let first = first_where(0, count, accepts);
    lemma_element_at(doc, index, offset);
    if first < index {
        lemma_element_at(doc, first, offset);
        let j = choose|j: int| #[trigger] in_value(doc, first, j, offset);
        assert(!in_value(doc, first, j, offset));
    } else if index < first {
        assert(!accepts(index));
    }
    let attributes = doc.nodes[index].attributes;
    let at = is_value_at(offset);
    assert forall|j: int| 0 <= j < k implies !at(#[trigger] attributes[j]) by {
        assert(!in_value(doc, index, j, offset));
    }
    lemma_is_first_index(attributes, at, k);
    assert(attribute_place(doc, offset) == Some((index, k)));
}

proof fn lemma_no_attribute(doc: DocumentView, offset: usize)
    requires
        forall|i: int, j: int| !#[trigger] in_value(doc, i, j, offset),
    ensures
        attribute_place(doc, offset) is None,
{
    let accepts = is_element_at(doc, offset);
    let count = doc.nodes.len() as int;
    lemma_first_where(0, count, accepts);
    let first = first_where(0, count, accepts);
    if first < count {
        lemma_element_at(doc, first, offset);
        let j = choose|j: int| #[trigger] in_value(doc, first, j, offset);
        assert(!in_value(doc, first, j, offset));
    }
}

/// With the cursor in a text and in no value, a completion is for a model where the text names one, and
/// for nothing elsewhere.
pub proof fn cursor_in_a_text_is_for_a_model(
    session: SessionInfo,
    from_module: Option<ModuleKey>,
    doc: DocumentView,
    offset: usize,
    index: int,
)
    requires
        forall|i: int, j: int| !#[trigger] in_value(doc, i, j, offset),
        in_text(doc, index, offset),
        forall|i: int| 0 <= i < index ==> !#[trigger] in_text(doc, i, offset),
    ensures
        ({
            let scope = completing(session, from_module).scope_of(doc, 0, index)->0;
            match position_at(session, from_module, doc, offset) {
                Some((target, span)) => names_model(scope) && target == TargetView::Model
                    && text_span(doc.text, doc.nodes[index], offset) == Some(span),
                None => !names_model(scope) || text_span(doc.text, doc.nodes[index], offset) is None,
            }
        }),
{
    lemma_no_attribute(doc, offset);
    lemma_text_found(doc, offset, index);
}

proof fn lemma_text_found(doc: DocumentView, offset: usize, index: int)
    requires
        in_text(doc, index, offset),
        forall|i: int| 0 <= i < index ==> !#[trigger] in_text(doc, i, offset),
    ensures
        text_place(doc, offset) == Some(index),
{
    let accepts = is_text_at(doc, offset);
    let count = doc.nodes.len() as int;
    lemma_first_where(0, count, accepts);
    let first = first_where(0, count, accepts);
    assert(accepts(index));
    if first < index {
        assert(!in_text(doc, first, offset));
    } else if index < first {
        assert(!accepts(index));
    }
}

/// With the cursor between the tags of an element without content, a completion is for a model where a
/// text in the element would name one, and replaces nothing.
pub proof fn cursor_in_empty_content_is_for_a_model(
    session: SessionInfo,
    from_module: Option<ModuleKey>,
    doc: DocumentView,
    offset: usize,
    index: int,
)
    requires
        doc.wf(),
        forall|i: int, j: int| !#[trigger] in_value(doc, i, j, offset),
        forall|i: int| !#[trigger] in_text(doc, i, offset),
        in_empty_content(doc, index, offset),
        forall|i: int| 0 <= i < index ==> !#[trigger] in_empty_content(doc, i, offset),
    ensures
        ({
            let resolver = completing(session, from_module);
            let scope = resolver.child_scope(doc, index, resolver.scope_of(doc, 0, index)->0);
            position_at(session, from_module, doc, offset) == if names_model(scope) {
                Some((TargetView::Model, ByteSpan { start: offset, end: offset }))
            } else {
                None
            }
        }),
{
    lemma_no_attribute(doc, offset);
    let count = doc.nodes.len() as int;
    lemma_first_where(0, count, is_text_at(doc, offset));
    let text = first_where(0, count, is_text_at(doc, offset));
    if text < count {
        assert(!in_text(doc, text, offset));
    }
    let accepts = is_empty_content_at(doc, offset);
    lemma_first_where(0, count, accepts);
    let first = first_where(0, count, accepts);
    lemma_empty_content(doc, index, offset);
    if first < index {
        lemma_empty_content(doc, first, offset);
        assert(!in_empty_content(doc, first, offset));
    } else if index < first {
        assert(!accepts(index));
    }
}

proof fn lemma_empty_content(doc: DocumentView, index: int, offset: usize)
    requires
        doc.wf(),
        0 <= index < doc.nodes.len(),
    ensures
        is_empty_content_at(doc, offset)(index) <==> in_empty_content(doc, index, offset),
{
    let node = doc.nodes[index];
    let bytes = utf8(doc.text);
    assert(doc.node_wf(index));
    lemma_last_byte(bytes, node.start as int, node.end as int, 0x3c);
    if is_empty_content_at(doc, offset)(index) {
        assert forall|child: int| 0 <= child < doc.nodes.len() implies (
        #[trigger] doc.nodes[child]).parent != Some(index as usize) by {
            assert(!doc.is_child(index, child));
        }
    }
    if in_empty_content(doc, index, offset) {
        assert(!doc.has_children(index)) by {
            if doc.has_children(index) {
                let child = choose|child: int| doc.is_child(index, child);
                assert(doc.nodes[child].parent != Some(index as usize));
            }
        }
        if let Some(position) = last_byte(bytes, node.start as int, node.end as int, 0x3c) {
            if position < offset {
                assert(bytes[offset as int] != 0x3c);
            } else if position > offset {
                assert(bytes[position] != 0x3c);
            }
        }
    }
}

/// Nothing is completed where the cursor is in no value, in no text and in no empty element.
pub proof fn cursor_elsewhere_is_for_nothing(
    session: SessionInfo,
    from_module: Option<ModuleKey>,
    doc: DocumentView,
    offset: usize,
)
    requires
        doc.wf(),
        forall|i: int, j: int| !#[trigger] in_value(doc, i, j, offset),
        forall|i: int| !#[trigger] in_text(doc, i, offset),
        forall|i: int| !#[trigger] in_empty_content(doc, i, offset),
    ensures
        position_at(session, from_module, doc, offset) is None,
{
    lemma_no_attribute(doc, offset);
    let count = doc.nodes.len() as int;
    lemma_first_where(0, count, is_text_at(doc, offset));
    let text = first_where(0, count, is_text_at(doc, offset));
    if text < count {
        assert(!in_text(doc, text, offset));
    }
    let accepts = is_empty_content_at(doc, offset);
    lemma_first_where(0, count, accepts);
    let first = first_where(0, count, accepts);
    if first < count {
        lemma_empty_content(doc, first, offset);
        assert(!in_empty_content(doc, first, offset));
    }
}

/// The completion of an attribute other than `groups` replaces its whole value.
pub proof fn values_are_replaced_whole(text: Seq<char>, attribute: AttributeView, offset: usize)
    requires
        attribute.name != "groups"@,
        boundary(text, attribute.start as int),
        boundary(text, offset as int),
    ensures
        attribute_span(text, attribute, offset) == Some(
            ByteSpan { start: attribute.start, end: attribute.end },
        ),
{
}

/// The completion of a group replaces the segment between commas that the cursor is in, up to its end
/// and from behind the blanks, tabs and `!` that start it.
pub proof fn groups_are_replaced_one_by_one(
    text: Seq<char>,
    attribute: AttributeView,
    offset: usize,
)
    requires
        attribute.name == "groups"@,
        boundary(text, attribute.start as int),
        boundary(text, offset as int),
        boundary(text, attribute.end as int),
        attribute.start <= offset <= attribute.end <= utf8(text).len(),
    ensures
        attribute_span(text, attribute, offset) is Some,
        ({
            let bytes = utf8(text);
            let span = attribute_span(text, attribute, offset)->0;
            &&& attribute.start <= span.start <= offset <= span.end <= attribute.end
            &&& forall|j: int| span.start <= j < span.end ==> #[trigger] bytes[j] != 0x2c
            &&& span.end < attribute.end ==> bytes[span.end as int] == 0x2c
            &&& span.start < offset ==> bytes[span.start as int] != 0x20 && bytes[span.start as int]
                != 0x09 && bytes[span.start as int] != 0x21
            &&& exists|from: int| #[trigger]
                starts_segment(bytes, attribute.start as int, from) && from <= span.start
                    && forall|j: int|
                    from <= j < span.start ==> #[trigger] bytes[j] == 0x20 || bytes[j] == 0x09
                        || bytes[j] == 0x21
        }),
{
    let (bytes, start, end) = (utf8(text), attribute.start as int, attribute.end as int);
    let at = offset as int;
    lemma_last_byte(bytes, start, at, 0x2c);
    let from = match last_byte(bytes, start, at, 0x2c) {
        Some(comma) => comma + 1,
        None => start,
    };
    assert(starts_segment(bytes, start, from));
    lemma_next_byte(bytes, from, end, 0x2c);
    lemma_skip_typed_lead(bytes, from, at);
}

/// Whether a segment of a list starts at a position: the list does, or a comma stands before it.
pub open spec fn starts_segment(bytes: Seq<u8>, start: int, from: int) -> bool {
    from == start || start < from && bytes[from - 1] == 0x2c
}

/// Whether a byte is white space in XML.
pub open spec fn is_blank(byte: u8) -> bool {
    byte == 0x20 || byte == 0x09 || byte == 0x0a || byte == 0x0d
}

proof fn lemma_skipped_space(bytes: Seq<u8>, from: int, end: int)
    requires
        from <= end,
    ensures
        from <= skip_space(bytes, from, end) <= end,
        skip_space(bytes, from, end) < end ==> !is_blank(bytes[skip_space(bytes, from, end)]),
        forall|j: int| from <= j < skip_space(bytes, from, end) ==> is_blank(#[trigger] bytes[j]),
    decreases end - from,
{
    if from < end && is_blank(bytes[from]) {
        lemma_skipped_space(bytes, from + 1, end);
    }
}

/// The completion of a text replaces it without the white space around it, as far as the cursor lets
/// it: only white space is left before and after, and what it replaces has none at its ends.
pub proof fn texts_are_replaced_without_their_indentation(
    text: Seq<char>,
    node: NodeView,
    offset: usize,
)
    requires
        node.start <= offset <= node.end <= utf8(text).len(),
    ensures
        text_span(text, node, offset) matches Some(span) ==> {
            let bytes = utf8(text);
            &&& node.start <= span.start <= offset <= span.end <= node.end
            &&& forall|j: int| node.start <= j < span.start ==> is_blank(#[trigger] bytes[j])
            &&& forall|j: int| span.end <= j < node.end ==> is_blank(#[trigger] bytes[j])
            &&& span.start < offset ==> !is_blank(bytes[span.start as int])
            &&& offset < span.end ==> !is_blank(bytes[span.end - 1])
        },
        boundary(text, node.start as int) && boundary(text, offset as int) ==> text_span(
            text,
            node,
            offset,
        ) is Some,
{
    lemma_skipped_space(utf8(text), node.start as int, offset as int);
    lemma_skip_space_back(utf8(text), offset as int, node.end as int);
    let start = skip_space(utf8(text), node.start as int, offset as int);
    if start > node.start {
        assert(is_blank(utf8(text)[start - 1]));
        lemma_ascii_boundary(text, start - 1);
    }
}

/// A document is completed where its position under the cursor expects something; every item continues
/// the text from the start of what is replaced to the cursor, and replaces that up to its end or up to
/// the limit.
pub proof fn documents_complete_what_is_expected(
    session: SessionInfo,
    from_module: Option<ModuleKey>,
    doc: DocumentView,
    offset: usize,
    limit: usize,
)
    requires
        document_candidates_fit(session, from_module, doc, offset),
    ensures
        document_completion(session, from_module, doc, offset, limit) is Some <==> position_at(
            session,
            from_module,
            doc,
            offset,
        ) is Some,
        document_completion(session, from_module, doc, offset, limit) matches Some(list) ==> {
            let (target, span) = position_at(session, from_module, doc, offset)->0;
            let typed = byte_slice(doc.text, span.start as int, offset as int);
            let end = if span.end <= limit {
                span.end
            } else {
                limit
            };
            &&& list == target_list(
                session,
                from_module,
                target,
                typed,
                ByteSpan { start: span.start, end },
            )
            &&& forall|k: int|
                0 <= k < list.items.len() ==> {
                    let item = #[trigger] list.items[k];
                    &&& typed.is_prefix_of(item.label)
                    &&& item.new_text == item.label
                    &&& item.span.start == span.start
                    &&& item.span.end == end
                }
        },
{
    if let Some((target, span)) = position_at(session, from_module, doc, offset) {
        let typed = byte_slice(doc.text, span.start as int, offset as int);
        let end = if span.end <= limit {
            span.end
        } else {
            limit
        };
        let replaced = ByteSpan { start: span.start, end };
        completions_continue_what_is_typed(session, from_module, target, typed, replaced);
        let list = target_list(session, from_module, target, typed, replaced);
        assert(document_completion(session, from_module, doc, offset, limit) == Some(list));
        assert forall|k: int| 0 <= k < list.items.len() implies {
            let item = #[trigger] list.items[k];
            &&& typed.is_prefix_of(item.label)
            &&& item.new_text == item.label
            &&& item.span.start == span.start
            &&& item.span.end == end
        } by {
            assert(crate::completion_laws::continues_typed(list.items[k], typed, replaced));
        }
    }
}

/// A text that parses is completed as its document, one that does not as the document that the text up
/// to the cursor makes once it is closed, replacing nothing past the cursor.
pub proof fn texts_complete_as_their_document(
    session: SessionInfo,
    from_module: Option<ModuleKey>,
    text: Seq<char>,
    offset: usize,
    nodes: Seq<NodeView>,
)
    requires
        utf8(text).len() <= usize::MAX,
    ensures
        forall|other: Option<Seq<NodeView>>| #[trigger]
            text_completion(session, from_module, text, offset, Some(nodes), other)
                == document_completion(
                session,
                from_module,
                DocumentView { text, nodes },
                offset,
                utf8(text).len() as usize,
            ),
        boundary(text, offset as int) && repaired_text(text, offset as int) is Some
            ==> text_completion(session, from_module, text, offset, None, Some(nodes))
            == document_completion(
            session,
            from_module,
            DocumentView { text: repaired_text(text, offset as int)->0, nodes },
            offset,
            offset,
        ),
        text_completion(session, from_module, text, offset, None, None) is None,
{
}

} // verus!
