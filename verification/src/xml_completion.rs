//! Completion in XML documents: what the position under the cursor expects, and what it may become.
use vstd::prelude::*;

use crate::completion_items::{
    member_items, member_list, members_fit, model_items, model_list, xml_id_items, xml_id_list,
    CompletionList, FilterView, ListView, XmlIdFilter,
};
use crate::seqs::{first_index, first_where, lemma_is_first_index};
use crate::symbols::{ModuleKey, SessionInfo, SymbolKey};
use crate::text::{boundary, byte_slice, lemma_ascii_boundary, slice, str_eq, utf8};
use crate::xml_ast_utils::XmlAstUtils;
use crate::xml_document::{
    parsed_nodes, AttributeView, DocumentView, NodeView, XmlAttribute, XmlDocument, XmlNodeKind,
};
use crate::xml_lookup::Resolver;
use crate::xml_repair::{repair, repaired_text};
use crate::xml_scope::{ScopeView, XmlScope};
use crate::xml_spans::{
    find_byte, find_last_byte, find_trimmed_span, find_typed_start, last_byte, lemma_last_byte,
    lemma_skip_typed_lead, next_byte, skip_typed_lead, trimmed_span, ByteSpan,
};

verus! {

/// What the position under the cursor expects.
#[derive(Debug)]
pub enum XmlTarget {
    /// A model name: `<record model=…>`, `<field name="model">…</field>`.
    Model,
    /// A field of that model: `<field name=…>`, `<groupby name=…>`.
    Field(String),
    /// A method of that model: `<button name=…>`.
    Method(String),
    /// An xml id the filter accepts: `ref=`, `groups=`, `parent=`, `action=`, `t-call=`.
    XmlId(XmlIdFilter),
}

/// Value of an [`XmlTarget`].
pub ghost enum TargetView {
    Model,
    Field(Seq<char>),
    Method(Seq<char>),
    XmlId(FilterView),
}

impl View for XmlTarget {
    type V = TargetView;

    open spec fn view(&self) -> TargetView {
        match self {
            XmlTarget::Model => TargetView::Model,
            XmlTarget::Field(model) => TargetView::Field(model@),
            XmlTarget::Method(model) => TargetView::Method(model@),
            XmlTarget::XmlId(filter) => TargetView::XmlId(filter@),
        }
    }
}

/// Predicate of the attributes whose value the cursor sits in, an empty value being an empty range.
pub open spec fn is_value_at(offset: usize) -> spec_fn(AttributeView) -> bool {
    |attribute: AttributeView| attribute.start <= offset <= attribute.end
}

/// Predicate of the elements in one of whose values the cursor sits.
pub open spec fn is_element_at(doc: DocumentView, offset: usize) -> spec_fn(int) -> bool {
    |index: int|
        {
            let node = doc.nodes[index];
            &&& node.kind == XmlNodeKind::Element
            &&& first_index(node.attributes, is_value_at(offset)) < node.attributes.len()
        }
}

/// Element and attribute whose value the cursor sits in.
pub open spec fn attribute_place(doc: DocumentView, offset: usize) -> Option<(int, int)> {
    let index = first_where(0, doc.nodes.len() as int, is_element_at(doc, offset));
    if index < doc.nodes.len() {
        Some((index, first_index(doc.nodes[index].attributes, is_value_at(offset)) as int))
    } else {
        None
    }
}

/// Predicate of the texts that the cursor sits in.
pub open spec fn is_text_at(doc: DocumentView, offset: usize) -> spec_fn(int) -> bool {
    |index: int|
        {
            let node = doc.nodes[index];
            &&& node.kind == XmlNodeKind::Text
            &&& node.start <= offset <= node.end
        }
}

/// Predicate of the elements without any content between whose tags the cursor sits.
pub open spec fn is_empty_content_at(doc: DocumentView, offset: usize) -> spec_fn(int) -> bool {
    |index: int|
        {
            let node = doc.nodes[index];
            &&& node.kind == XmlNodeKind::Element
            &&& !doc.has_children(index)
            &&& node.start < offset
            &&& last_byte(utf8(doc.text), node.start as int, node.end as int, 0x3c) == Some(
                offset as int,
            )
        }
}

/// Text that the cursor sits in.
pub open spec fn text_place(doc: DocumentView, offset: usize) -> Option<int> {
    let index = first_where(0, doc.nodes.len() as int, is_text_at(doc, offset));
    if index < doc.nodes.len() {
        Some(index)
    } else {
        None
    }
}

/// Element without any content between whose tags the cursor sits.
pub open spec fn empty_content_place(doc: DocumentView, offset: usize) -> Option<int> {
    let index = first_where(0, doc.nodes.len() as int, is_empty_content_at(doc, offset));
    if index < doc.nodes.len() {
        Some(index)
    } else {
        None
    }
}

/// The segment of a `groups` list that the cursor sits in, without the blanks and the `!` before
/// what is typed.
pub open spec fn typed_group(bytes: Seq<u8>, start: int, offset: int, end: int) -> ByteSpan {
    let from = match last_byte(bytes, start, offset, 0x2c) {
        Some(comma) => comma + 1,
        None => start,
    };
    ByteSpan {
        start: skip_typed_lead(bytes, from, offset) as usize,
        end: next_byte(bytes, from, end, 0x2c) as usize,
    }
}

/// Span the completion of an attribute replaces, `groups=` being a list of segments. `None` where
/// the cursor or the value does not stand between characters.
pub open spec fn attribute_span(text: Seq<char>, attribute: AttributeView, offset: usize) -> Option<
    ByteSpan,
> {
    let whole = ByteSpan { start: attribute.start, end: attribute.end };
    if !boundary(text, attribute.start as int) || !boundary(text, offset as int) {
        None
    } else if attribute.name != "groups"@ {
        Some(whole)
    } else if !boundary(text, attribute.end as int) {
        None
    } else {
        Some(
            typed_group(
                utf8(text),
                attribute.start as int,
                offset as int,
                attribute.end as int,
            ),
        )
    }
}

/// Span the completion of a text replaces: the text without its indentation.
pub open spec fn text_span(text: Seq<char>, node: NodeView, offset: usize) -> Option<ByteSpan> {
    let span = trimmed_span(utf8(text), node.start as int, offset as int, node.end as int);
    if boundary(text, span.start as int) && boundary(text, offset as int) {
        Some(span)
    } else {
        None
    }
}

/// What stands in the elements whose name the model in scope has.
pub open spec fn known_target(scope: ScopeView, is_method: bool) -> Option<TargetView> {
    match scope.record_model.known() {
        Some(model) => Some(
            if is_method {
                TargetView::Method(model)
            } else {
                TargetView::Field(model)
            },
        ),
        None => None,
    }
}

impl Resolver {
    /// The xml ids that the `ref` of a `<field>` accepts: those of the comodel of the field.
    pub open spec fn ref_filter(self, node: NodeView, scope: ScopeView) -> FilterView {
        match (scope.record_model.known(), node.attribute("name"@)) {
            (Some(model), Some(field)) => match self.comodel(model, field) {
                Some(comodel) => FilterView::Model(comodel),
                None => FilterView::Any,
            },
            _ => FilterView::Any,
        }
    }

    /// What an attribute expects, from the tag carrying it and the model in scope.
    pub open spec fn attribute_target(
        self,
        node: NodeView,
        attribute: AttributeView,
        scope: ScopeView,
    ) -> Option<TargetView> {
        let (tag, name) = (node.tag, attribute.name);
        if tag == "record"@ && name == "model"@ {
            Some(TargetView::Model)
        } else if (tag == "field"@ || tag == "groupby"@) && name == "name"@ {
            known_target(scope, false)
        } else if tag == "button"@ && name == "name"@ && node.attribute("type"@) != Some(
            "action"@,
        ) {
            known_target(scope, true)
        } else if tag == "field"@ && name == "ref"@ {
            Some(TargetView::XmlId(self.ref_filter(node, scope)))
        } else if tag == "menuitem"@ && name == "parent"@ {
            Some(TargetView::XmlId(FilterView::Model("ir.ui.menu"@)))
        } else if tag == "menuitem"@ && name == "action"@ {
            Some(TargetView::XmlId(FilterView::Any))
        } else if name == "groups"@ {
            Some(TargetView::XmlId(FilterView::Model("res.groups"@)))
        } else if name == "t-call"@ {
            Some(TargetView::XmlId(FilterView::Model("ir.ui.view"@)))
        } else {
            None
        }
    }
}

/// Whether a text in a scope names a model.
pub open spec fn names_model(scope: ScopeView) -> bool {
    scope.record_model.known() is Some && (scope.field_name == Some("model"@) || scope.field_name
        == Some("res_model"@))
}

/// What a target may become.
pub open spec fn target_list(
    session: SessionInfo,
    from_module: Option<ModuleKey>,
    target: TargetView,
    typed: Seq<char>,
    span: ByteSpan,
) -> ListView {
    match target {
        TargetView::Model => model_list(session, from_module, typed, span),
        TargetView::Field(model) => member_list(session, from_module, model, typed, false, span),
        TargetView::Method(model) => member_list(session, from_module, model, typed, true, span),
        TargetView::XmlId(filter) => xml_id_list(session, from_module, filter, typed, span),
    }
}

/// Whether what a typed text may become can be numbered.
pub open spec fn candidates_fit(
    session: SessionInfo,
    from_module: Option<ModuleKey>,
    target: TargetView,
    typed: Seq<char>,
) -> bool {
    match target {
        TargetView::Field(model) => members_fit(session, from_module, model, typed, false),
        TargetView::Method(model) => members_fit(session, from_module, model, typed, true),
        _ => true,
    }
}

/// A span cut off at `limit`.
pub open spec fn clipped(span: ByteSpan, limit: usize) -> ByteSpan {
    if span.end > limit {
        ByteSpan { start: span.start, end: limit }
    } else {
        span
    }
}

/// What the position under the cursor expects, and the span that it replaces.
pub open spec fn position_at(
    session: SessionInfo,
    from_module: Option<ModuleKey>,
    doc: DocumentView,
    offset: usize,
) -> Option<(TargetView, ByteSpan)> {
    let resolver = Resolver { session, from_module, on_dep_only: true };
    match attribute_place(doc, offset) {
        Some((index, k)) => {
            let (node, attribute) = (doc.nodes[index], doc.nodes[index].attributes[k]);
            let scope = resolver.scope_of(doc, 0, index)->0;
            match (
                resolver.attribute_target(node, attribute, scope),
                attribute_span(doc.text, attribute, offset),
            ) {
                (Some(target), Some(span)) => Some((target, span)),
                _ => None,
            }
        },
        None => match text_place(doc, offset) {
            Some(index) => match text_span(doc.text, doc.nodes[index], offset) {
                Some(span) => if names_model(resolver.scope_of(doc, 0, index)->0) {
                    Some((TargetView::Model, span))
                } else {
                    None
                },
                None => None,
            },
            None => match empty_content_place(doc, offset) {
                Some(index) => if names_model(
                    resolver.child_scope(doc, index, resolver.scope_of(doc, 0, index)->0),
                ) {
                    Some((TargetView::Model, ByteSpan { start: offset, end: offset }))
                } else {
                    None
                },
                None => None,
            },
        },
    }
}

/// What a document completes under the cursor, replacing nothing past `limit`.
pub open spec fn document_completion(
    session: SessionInfo,
    from_module: Option<ModuleKey>,
    doc: DocumentView,
    offset: usize,
    limit: usize,
) -> Option<ListView> {
    match position_at(session, from_module, doc, offset) {
        Some((target, span)) => Some(
            target_list(
                session,
                from_module,
                target,
                byte_slice(doc.text, span.start as int, offset as int),
                clipped(span, limit),
            ),
        ),
        None => None,
    }
}

/// Whether what the position under the cursor may become can be numbered.
pub open spec fn document_candidates_fit(
    session: SessionInfo,
    from_module: Option<ModuleKey>,
    doc: DocumentView,
    offset: usize,
) -> bool {
    position_at(session, from_module, doc, offset) matches Some((target, span)) ==> candidates_fit(
        session,
        from_module,
        target,
        byte_slice(doc.text, span.start as int, offset as int),
    )
}

/// Value of an optional [`CompletionList`].
pub open spec fn opt_list_view(list: Option<CompletionList>) -> Option<ListView> {
    match list {
        Some(list) => Some(list@),
        None => None,
    }
}

/// Completion in XML documents.
pub struct XmlCompletionFeature;

/// Element and attribute whose value the cursor sits in, an empty value being an empty range.
fn attribute_at(document: &XmlDocument, offset: usize) -> (res: Option<(usize, usize)>)
    requires
        document@.wf(),
    ensures
        match res {
            Some((index, k)) => {
                &&& attribute_place(document@, offset) == Some((index as int, k as int))
                &&& 0 < index < document.nodes.len()
                &&& k < document.nodes@[index as int].attributes.len()
                &&& document.nodes@[index as int].attributes@[k as int].start <= offset
                &&& offset <= document.nodes@[index as int].attributes@[k as int].end
            },
            None => attribute_place(document@, offset) is None,
        },
{
    let ghost doc = document@;
    let ghost accepts = is_element_at(doc, offset);
    let mut i: usize = 0;
    while i < document.nodes.len()
        invariant
            doc == document@,
            doc.wf(),
            accepts == is_element_at(doc, offset),
            i <= document.nodes.len(),
            first_where(0, doc.nodes.len() as int, accepts) == first_where(
                i as int,
                doc.nodes.len() as int,
                accepts,
            ),
        decreases document.nodes.len() - i,
    {
        let node = &document.nodes[i];
        assert(doc.nodes[i as int] == node@);
        assert(doc.node_wf(i as int));
        if node.kind == XmlNodeKind::Element {
            let ghost attributes = node@.attributes;
            let ghost at = is_value_at(offset);
            let mut k: usize = 0;
            while k < node.attributes.len()
                invariant
                    doc == document@,
                    0 < i < document.nodes.len(),
                    *node == document.nodes@[i as int],
                    doc.nodes[i as int] == node@,
                    node.kind == XmlNodeKind::Element,
                    accepts == is_element_at(doc, offset),
                    first_where(0, doc.nodes.len() as int, accepts) == first_where(
                        i as int,
                        doc.nodes.len() as int,
                        accepts,
                    ),
                    attributes == node@.attributes,
                    at == is_value_at(offset),
                    k <= node.attributes.len(),
                    forall|j: int| 0 <= j < k ==> !at(#[trigger] attributes[j]),
                decreases node.attributes.len() - k,
            {
                let attr = &node.attributes[k];
                assert(attributes[k as int] == attr@);
                if attr.start <= offset && offset <= attr.end {
                    proof {
                        lemma_is_first_index(attributes, at, k as int);
                        assert(accepts(i as int));
                    }
                    return Some((i, k));
                }
                k = k + 1;
            }
            proof {
                lemma_is_first_index(attributes, at, k as int);
            }
        }
        i = i + 1;
    }
    None
}

/// Text that the cursor sits in.
fn text_at(document: &XmlDocument, offset: usize) -> (res: Option<usize>)
    requires
        document@.wf(),
    ensures
        match res {
            Some(index) => {
                &&& text_place(document@, offset) == Some(index as int)
                &&& 0 < index < document.nodes.len()
                &&& document.nodes@[index as int].start <= offset
                &&& offset <= document.nodes@[index as int].end
            },
            None => text_place(document@, offset) is None,
        },
{
    let ghost doc = document@;
    let ghost accepts = is_text_at(doc, offset);
    let mut i: usize = 0;
    while i < document.nodes.len()
        invariant
            doc == document@,
            doc.wf(),
            accepts == is_text_at(doc, offset),
            i <= document.nodes.len(),
            first_where(0, doc.nodes.len() as int, accepts) == first_where(
                i as int,
                doc.nodes.len() as int,
                accepts,
            ),
        decreases document.nodes.len() - i,
    {
        let node = &document.nodes[i];
        assert(doc.nodes[i as int] == node@);
        assert(doc.node_wf(i as int));
        if node.kind == XmlNodeKind::Text && node.start <= offset && offset <= node.end {
            return Some(i);
        }
        i = i + 1;
    }
    None
}

/// Element without any content between whose tags the cursor sits.
fn empty_content_at(document: &XmlDocument, offset: usize) -> (res: Option<usize>)
    requires
        document@.wf(),
    ensures
        match res {
            Some(index) => {
                &&& empty_content_place(document@, offset) == Some(index as int)
                &&& 0 < index < document.nodes.len()
                &&& offset < utf8(document@.text).len()
                &&& utf8(document@.text)[offset as int] == 0x3c
            },
            None => empty_content_place(document@, offset) is None,
        },
{
    let ghost doc = document@;
    let ghost accepts = is_empty_content_at(doc, offset);
    let bytes = document.text.as_str().as_bytes();
    let mut i: usize = 0;
    while i < document.nodes.len()
        invariant
            doc == document@,
            doc.wf(),
            bytes@ == utf8(doc.text),
            accepts == is_empty_content_at(doc, offset),
            i <= document.nodes.len(),
            first_where(0, doc.nodes.len() as int, accepts) == first_where(
                i as int,
                doc.nodes.len() as int,
                accepts,
            ),
        decreases document.nodes.len() - i,
    {
        let node = &document.nodes[i];
        assert(doc.nodes[i as int] == node@);
        assert(doc.node_wf(i as int));
        proof {
            lemma_last_byte(bytes@, node.start as int, node.end as int, 0x3c);
        }
        if node.kind == XmlNodeKind::Element && node.start < offset && offset < node.end
            && !document.has_children(i) {
            if let Some(tag) = find_last_byte(bytes, node.start, node.end, 0x3c) {
                if tag == offset {
                    return Some(i);
                }
            }
        }
        i = i + 1;
    }
    None
}

/// Span the completion replaces, `groups=` being a list of segments.
pub fn completed_span(text: &str, attr: &XmlAttribute, offset: usize) -> (res: Option<ByteSpan>)
    requires
        attr.start <= offset <= attr.end <= utf8(text@).len(),
    ensures
        res == attribute_span(text@, attr@, offset),
        match res {
            Some(span) => {
                &&& attr.start <= span.start <= offset <= span.end <= attr.end
                &&& boundary(text@, span.start as int)
                &&& boundary(text@, offset as int)
            },
            None => true,
        },
{
    if !text.is_char_boundary(attr.start) || !text.is_char_boundary(offset) {
        return None;
    }
    if !str_eq(attr.name.as_str(), "groups") {
        return Some(ByteSpan { start: attr.start, end: attr.end });
    }
    if !text.is_char_boundary(attr.end) {
        return None;
    }
    let bytes = text.as_bytes();
    proof {
        lemma_last_byte(bytes@, attr.start as int, offset as int, 0x2c);
    }
    let from = match find_last_byte(bytes, attr.start, offset, 0x2c) {
        Some(comma) => comma + 1,
        None => attr.start,
    };
    let end = find_byte(bytes, from, attr.end, 0x2c);
    let start = find_typed_start(bytes, from, offset);
    proof {
        lemma_skip_typed_lead(bytes@, from as int, offset as int);
        if start > from {
            assert(bytes@[start - 1] < 0x80);
            lemma_ascii_boundary(text@, start - 1);
        } else if from > attr.start {
            lemma_ascii_boundary(text@, from - 1);
        }
        assert(offset <= end);
    }
    Some(ByteSpan { start, end })
}

/// What `attr` expects, from the tag carrying it and the model in scope.
pub fn target_at(
    session: &SessionInfo,
    document: &XmlDocument,
    node: usize,
    attr: &XmlAttribute,
    scope: &XmlScope,
    from_module: Option<ModuleKey>,
) -> (res: Option<XmlTarget>)
    requires
        node < document.nodes.len(),
    ensures
        match res {
            Some(target) => (Resolver {
                session: *session,
                from_module,
                on_dep_only: true,
            }).attribute_target(document@.nodes[node as int], attr@, scope@) == Some(target@),
            None => (Resolver {
                session: *session,
                from_module,
                on_dep_only: true,
            }).attribute_target(document@.nodes[node as int], attr@, scope@) is None,
        },
{
    let node = &document.nodes[node];
    let tag = node.tag.as_str();
    let name = attr.name.as_str();
    let is_action_type = match node.attribute("type") {
        Some(button_type) => str_eq(button_type, "action"),
        None => false,
    };
    if str_eq(tag, "record") && str_eq(name, "model") {
        Some(XmlTarget::Model)
    } else if (str_eq(tag, "field") || str_eq(tag, "groupby")) && str_eq(name, "name") {
        match scope.record_model.known() {
            Some(model) => Some(XmlTarget::Field(model.to_string())),
            None => None,
        }
    } else if str_eq(tag, "button") && str_eq(name, "name") && !is_action_type {
        // An implicit `type` is `object` in views, `type="action"` takes an xml id instead
        match scope.record_model.known() {
            Some(model) => Some(XmlTarget::Method(model.to_string())),
            None => None,
        }
    } else if str_eq(tag, "field") && str_eq(name, "ref") {
        let comodel = match (scope.record_model.known(), node.attribute("name")) {
            (Some(model), Some(field)) => XmlAstUtils::comodel_name(
                session,
                model,
                field,
                from_module,
                true,
            ),
            _ => None,
        };
        Some(
            XmlTarget::XmlId(
                match comodel {
                    Some(comodel) => XmlIdFilter::Model(comodel),
                    None => XmlIdFilter::Any,
                },
            ),
        )
    } else if str_eq(tag, "menuitem") && str_eq(name, "parent") {
        Some(XmlTarget::XmlId(XmlIdFilter::Model("ir.ui.menu".to_string())))
    } else if str_eq(tag, "menuitem") && str_eq(name, "action") {
        Some(XmlTarget::XmlId(XmlIdFilter::Any))
    } else if str_eq(name, "groups") {
        Some(XmlTarget::XmlId(XmlIdFilter::Model("res.groups".to_string())))
    } else if str_eq(name, "t-call") {
        Some(XmlTarget::XmlId(XmlIdFilter::Model("ir.ui.view".to_string())))
    } else {
        None
    }
}

/// Whether a text in a scope names a model.
fn expects_model(scope: &XmlScope) -> (res: bool)
    ensures
        res == names_model(scope@),
{
    match (scope.record_model.known(), scope.field_name) {
        (Some(_), Some(field)) => str_eq(field, "model") || str_eq(field, "res_model"),
        _ => false,
    }
}

/// Completion items for `target`, and whether the cap truncated them.
pub fn build_items(
    session: &SessionInfo,
    from_module: Option<ModuleKey>,
    target: &XmlTarget,
    typed: &str,
    span: ByteSpan,
) -> (res: CompletionList)
    ensures
        res@ == target_list(*session, from_module, target@, typed@, span),
        candidates_fit(*session, from_module, target@, typed@),
{
    match target {
        XmlTarget::Model => model_items(session, from_module, typed, span),
        XmlTarget::Field(model_name) => member_items(
            session,
            from_module,
            model_name.as_str(),
            typed,
            false,
            span,
        ),
        XmlTarget::Method(model_name) => member_items(
            session,
            from_module,
            model_name.as_str(),
            typed,
            true,
            span,
        ),
        XmlTarget::XmlId(filter) => xml_id_items(session, from_module, filter, typed, span),
    }
}

impl XmlCompletionFeature {
    /// What the position under the cursor expects, and the span that it replaces.
    fn find_position(
        session: &SessionInfo,
        from_module: Option<ModuleKey>,
        document: &XmlDocument,
        offset: usize,
    ) -> (res: Option<(XmlTarget, ByteSpan)>)
        requires
            document@.wf(),
        ensures
            match res {
                Some((target, span)) => {
                    &&& position_at(*session, from_module, document@, offset) == Some(
                        (target@, span),
                    )
                    &&& span.start <= offset <= span.end
                    &&& boundary(document@.text, span.start as int)
                    &&& boundary(document@.text, offset as int)
                },
                None => position_at(*session, from_module, document@, offset) is None,
            },
    {
        let ghost doc = document@;
        let text = document.text.as_str();
        if let Some((index, k)) = attribute_at(document, offset) {
            let attr = &document.nodes[index].attributes[k];
            assert(doc.nodes[index as int] == document.nodes@[index as int]@);
            assert(doc.nodes[index as int].attributes[k as int] == attr@);
            assert(doc.node_wf(index as int));
            let scope = XmlAstUtils::scope_at(session, document, index, from_module, true);
            let target = target_at(session, document, index, attr, &scope, from_module);
            let span = completed_span(text, attr, offset);
            return match (target, span) {
                (Some(target), Some(span)) => Some((target, span)),
                _ => None,
            };
        }
        if let Some(index) = text_at(document, offset) {
            let node = &document.nodes[index];
            assert(doc.nodes[index as int] == node@);
            assert(doc.node_wf(index as int));
            let span = find_trimmed_span(text.as_bytes(), node.start, offset, node.end);
            if !text.is_char_boundary(span.start) || !text.is_char_boundary(offset) {
                return None;
            }
            let scope = XmlAstUtils::scope_at(session, document, index, from_module, true);
            return if expects_model(&scope) {
                Some((XmlTarget::Model, span))
            } else {
                None
            };
        }
        if let Some(index) = empty_content_at(document, offset) {
            let scope = XmlAstUtils::scope_at(session, document, index, from_module, true);
            let content = XmlAstUtils::content_scope(
                session,
                document,
                index,
                &scope,
                from_module,
                true,
            );
            proof {
                lemma_ascii_boundary(doc.text, offset as int);
            }
            return if expects_model(&content) {
                Some((XmlTarget::Model, ByteSpan { start: offset, end: offset }))
            } else {
                None
            };
        }
        None
    }

    /// What a document completes under the cursor, replacing nothing past `limit`.
    pub fn complete_document(
        session: &SessionInfo,
        file_symbol: SymbolKey,
        document: &XmlDocument,
        offset: usize,
        limit: usize,
    ) -> (res: Option<CompletionList>)
        requires
            document@.wf(),
        ensures
            opt_list_view(res) == document_completion(
                *session,
                session.st.module_of(file_symbol),
                document@,
                offset,
                limit,
            ),
            document_candidates_fit(
                *session,
                session.st.module_of(file_symbol),
                document@,
                offset,
            ),
    {
        let from_module = session.st.find_module(file_symbol);
        match XmlCompletionFeature::find_position(session, from_module, document, offset) {
            Some((target, span)) => {
                let typed = slice(document.text.as_str(), span.start, offset);
                let replaced = if span.end > limit {
                    ByteSpan { start: span.start, end: limit }
                } else {
                    span
                };
                Some(build_items(session, from_module, &target, typed, replaced))
            },
            None => None,
        }
    }

    /// What a text completes under the cursor. A text that is no well-formed document, as while a
    /// tag is being typed, is cut at the cursor and what it leaves open is closed.
    pub fn autocomplete_xml(
        session: &SessionInfo,
        file_symbol: SymbolKey,
        text: &str,
        offset: usize,
    ) -> (res: Option<CompletionList>)
        ensures
            opt_list_view(res) == text_completion(
                *session,
                session.st.module_of(file_symbol),
                text@,
                offset,
                parsed_nodes(text@),
                match repaired_text(text@, offset as int) {
                    Some(repaired) => parsed_nodes(repaired),
                    None => None,
                },
            ),
            text_candidates_fit(
                *session,
                session.st.module_of(file_symbol),
                text@,
                offset,
                parsed_nodes(text@),
                match repaired_text(text@, offset as int) {
                    Some(repaired) => parsed_nodes(repaired),
                    None => None,
                },
            ),
    {
        match XmlDocument::parse(text) {
            Some(document) => {
                let limit = text.len();
                XmlCompletionFeature::complete_document(
                    session,
                    file_symbol,
                    &document,
                    offset,
                    limit,
                )
            },
            None => {
                if !text.is_char_boundary(offset) {
                    return None;
                }
                match repair(text, offset) {
                    Some(repaired) => match XmlDocument::parse(repaired.as_str()) {
                        Some(document) => XmlCompletionFeature::complete_document(
                            session,
                            file_symbol,
                            &document,
                            offset,
                            offset,
                        ),
                        None => None,
                    },
                    None => None,
                }
            },
        }
    }
}

/// What a text completes under the cursor, given what the parser makes of the text and of the
/// repaired text.
pub open spec fn text_completion(
    session: SessionInfo,
    from_module: Option<ModuleKey>,
    text: Seq<char>,
    offset: usize,
    nodes: Option<Seq<NodeView>>,
    repaired_nodes: Option<Seq<NodeView>>,
) -> Option<ListView> {
    match nodes {
        Some(nodes) => document_completion(
            session,
            from_module,
            DocumentView { text, nodes },
            offset,
            utf8(text).len() as usize,
        ),
        None => match (repaired_text(text, offset as int), repaired_nodes) {
            (Some(repaired), Some(nodes)) => if boundary(text, offset as int) {
                document_completion(
                    session,
                    from_module,
                    DocumentView { text: repaired, nodes },
                    offset,
                    offset,
                )
            } else {
                None
            },
            _ => None,
        },
    }
}

/// Whether what the position under the cursor of a text may become can be numbered, given what the
/// parser makes of the text and of the repaired text.
pub open spec fn text_candidates_fit(
    session: SessionInfo,
    from_module: Option<ModuleKey>,
    text: Seq<char>,
    offset: usize,
    nodes: Option<Seq<NodeView>>,
    repaired_nodes: Option<Seq<NodeView>>,
) -> bool {
    match nodes {
        Some(nodes) => document_candidates_fit(
            session,
            from_module,
            DocumentView { text, nodes },
            offset,
        ),
        None => match (repaired_text(text, offset as int), repaired_nodes) {
            (Some(repaired), Some(nodes)) => boundary(text, offset as int)
                ==> document_candidates_fit(
                session,
                from_module,
                DocumentView { text: repaired, nodes },
                offset,
            ),
            _ => true,
        },
    }
}

} // verus!
