//! What holds of the locations that the walk of a document finds.
use vstd::prelude::*;

use crate::seqs::{
    concat_map, lemma_concat_map_filter, lemma_filter_all, lemma_filter_none,
};
use crate::symbols::{ModuleKey, SymbolKey, SymbolTable};
use crate::text::utf8;
use crate::xml_ast_utils::{at_offset, value_groups, value_spans, RefView, XmlRefKind};
use crate::xml_document::{AttributeView, DocumentView, NodeView, XmlNodeKind};
use crate::xml_lookup::{is_seen, xml_id_targets, Resolver};
use crate::xml_scope::{ModelScopeView, ScopeView};
use crate::xml_spans::{
    format_spans, format_spans_are_references, group_spans, group_spans_are_groups,
    is_format_span, is_group_span, lemma_merged_in_order, spans_in_order, spans_within, ByteSpan,
};

verus! {

/// Predicate of the locations under the cursor.
pub open spec fn under_cursor(offset: usize) -> spec_fn(RefView) -> bool {
    |xml_ref: RefView| xml_ref.start <= offset <= xml_ref.end
}

/// Whether locations lie between two positions.
pub open spec fn refs_within(refs: Seq<RefView>, start: int, end: int) -> bool {
    forall|k: int|
        0 <= k < refs.len() ==> {
            let xml_ref = #[trigger] refs[k];
            start <= xml_ref.start <= xml_ref.end <= end
        }
}

/// Parts that lie between two positions do so together.
proof fn lemma_concat_within<A>(
    items: Seq<A>,
    part: spec_fn(A) -> Seq<RefView>,
    start: int,
    end: int,
)
    requires
        forall|k: int|
            0 <= k < items.len() ==> refs_within(part(#[trigger] items[k]), start, end),
    ensures
        refs_within(concat_map(items, part), start, end),
    decreases items.len(),
{
    if items.len() > 0 {
        let rest = items.drop_last();
        assert forall|k: int| 0 <= k < rest.len() implies refs_within(
            part(#[trigger] rest[k]),
            start,
            end,
        ) by {
            assert(rest[k] == items[k]);
        }
        lemma_concat_within(rest, part, start, end);
        assert(refs_within(part(items[items.len() - 1]), start, end));
        let (left, right) = (concat_map(rest, part), part(items.last()));
        assert forall|k: int| 0 <= k < (left + right).len() implies {
            let xml_ref = #[trigger] (left + right)[k];
            start <= xml_ref.start <= xml_ref.end <= end
        } by {
            if k < left.len() {
                assert((left + right)[k] == left[k]);
            } else {
                assert((left + right)[k] == right[k - left.len()]);
            }
        }
    }
}

/// Nothing outside of two positions is under a cursor there.
proof fn lemma_none_under(refs: Seq<RefView>, start: int, end: int, offset: usize)
    requires
        refs_within(refs, start, end),
        offset < start || end < offset,
    ensures
        refs.filter(under_cursor(offset)) == Seq::<RefView>::empty(),
{
    lemma_filter_none(refs, under_cursor(offset));
}

/// The xml ids inside of a value lie there, one after the other.
proof fn lemma_value_spans(text: Seq<char>, attribute: AttributeView)
    requires
        attribute.start <= attribute.end <= utf8(text).len(),
    ensures
        spans_within(
            value_spans(text, attribute),
            attribute.start as int,
            attribute.end as int,
        ),
        spans_in_order(value_spans(text, attribute)),
{
    let (start, end) = (attribute.start as int, attribute.end as int);
    let formats = format_spans(utf8(text), start, end);
    format_spans_are_references(utf8(text), start, end);
    assert forall|k: int| 0 <= k < formats.len() implies {
        let span = #[trigger] formats[k];
        start <= span.start <= span.end <= end
    } by {
        assert(is_format_span(utf8(text), start, end, formats[k]));
    }
    let groups = group_spans(utf8(text), start, end);
    group_spans_are_groups(utf8(text), start, end);
    assert forall|k: int| 0 <= k < groups.len() implies {
        let span = #[trigger] groups[k];
        start <= span.start <= span.end <= end
    } by {
        assert(is_group_span(utf8(text), start, end, groups[k]));
    }
    lemma_merged_in_order(value_groups(text, attribute), formats, start, end);
}

impl Resolver {
    /// Spans between two positions make locations there.
    proof fn lemma_spans_within(
        self,
        text: Seq<char>,
        spans: Seq<ByteSpan>,
        offset: Option<usize>,
        start: int,
        end: int,
    )
        requires
            spans_within(spans, start, end),
        ensures
            refs_within(self.span_list_refs(text, spans, offset), start, end),
    {
        lemma_concat_within(spans, self.span_refs(text, offset), start, end);
    }

    /// Among spans the cursor selects those under it.
    proof fn lemma_spans_cursor(self, text: Seq<char>, spans: Seq<ByteSpan>, offset: usize)
        ensures
            self.span_list_refs(text, spans, Some(offset)) == self.span_list_refs(
                text,
                spans,
                None,
            ).filter(under_cursor(offset)),
    {
        let part = self.span_refs(text, None);
        let kept = self.span_refs(text, Some(offset));
        assert forall|k: int| 0 <= k < spans.len() implies kept(#[trigger] spans[k]) == part(
            spans[k],
        ).filter(under_cursor(offset)) by {
            let span = spans[k];
            if at_offset(span.start, span.end, Some(offset)) {
                lemma_filter_all(part(span), under_cursor(offset));
            } else {
                lemma_filter_none(part(span), under_cursor(offset));
            }
        }
        lemma_concat_map_filter(spans, part, kept, under_cursor(offset));
    }

    /// The value of an attribute as a whole refers to nothing but itself.
    proof fn lemma_value_refs(self, node: NodeView, scope: ScopeView, attribute: AttributeView)
        ensures
            self.value_refs(node, scope, attribute).len() <= 1,
            forall|k: int|
                0 <= k < self.value_refs(node, scope, attribute).len() ==> {
                    let xml_ref = #[trigger] self.value_refs(node, scope, attribute)[k];
                    xml_ref.start == attribute.start && xml_ref.end == attribute.end
                },
    {
    }

    /// The locations of an attribute lie inside its value.
    proof fn lemma_attribute_within(
        self,
        text: Seq<char>,
        node: NodeView,
        scope: ScopeView,
        attribute: AttributeView,
        offset: Option<usize>,
    )
        requires
            attribute.start <= attribute.end <= utf8(text).len(),
        ensures
            refs_within(
                self.attribute_part(text, node, scope, offset)(attribute),
                attribute.start as int,
                attribute.end as int,
            ),
    {
        let (start, end) = (attribute.start as int, attribute.end as int);
        let spans = value_spans(text, attribute);
        lemma_value_spans(text, attribute);
        self.lemma_spans_within(text, spans, offset, start, end);
        self.lemma_value_refs(node, scope, attribute);
        let (left, right) = (
            self.value_refs(node, scope, attribute),
            self.span_list_refs(text, spans, offset),
        );
        assert forall|k: int| 0 <= k < (left + right).len() implies {
            let xml_ref = #[trigger] (left + right)[k];
            start <= xml_ref.start <= xml_ref.end <= end
        } by {
            if k < left.len() {
                assert((left + right)[k] == left[k]);
            } else {
                assert((left + right)[k] == right[k - left.len()]);
            }
        }
    }

    /// In an attribute the cursor selects the locations under it.
    proof fn lemma_attribute_cursor(
        self,
        text: Seq<char>,
        node: NodeView,
        scope: ScopeView,
        attribute: AttributeView,
        offset: usize,
    )
        requires
            attribute.start <= attribute.end <= utf8(text).len(),
        ensures
            self.attribute_part(text, node, scope, Some(offset))(attribute) == self.attribute_part(
                text,
                node,
                scope,
                None,
            )(attribute).filter(under_cursor(offset)),
    {
        let (start, end) = (attribute.start as int, attribute.end as int);
        let all = self.attribute_part(text, node, scope, None)(attribute);
        self.lemma_attribute_within(text, node, scope, attribute, None);
        if at_offset(attribute.start, attribute.end, Some(offset)) {
            let spans = value_spans(text, attribute);
            let whole = self.value_refs(node, scope, attribute);
            self.lemma_spans_cursor(text, spans, offset);
            self.lemma_value_refs(node, scope, attribute);
            lemma_filter_all(whole, under_cursor(offset));
            Seq::filter_distributes_over_add(
                whole,
                self.span_list_refs(text, spans, None),
                under_cursor(offset),
            );
        } else {
            lemma_none_under(all, start, end, offset);
        }
    }

    /// The locations of a node lie inside it.
    pub proof fn node_refs_within_node(
        self,
        text: Seq<char>,
        node: NodeView,
        scope: ScopeView,
        offset: Option<usize>,
    )
        requires
            node.ranges_wf(utf8(text).len()),
        ensures
            refs_within(
                self.node_refs(text, node, scope, offset),
                node.start as int,
                node.end as int,
            ),
    {
        let (start, end) = (node.start as int, node.end as int);
        let part = self.attribute_part(text, node, scope, offset);
        assert forall|k: int| 0 <= k < node.attributes.len() implies refs_within(
            part(#[trigger] node.attributes[k]),
            start,
            end,
        ) by {
            self.lemma_attribute_within(text, node, scope, node.attributes[k], offset);
        }
        lemma_concat_within(node.attributes, part, start, end);
    }

    /// In a node the cursor selects the locations under it.
    proof fn lemma_node_cursor(
        self,
        text: Seq<char>,
        node: NodeView,
        scope: ScopeView,
        offset: usize,
    )
        requires
            node.ranges_wf(utf8(text).len()),
        ensures
            self.node_refs(text, node, scope, Some(offset)) == self.node_refs(
                text,
                node,
                scope,
                None,
            ).filter(under_cursor(offset)),
    {
        let accepts = under_cursor(offset);
        let all = self.node_refs(text, node, scope, None);
        self.node_refs_within_node(text, node, scope, None);
        if node.start > offset {
            lemma_none_under(all, node.start as int, node.end as int, offset);
        } else if node.kind == XmlNodeKind::Element {
            let part = self.attribute_part(text, node, scope, None);
            let kept = self.attribute_part(text, node, scope, Some(offset));
            assert forall|k: int| 0 <= k < node.attributes.len() implies kept(
                #[trigger] node.attributes[k],
            ) == part(node.attributes[k]).filter(accepts) by {
                self.lemma_attribute_cursor(text, node, scope, node.attributes[k], offset);
            }
            lemma_concat_map_filter(node.attributes, part, kept, accepts);
        } else if node.kind == XmlNodeKind::Text {
            if at_offset(node.start, node.end, Some(offset)) {
                lemma_filter_all(all, accepts);
            } else {
                lemma_filter_none(all, accepts);
            }
        } else {
            lemma_filter_none(all, accepts);
        }
    }

    proof fn lemma_prefix_cursor(
        self,
        doc: DocumentView,
        top: int,
        handed: ScopeView,
        count: int,
        offset: usize,
    )
        requires
            doc.wf(),
            count <= doc.nodes.len(),
        ensures
            self.refs_before(doc, top, handed, count, Some(offset)) == self.refs_before(
                doc,
                top,
                handed,
                count,
                None,
            ).filter(under_cursor(offset)),
        decreases count,
    {
        let accepts = under_cursor(offset);
        if count <= 0 {
            lemma_filter_none(Seq::<RefView>::empty(), accepts);
        } else {
            let node = count - 1;
            self.lemma_prefix_cursor(doc, top, handed, node, offset);
            assert(doc.node_wf(node));
            match self.scope_below(doc, top, handed, node) {
                Some(scope) => {
                    self.lemma_node_cursor(doc.text, doc.nodes[node], scope, offset);
                },
                None => {
                    lemma_filter_none(Seq::<RefView>::empty(), accepts);
                },
            }
            Seq::filter_distributes_over_add(
                self.refs_before(doc, top, handed, node, None),
                self.refs_at(doc, top, handed, node, None),
                accepts,
            );
        }
    }

    /// The walk of a whole document reaches every node: each stands in a scope.
    pub proof fn walk_reaches_every_node(self, doc: DocumentView, node: int)
        requires
            doc.wf(),
            0 < node < doc.nodes.len(),
        ensures
            self.scope_of(doc, 0, node) is Some,
        decreases node,
    {
        assert(doc.node_wf(node));
        let parent = doc.nodes[node].parent->0;
        if parent > 0 {
            self.walk_reaches_every_node(doc, parent as int);
        }
    }

    /// The walk with a cursor finds, in the same order, the locations under the cursor among those
    /// that the walk without one finds.
    pub proof fn cursor_selects_locations(self, doc: DocumentView, root: int, offset: usize)
        requires
            doc.wf(),
        ensures
            self.document_refs(doc, root, Some(offset)) == self.document_refs(
                doc,
                root,
                None,
            ).filter(under_cursor(offset)),
    {
        self.lemma_prefix_cursor(doc, root, ScopeView::top(), doc.nodes.len() as int, offset);
    }

    proof fn lemma_prefix_within(
        self,
        doc: DocumentView,
        top: int,
        handed: ScopeView,
        count: int,
        offset: Option<usize>,
    )
        requires
            doc.wf(),
            count <= doc.nodes.len(),
        ensures
            refs_within(
                self.refs_before(doc, top, handed, count, offset),
                0,
                utf8(doc.text).len() as int,
            ),
        decreases count,
    {
        if count > 0 {
            let node = count - 1;
            self.lemma_prefix_within(doc, top, handed, node, offset);
            assert(doc.node_wf(node));
            if let Some(scope) = self.scope_below(doc, top, handed, node) {
                self.node_refs_within_node(doc.text, doc.nodes[node], scope, offset);
            }
        }
    }

    /// Every location that the walk finds lies inside the text of the document.
    pub proof fn locations_lie_in_the_text(
        self,
        doc: DocumentView,
        root: int,
        offset: Option<usize>,
    )
        requires
            doc.wf(),
        ensures
            refs_within(
                self.document_refs(doc, root, offset),
                0,
                utf8(doc.text).len() as int,
            ),
    {
        self.lemma_prefix_within(doc, root, ScopeView::top(), doc.nodes.len() as int, offset);
    }

    /// A node in a scope whose model is unknown names no member, and hands that scope's model down
    /// to its content unless it is a `<record>` of its own.
    pub proof fn unknown_model_has_no_members(
        self,
        doc: DocumentView,
        node: int,
        scope: ScopeView,
        offset: Option<usize>,
    )
        requires
            scope.record_model == ModelScopeView::Unknown,
        ensures
            no_member(self.node_refs(doc.text, doc.nodes[node], scope, offset)),
            doc.nodes[node].tag != "record"@ ==> self.child_scope(doc, node, scope).record_model
                == ModelScopeView::Unknown,
    {
        let text = doc.text;
        let view = doc.nodes[node];
        let part = self.attribute_part(text, view, scope, offset);
        assert forall|k: int| 0 <= k < view.attributes.len() implies no_member(
            part(#[trigger] view.attributes[k]),
        ) by {
            lemma_concat_no_member(
                value_spans(text, view.attributes[k]),
                self.span_refs(text, offset),
            );
        }
        lemma_concat_no_member(view.attributes, part);
    }

    /// A `<groupby>`, or a `<field>` that holds an inline subview, whose comodel does not resolve
    /// leaves the model of its content unknown rather than that of the enclosing record.
    pub proof fn unresolved_subview_is_unknown(self, doc: DocumentView, node: int, scope: ScopeView)
        requires
            doc.nodes[node].kind == XmlNodeKind::Element,
            doc.nodes[node].tag == "groupby"@ || doc.nodes[node].tag == "field"@ && doc.has_subview(
                node,
            ) && doc.nodes[node].attribute("name"@) != Some("arch"@),
            scope.record_model.known() is Some,
            doc.nodes[node].attribute("name"@) is Some,
            self.comodel(
                scope.record_model.known()->0,
                doc.nodes[node].attribute("name"@)->0,
            ) is None,
        ensures
            self.child_scope(doc, node, scope).record_model == ModelScopeView::Unknown,
    {
        reveal_strlit("groupby");
        reveal_strlit("record");
        reveal_strlit("field");
        assert("groupby"@.len() != "record"@.len());
        assert("groupby"@.len() != "field"@.len());
        assert("field"@.len() != "record"@.len());
    }
}

/// Whether `node` lies in the content of `top`, and in that of no `<record>` in between.
pub open spec fn is_in_content(doc: DocumentView, top: int, node: int) -> bool
    decreases node,
{
    &&& 0 <= top < node < doc.nodes.len()
    &&& match doc.nodes[node].parent {
        Some(parent) => parent == top || parent < node && doc.nodes[parent as int].tag != "record"@
            && is_in_content(doc, top, parent as int),
        None => false,
    }
}

impl Resolver {
    /// Content whose top hands down an unknown model stands in scopes of an unknown model.
    proof fn lemma_unknown_content(self, doc: DocumentView, root: int, top: int, node: int)
        requires
            root < top,
            self.scope_of(doc, root, top) matches Some(scope) && self.child_scope(
                doc,
                top,
                scope,
            ).record_model == ModelScopeView::Unknown,
            is_in_content(doc, top, node),
        ensures
            self.scope_of(doc, root, node) matches Some(scope) && scope.record_model
                == ModelScopeView::Unknown,
        decreases node,
    {
        let parent = doc.nodes[node].parent->0 as int;
        if parent != top {
            self.lemma_unknown_content(doc, root, top, parent);
            let scope = self.scope_of(doc, root, parent)->0;
            self.unknown_model_has_no_members(doc, parent, scope, None);
        }
    }

    /// Nothing in a subview whose comodel does not resolve names a member, however deep it lies, but
    /// for what stands in a `<record>` of its own.
    pub proof fn unresolved_subview_names_no_member(
        self,
        doc: DocumentView,
        root: int,
        top: int,
        node: int,
        offset: Option<usize>,
    )
        requires
            root < top,
            is_in_content(doc, top, node),
            doc.nodes[top].kind == XmlNodeKind::Element,
            doc.nodes[top].tag == "groupby"@ || doc.nodes[top].tag == "field"@ && doc.has_subview(
                top,
            ) && doc.nodes[top].attribute("name"@) != Some("arch"@),
            self.scope_of(doc, root, top) matches Some(scope)
                && scope.record_model.known() matches Some(model)
                && doc.nodes[top].attribute("name"@) matches Some(field) && self.comodel(
                model,
                field,
            ) is None,
        ensures
            no_member(self.refs_at(doc, root, ScopeView::top(), node, offset)),
    {
        let scope = self.scope_of(doc, root, top)->0;
        self.unresolved_subview_is_unknown(doc, top, scope);
        self.lemma_unknown_content(doc, root, top, node);
        self.unknown_model_has_no_members(
            doc,
            node,
            self.scope_of(doc, root, node)->0,
            offset,
        );
    }
}

/// Whether no location refers to a member.
pub open spec fn no_member(refs: Seq<RefView>) -> bool {
    forall|k: int| 0 <= k < refs.len() ==> (#[trigger] refs[k]).kind != XmlRefKind::Member
}

/// Parts that refer to no member do not together.
proof fn lemma_concat_no_member<A>(items: Seq<A>, part: spec_fn(A) -> Seq<RefView>)
    requires
        forall|k: int| 0 <= k < items.len() ==> no_member(part(#[trigger] items[k])),
    ensures
        no_member(concat_map(items, part)),
    decreases items.len(),
{
    if items.len() > 0 {
        let rest = items.drop_last();
        assert forall|k: int| 0 <= k < rest.len() implies no_member(part(#[trigger] rest[k])) by {
            assert(rest[k] == items[k]);
        }
        lemma_concat_no_member(rest, part);
        assert(no_member(part(items[items.len() - 1])));
    }
}

/// Whether the symbols of the locations, those of members aside, are all in sight from a module.
pub open spec fn symbols_in_sight(st: SymbolTable, refs: Seq<RefView>, from: ModuleKey) -> bool {
    forall|k: int, i: int|
        0 <= k < refs.len() && (#[trigger] refs[k]).kind != XmlRefKind::Member && 0 <= i
            < refs[k].symbols.len() ==> st.visible(#[trigger] refs[k].symbols[i], Some(from))
}

/// Parts whose symbols are in sight are so together.
proof fn lemma_concat_in_sight<A>(
    st: SymbolTable,
    items: Seq<A>,
    part: spec_fn(A) -> Seq<RefView>,
    from: ModuleKey,
)
    requires
        forall|k: int| 0 <= k < items.len() ==> symbols_in_sight(st, part(#[trigger] items[k]), from),
    ensures
        symbols_in_sight(st, concat_map(items, part), from),
    decreases items.len(),
{
    if items.len() > 0 {
        let rest = items.drop_last();
        assert forall|k: int| 0 <= k < rest.len() implies symbols_in_sight(
            st,
            part(#[trigger] rest[k]),
            from,
        ) by {
            assert(rest[k] == items[k]);
        }
        lemma_concat_in_sight(st, rest, part, from);
        assert(symbols_in_sight(st, part(items[items.len() - 1]), from));
    }
}

impl Resolver {
    /// With `on_dep_only`, what a node refers to outside of the members of a model belongs to the
    /// dependencies of the module of the document.
    pub proof fn node_symbols_are_in_deps(
        self,
        text: Seq<char>,
        node: NodeView,
        scope: ScopeView,
        offset: Option<usize>,
    )
        requires
            self.on_dep_only,
            self.from_module is Some,
        ensures
            symbols_in_sight(
                self.session.st,
                self.node_refs(text, node, scope, offset),
                self.from_module->0,
            ),
    {
        let st = self.session.st;
        let from = self.from_module->0;
        assert forall|keys: Seq<SymbolKey>, i: int|
            0 <= i < st.visible_keys(keys, Some(from)).len() implies st.visible(
            #[trigger] st.visible_keys(keys, Some(from))[i],
            Some(from),
        ) by {
            keys.lemma_filter_pred(st.visibility(Some(from)), i);
        }
        assert forall|xml_id: Seq<char>, i: int|
            0 <= i < xml_id_targets(self.session, from, xml_id, true).len() implies st.visible(
            #[trigger] xml_id_targets(self.session, from, xml_id, true)[i],
            Some(from),
        ) by {
            self.session.xml_ids_of(from, xml_id).lemma_filter_pred(is_seen(st, Some(from)), i);
        }
        let part = self.attribute_part(text, node, scope, offset);
        assert forall|k: int| 0 <= k < node.attributes.len() implies symbols_in_sight(
            st,
            part(#[trigger] node.attributes[k]),
            from,
        ) by {
            lemma_concat_in_sight(
                st,
                value_spans(text, node.attributes[k]),
                self.span_refs(text, offset),
                from,
            );
        }
        lemma_concat_in_sight(st, node.attributes, part, from);
    }

    proof fn lemma_prefix_in_deps(
        self,
        doc: DocumentView,
        top: int,
        handed: ScopeView,
        count: int,
        offset: Option<usize>,
    )
        requires
            self.on_dep_only,
            self.from_module is Some,
        ensures
            symbols_in_sight(
                self.session.st,
                self.refs_before(doc, top, handed, count, offset),
                self.from_module->0,
            ),
        decreases count,
    {
        if count > 0 {
            let node = count - 1;
            self.lemma_prefix_in_deps(doc, top, handed, node, offset);
            if let Some(scope) = self.scope_below(doc, top, handed, node) {
                self.node_symbols_are_in_deps(doc.text, doc.nodes[node], scope, offset);
            }
        }
    }

    /// With `on_dep_only`, the symbols of every location that the walk finds, members of a model
    /// aside, belong to the dependencies of the module of the document.
    pub proof fn symbols_are_in_deps(self, doc: DocumentView, root: int, offset: Option<usize>)
        requires
            self.on_dep_only,
            self.from_module is Some,
        ensures
            symbols_in_sight(
                self.session.st,
                self.document_refs(doc, root, offset),
                self.from_module->0,
            ),
    {
        self.lemma_prefix_in_deps(doc, root, ScopeView::top(), doc.nodes.len() as int, offset);
    }
}

/// Whether locations start one after the other.
pub open spec fn in_source_order(refs: Seq<RefView>) -> bool {
    forall|j: int, k: int|
        0 <= j <= k < refs.len() ==> (#[trigger] refs[j]).start <= (#[trigger] refs[k]).start
}

/// Whether locations start between two positions.
spec fn starts_within(refs: Seq<RefView>, start: int, end: int) -> bool {
    forall|k: int| 0 <= k < refs.len() ==> start <= (#[trigger] refs[k]).start <= end
}

/// Locations in order, followed by others in order that start later, are in order.
proof fn lemma_join_in_order(left: Seq<RefView>, right: Seq<RefView>, start: int, middle: int, end: int)
    requires
        in_source_order(left),
        in_source_order(right),
        starts_within(left, start, middle),
        starts_within(right, middle, end),
        start <= middle <= end,
    ensures
        in_source_order(left + right),
        starts_within(left + right, start, end),
{
    let all = left + right;
    assert forall|k: int| 0 <= k < all.len() implies start <= (#[trigger] all[k]).start <= end by {
        if k < left.len() {
            assert(all[k] == left[k]);
        } else {
            assert(all[k] == right[k - left.len()]);
        }
    }
    assert forall|j: int, k: int| 0 <= j <= k < all.len() implies (#[trigger] all[j]).start <= (
    #[trigger] all[k]).start by {
        if k < left.len() {
            assert(all[j] == left[j] && all[k] == left[k]);
        } else if j < left.len() {
            assert(all[j] == left[j] && all[k] == right[k - left.len()]);
        } else {
            assert(all[j] == right[j - left.len()] && all[k] == right[k - left.len()]);
        }
    }
}

/// Parts in order, each inside its item, make locations in order when the items are in order.
proof fn lemma_concat_in_order<A>(
    items: Seq<A>,
    part: spec_fn(A) -> Seq<RefView>,
    from: spec_fn(A) -> int,
    to: spec_fn(A) -> int,
    start: int,
    end: int,
)
    requires
        start <= end,
        forall|k: int|
            0 <= k < items.len() ==> {
                let item = #[trigger] items[k];
                &&& start <= from(item) <= to(item) <= end
                &&& in_source_order(part(item))
                &&& starts_within(part(item), from(item), to(item))
            },
        forall|j: int, k: int|
            0 <= j < k < items.len() ==> to(#[trigger] items[j]) <= from(
                #[trigger] items[k],
            ),
    ensures
        in_source_order(concat_map(items, part)),
        starts_within(concat_map(items, part), start, end),
    decreases items.len(),
{
    if items.len() > 0 {
        let rest = items.drop_last();
        let last = items[items.len() - 1];
        let middle = from(last);
        assert forall|k: int| 0 <= k < rest.len() implies {
            let item = #[trigger] rest[k];
            &&& start <= from(item) <= to(item) <= middle
            &&& in_source_order(part(item))
            &&& starts_within(part(item), from(item), to(item))
        } by {
            assert(rest[k] == items[k]);
        }
        assert forall|j: int, k: int| 0 <= j < k < rest.len() implies to(
            #[trigger] rest[j],
        ) <= from(#[trigger] rest[k]) by {
            assert(rest[j] == items[j] && rest[k] == items[k]);
        }
        lemma_concat_in_order(rest, part, from, to, start, middle);
        lemma_join_in_order(concat_map(rest, part), part(last), start, middle, end);
    }
}

impl Resolver {
    /// Spans that start one after the other make locations in order.
    proof fn lemma_spans_in_order(
        self,
        text: Seq<char>,
        spans: Seq<ByteSpan>,
        offset: Option<usize>,
        start: int,
        end: int,
    )
        requires
            start <= end,
            spans_within(spans, start, end),
            spans_in_order(spans),
        ensures
            in_source_order(self.span_list_refs(text, spans, offset)),
            starts_within(self.span_list_refs(text, spans, offset), start, end),
    {
        let from = |span: ByteSpan| span.start as int;
        lemma_concat_in_order(spans, self.span_refs(text, offset), from, from, start, end);
    }

    /// The locations of an attribute are in order.
    proof fn lemma_attribute_in_order(
        self,
        text: Seq<char>,
        node: NodeView,
        scope: ScopeView,
        attribute: AttributeView,
        offset: Option<usize>,
    )
        requires
            attribute.start <= attribute.end <= utf8(text).len(),
        ensures
            ({
                let refs = self.attribute_part(text, node, scope, offset)(attribute);
                in_source_order(refs) && starts_within(
                    refs,
                    attribute.start as int,
                    attribute.end as int,
                )
            }),
    {
        let (start, end) = (attribute.start as int, attribute.end as int);
        let spans = value_spans(text, attribute);
        lemma_value_spans(text, attribute);
        self.lemma_spans_in_order(text, spans, offset, start, end);
        self.lemma_value_refs(node, scope, attribute);
        lemma_join_in_order(
            self.value_refs(node, scope, attribute),
            self.span_list_refs(text, spans, offset),
            start,
            start,
            end,
        );
    }

    /// The locations of a node are in order; `end` bounds its attributes.
    proof fn lemma_node_in_order(
        self,
        text: Seq<char>,
        node: NodeView,
        scope: ScopeView,
        offset: Option<usize>,
        end: int,
    )
        requires
            node.ranges_wf(utf8(text).len()),
            node.start <= end,
            forall|k: int|
                0 <= k < node.attributes.len() ==> (#[trigger] node.attributes[k]).end <= end,
        ensures
            in_source_order(self.node_refs(text, node, scope, offset)),
            starts_within(self.node_refs(text, node, scope, offset), node.start as int, end),
    {
        if node.kind == XmlNodeKind::Element {
            let attributes = node.attributes;
            let part = self.attribute_part(text, node, scope, offset);
            let from = |attribute: AttributeView| attribute.start as int;
            let to = |attribute: AttributeView| attribute.end as int;
            assert forall|k: int| 0 <= k < attributes.len() implies {
                let item = #[trigger] attributes[k];
                &&& node.start <= item.start <= item.end <= end
                &&& in_source_order(part(item))
                &&& starts_within(part(item), item.start as int, item.end as int)
            } by {
                self.lemma_attribute_in_order(text, node, scope, attributes[k], offset);
            }
            lemma_concat_in_order(attributes, part, from, to, node.start as int, end);
        }
    }

    proof fn lemma_prefix_in_order(
        self,
        doc: DocumentView,
        top: int,
        handed: ScopeView,
        count: int,
        offset: Option<usize>,
        end: int,
    )
        requires
            doc.wf(),
            0 <= count <= doc.nodes.len(),
            0 <= end,
            forall|i: int, k: int|
                0 <= i < count && 0 <= k < doc.nodes[i].attributes.len() ==> (
                #[trigger] doc.nodes[i].attributes[k]).end <= end,
            forall|i: int| 0 <= i < count ==> (#[trigger] doc.nodes[i]).start <= end,
        ensures
            in_source_order(self.refs_before(doc, top, handed, count, offset)),
            starts_within(self.refs_before(doc, top, handed, count, offset), 0, end),
        decreases count,
    {
        if count > 0 {
            let node = count - 1;
            let middle = doc.nodes[node].start as int;
            assert(doc.node_wf(node));
            assert forall|i: int, k: int|
                0 <= i < node && 0 <= k < doc.nodes[i].attributes.len() implies (
            #[trigger] doc.nodes[i].attributes[k]).end <= middle by {
                assert(doc.in_order(i, node));
            }
            assert forall|i: int| 0 <= i < node implies (#[trigger] doc.nodes[i]).start
                <= middle by {
                assert(doc.in_order(i, node));
            }
            self.lemma_prefix_in_order(doc, top, handed, node, offset, middle);
            if let Some(scope) = self.scope_below(doc, top, handed, node) {
                self.lemma_node_in_order(doc.text, doc.nodes[node], scope, offset, end);
            }
            lemma_join_in_order(
                self.refs_before(doc, top, handed, node, offset),
                self.refs_at(doc, top, handed, node, offset),
                0,
                middle,
                end,
            );
        }
    }

    /// Everything below `top` is in order, all attributes being inside the text.
    proof fn lemma_below_in_order(
        self,
        doc: DocumentView,
        top: int,
        handed: ScopeView,
        offset: Option<usize>,
    )
        requires
            doc.wf(),
        ensures
            in_source_order(self.refs_below(doc, top, handed, offset)),
            starts_within(
                self.refs_below(doc, top, handed, offset),
                0,
                utf8(doc.text).len() as int,
            ),
    {
        let end = utf8(doc.text).len() as int;
        assert forall|i: int, k: int|
            0 <= i < doc.nodes.len() && 0 <= k < doc.nodes[i].attributes.len() implies (
        #[trigger] doc.nodes[i].attributes[k]).end <= end by {
            assert(doc.node_wf(i));
        }
        assert forall|i: int| 0 <= i < doc.nodes.len() implies (#[trigger] doc.nodes[i]).start
            <= end by {
            assert(doc.node_wf(i));
        }
        self.lemma_prefix_in_order(doc, top, handed, doc.nodes.len() as int, offset, end);
    }

    /// Locations below `top` start no earlier than the nodes after it.
    proof fn lemma_starts_after(
        self,
        doc: DocumentView,
        top: int,
        handed: ScopeView,
        count: int,
        offset: Option<usize>,
        low: int,
    )
        requires
            doc.wf(),
            count <= doc.nodes.len(),
            forall|i: int| top < i < count ==> low <= (#[trigger] doc.nodes[i]).start,
        ensures
            forall|k: int|
                0 <= k < self.refs_before(doc, top, handed, count, offset).len() ==> low <= (
                #[trigger] self.refs_before(doc, top, handed, count, offset)[k]).start,
        decreases count,
    {
        if count > 0 {
            let node = count - 1;
            self.lemma_starts_after(doc, top, handed, node, offset, low);
            assert(doc.node_wf(node));
            if let Some(scope) = self.scope_below(doc, top, handed, node) {
                self.node_refs_within_node(doc.text, doc.nodes[node], scope, offset);
            }
        }
    }

    /// The walk of a node with its content finds locations in source order.
    pub proof fn tree_is_in_source_order(
        self,
        doc: DocumentView,
        node: int,
        scope: ScopeView,
        offset: Option<usize>,
    )
        requires
            doc.wf(),
            0 <= node < doc.nodes.len(),
        ensures
            in_source_order(self.tree_refs(doc, node, scope, offset)),
    {
        let end = utf8(doc.text).len() as int;
        let handed = self.child_scope(doc, node, scope);
        let own = self.node_refs(doc.text, doc.nodes[node], scope, offset);
        let content = self.refs_below(doc, node, handed, offset);
        assert(doc.node_wf(node));
        self.lemma_below_in_order(doc, node, handed, offset);
        let low = if node + 1 < doc.nodes.len() {
            doc.nodes[node + 1].start as int
        } else {
            end
        };
        assert forall|i: int| node < i < doc.nodes.len() implies low <= (
        #[trigger] doc.nodes[i]).start by {
            assert(doc.in_order(node + 1, i));
        }
        self.lemma_starts_after(doc, node, handed, doc.nodes.len() as int, offset, low);
        if node + 1 < doc.nodes.len() {
            assert(doc.in_order(node, node + 1));
            assert(doc.node_wf(node + 1));
        }
        self.lemma_node_in_order(doc.text, doc.nodes[node], scope, offset, low);
        assert(starts_within(content, low, end));
        lemma_join_in_order(own, content, doc.nodes[node].start as int, low, end);
    }

    /// The walk of a node with its content finds, with a cursor, the locations under the cursor among
    /// those that the walk without one finds.
    pub proof fn cursor_selects_in_a_tree(
        self,
        doc: DocumentView,
        node: int,
        scope: ScopeView,
        offset: usize,
    )
        requires
            doc.wf(),
            0 <= node < doc.nodes.len(),
        ensures
            self.tree_refs(doc, node, scope, Some(offset)) == self.tree_refs(
                doc,
                node,
                scope,
                None,
            ).filter(under_cursor(offset)),
    {
        let handed = self.child_scope(doc, node, scope);
        assert(doc.node_wf(node));
        self.lemma_node_cursor(doc.text, doc.nodes[node], scope, offset);
        self.lemma_prefix_cursor(doc, node, handed, doc.nodes.len() as int, offset);
        Seq::filter_distributes_over_add(
            self.node_refs(doc.text, doc.nodes[node], scope, None),
            self.refs_below(doc, node, handed, None),
            under_cursor(offset),
        );
    }

    /// The walk finds locations in source order.
    pub proof fn locations_are_in_source_order(
        self,
        doc: DocumentView,
        root: int,
        offset: Option<usize>,
    )
        requires
            doc.wf(),
        ensures
            in_source_order(self.document_refs(doc, root, offset)),
    {
        self.lemma_below_in_order(doc, root, ScopeView::top(), offset);
    }
}

} // verus!
