//! What holds of the locations of a document: what each attribute and text refers to, and that none is
//! passed over.
use vstd::prelude::*;

use crate::scope_laws::{lemma_tags_differ, only_named_models_are_known};
use crate::seqs::{
    concat_map, lemma_concat_map_add, lemma_part_place, lemma_parts_in_order, stand_in_order,
    stands_at,
};
use crate::symbols::SymbolKey;
use crate::target_laws::{is_on, is_on_no_model, lemma_names_differ};
use crate::text::{boundary, byte_slice, utf8};
use crate::xml_ast_utils::{
    format_hits, ref_symbols, symbols_of, value_groups, value_spans, RefView, XmlRefKind,
};
use crate::xml_document::{AttributeView, DocumentView, NodeView, XmlNodeKind};
use crate::xml_lookup::{xml_id_targets, Resolver};
use crate::xml_scope::ScopeView;
use crate::xml_spans::{
    format_close, format_spans, format_spans_are_references, group_span, group_spans,
    lemma_next_byte, lemma_skip_group_lead, lemma_skip_space_back, merging_keeps_spans,
    next_byte, skip_group_lead, skip_space_back, ByteSpan,
};

verus! {

/// Whether a single location is found: the value of an attribute, of that kind and with those symbols.
pub open spec fn is_the_value(
    refs: Seq<RefView>,
    kind: XmlRefKind,
    attribute: AttributeView,
    symbols: Seq<SymbolKey>,
) -> bool {
    &&& refs.len() == 1
    &&& refs[0].kind == kind
    &&& refs[0].start == attribute.start
    &&& refs[0].end == attribute.end
    &&& refs[0].symbols == symbols
}

impl Resolver {
    /// Whether the value of an attribute is found as an xml id: in a document of a module, with what
    /// the id resolves to there, and not at all in a document of none.
    pub open spec fn is_xml_id_value(
        self,
        refs: Seq<RefView>,
        kind: XmlRefKind,
        attribute: AttributeView,
    ) -> bool {
        &&& self.from_module matches Some(module) ==> is_the_value(
            refs,
            kind,
            attribute,
            xml_id_targets(self.session, module, attribute.value, self.on_dep_only),
        )
        &&& self.from_module is None ==> refs.len() == 0
    }

    /// Whether the value of an attribute is found as a member of the model in scope: with all members
    /// of that name, and not at all when there is none or no model is known.
    pub open spec fn is_member_value(
        self,
        refs: Seq<RefView>,
        scope: ScopeView,
        attribute: AttributeView,
    ) -> bool {
        &&& forall|model: Seq<char>| #[trigger]
            is_on(scope, model) ==> {
                let symbols = self.members(model, attribute.value);
                &&& symbols.len() > 0 ==> is_the_value(
                    refs,
                    XmlRefKind::Member,
                    attribute,
                    symbols,
                )
                &&& symbols.len() == 0 ==> refs.len() == 0
            }
        &&& is_on_no_model(scope) ==> refs.len() == 0
    }

    proof fn lemma_member_value(self, scope: ScopeView, attribute: AttributeView)
        ensures
            self.is_member_value(
                self.member_ref(scope, attribute.value, attribute.start, attribute.end),
                scope,
                attribute,
            ),
    {
        only_named_models_are_known(Seq::empty());
    }

    /// The `model` of a `<record>` refers to the model that it names, when there is one, and its `id`
    /// declares an xml id.
    pub proof fn records_name_models_and_declare_ids(
        self,
        node: NodeView,
        scope: ScopeView,
        attribute: AttributeView,
    )
        requires
            node.tag == "record"@,
        ensures
            attribute.name == "model"@ ==> match self.model_classes(attribute.value) {
                Some(symbols) => is_the_value(
                    self.value_refs(node, scope, attribute),
                    XmlRefKind::Model,
                    attribute,
                    symbols,
                ),
                None => self.value_refs(node, scope, attribute).len() == 0,
            },
            attribute.name == "id"@ ==> self.is_xml_id_value(
                self.value_refs(node, scope, attribute),
                XmlRefKind::XmlIdDeclaration,
                attribute,
            ),
    {
        lemma_tags_differ();
        lemma_names_differ();
    }

    /// The `name` of a `<field>` and of a `<groupby>` refers to the members of the model in scope, its
    /// `ref` to an xml id.
    pub proof fn fields_name_members_and_ids(
        self,
        node: NodeView,
        scope: ScopeView,
        attribute: AttributeView,
    )
        requires
            node.tag == "field"@ || node.tag == "groupby"@,
        ensures
            attribute.name == "name"@ ==> self.is_member_value(
                self.value_refs(node, scope, attribute),
                scope,
                attribute,
            ),
            attribute.name == "ref"@ ==> self.is_xml_id_value(
                self.value_refs(node, scope, attribute),
                XmlRefKind::XmlId,
                attribute,
            ),
    {
        lemma_tags_differ();
        lemma_names_differ();
        self.lemma_member_value(scope, attribute);
    }

    /// The `name` of a `<button>` refers to the members of the model in scope, unless the button is of
    /// type `action`.
    pub proof fn buttons_name_members(
        self,
        node: NodeView,
        scope: ScopeView,
        attribute: AttributeView,
    )
        requires
            node.tag == "button"@,
            attribute.name == "name"@,
        ensures
            node.attribute("type"@) != Some("action"@) ==> self.is_member_value(
                self.value_refs(node, scope, attribute),
                scope,
                attribute,
            ),
            node.attribute("type"@) == Some("action"@) ==> self.value_refs(
                node,
                scope,
                attribute,
            ).len() == 0,
    {
        lemma_tags_differ();
        lemma_names_differ();
        self.lemma_member_value(scope, attribute);
    }

    /// The `action` and the `parent` of a `<menuitem>` and the `inherit_id` of a `<template>` refer to
    /// xml ids; the `id` of either declares one.
    pub proof fn menus_and_templates_name_ids(
        self,
        node: NodeView,
        scope: ScopeView,
        attribute: AttributeView,
    )
        requires
            node.tag == "menuitem"@ || node.tag == "template"@,
        ensures
            node.tag == "menuitem"@ && (attribute.name == "action"@ || attribute.name == "parent"@)
                ==> self.is_xml_id_value(
                self.value_refs(node, scope, attribute),
                XmlRefKind::XmlId,
                attribute,
            ),
            node.tag == "template"@ && attribute.name == "inherit_id"@ ==> self.is_xml_id_value(
                self.value_refs(node, scope, attribute),
                XmlRefKind::XmlId,
                attribute,
            ),
            attribute.name == "id"@ ==> self.is_xml_id_value(
                self.value_refs(node, scope, attribute),
                XmlRefKind::XmlIdDeclaration,
                attribute,
            ),
    {
        lemma_tags_differ();
        lemma_names_differ();
    }

    /// On whatever element, `t-call` refers to an xml id, and `groups` as a whole to nothing.
    pub proof fn calls_name_ids(
        self,
        node: NodeView,
        scope: ScopeView,
        attribute: AttributeView,
    )
        ensures
            attribute.name == "t-call"@ ==> self.is_xml_id_value(
                self.value_refs(node, scope, attribute),
                XmlRefKind::XmlId,
                attribute,
            ),
            attribute.name == "groups"@ ==> self.value_refs(node, scope, attribute).len() == 0,
    {
        lemma_names_differ();
    }

    /// The value of no other attribute refers to anything as a whole.
    pub proof fn other_values_name_nothing(
        self,
        node: NodeView,
        scope: ScopeView,
        attribute: AttributeView,
    )
        requires
            attribute.name != "t-call"@,
            !(node.tag == "record"@ && (attribute.name == "model"@ || attribute.name == "id"@)),
            !((node.tag == "field"@ || node.tag == "groupby"@) && (attribute.name == "name"@
                || attribute.name == "ref"@)),
            !(node.tag == "button"@ && attribute.name == "name"@),
            !(node.tag == "menuitem"@ && (attribute.name == "action"@ || attribute.name
                == "parent"@ || attribute.name == "id"@)),
            !(node.tag == "template"@ && (attribute.name == "inherit_id"@ || attribute.name
                == "id"@)),
        ensures
            self.value_refs(node, scope, attribute).len() == 0,
    {
    }

    /// A text refers to the model that it names in a field named `model` or `res_model` of a known
    /// model, when there is such a model, and to nothing elsewhere.
    pub proof fn texts_of_model_fields_name_models(
        self,
        node: NodeView,
        scope: ScopeView,
        model: Seq<char>,
    )
        requires
            node.text is Some,
        ensures
            is_on(scope, model) && (scope.field_name == Some("model"@) || scope.field_name == Some(
                "res_model"@,
            )) ==> {
                let refs = self.text_refs(node, scope, None);
                match self.model_classes(node.text->0) {
                    Some(symbols) => {
                        &&& refs.len() == 1
                        &&& refs[0].kind == XmlRefKind::Model
                        &&& refs[0].start == node.start
                        &&& refs[0].end == node.end
                        &&& refs[0].symbols == symbols
                    },
                    None => refs.len() == 0,
                }
            },
            is_on_no_model(scope) ==> self.text_refs(node, scope, None).len() == 0,
            scope.field_name != Some("model"@) && scope.field_name != Some("res_model"@)
                ==> self.text_refs(node, scope, None).len() == 0,
    {
        only_named_models_are_known(model);
        only_named_models_are_known(Seq::empty());
    }

    /// An attribute lends a location for its value as a whole, when it has one, and behind it one for
    /// each xml id inside of the value; those of an element come in the order of its attributes, and
    /// none is passed over.
    pub proof fn attributes_lend_their_locations(
        self,
        text: Seq<char>,
        node: NodeView,
        scope: ScopeView,
        k: int,
    )
        requires
            node.kind == XmlNodeKind::Element,
            0 <= k < node.attributes.len(),
        ensures
            ({
                let all = self.node_refs(text, node, scope, None);
                let attribute = node.attributes[k];
                let whole = self.value_refs(node, scope, attribute);
                let inside = self.span_list_refs(text, value_spans(text, attribute), None);
                &&& exists|i: int| #[trigger] stands_at(all, whole + inside, i)
                &&& forall|j: int|
                    k < j < node.attributes.len() ==> stand_in_order(
                        all,
                        whole + inside,
                        self.value_refs(node, scope, #[trigger] node.attributes[j])
                            + self.span_list_refs(
                            text,
                            value_spans(text, node.attributes[j]),
                            None,
                        ),
                    )
            }),
    {
        let part = self.attribute_part(text, node, scope, None);
        let all = self.node_refs(text, node, scope, None);
        let lent = part(node.attributes[k]);
        let whole = self.value_refs(node, scope, node.attributes[k]);
        let inside = self.span_list_refs(text, value_spans(text, node.attributes[k]), None);
        lemma_part_place(node.attributes, part, k);
        assert(lent == whole + inside);
        assert(stands_at(
            all,
            whole + inside,
            concat_map(node.attributes.take(k), part).len() as int,
        ));
        assert forall|j: int| k < j < node.attributes.len() implies stand_in_order(
            all,
            whole + inside,
            self.value_refs(node, scope, #[trigger] node.attributes[j]) + self.span_list_refs(
                text,
                value_spans(text, node.attributes[j]),
                None,
            ),
        ) by {
            lemma_parts_in_order(node.attributes, part, k, j);
            assert(part(node.attributes[j]) == self.value_refs(node, scope, node.attributes[j])
                + self.span_list_refs(text, value_spans(text, node.attributes[j]), None));
        }
    }

    /// The xml ids inside of a value lend one location each, in order: that of the span, with what the
    /// text there resolves to. A document of no module has none.
    pub proof fn spans_lend_their_locations(
        self,
        text: Seq<char>,
        spans: Seq<ByteSpan>,
    )
        ensures
            self.from_module is None ==> self.span_list_refs(text, spans, None).len() == 0,
            self.from_module matches Some(module) ==> {
                let refs = self.span_list_refs(text, spans, None);
                &&& refs.len() == spans.len()
                &&& forall|k: int|
                    0 <= k < spans.len() ==> {
                        let found = #[trigger] refs[k];
                        &&& found.kind == XmlRefKind::XmlId
                        &&& found.start == spans[k].start
                        &&& found.end == spans[k].end
                        &&& found.symbols == xml_id_targets(
                            self.session,
                            module,
                            byte_slice(text, spans[k].start as int, spans[k].end as int),
                            self.on_dep_only,
                        )
                    }
            },
        decreases spans.len(),
    {
        let part = self.span_refs(text, None);
        if spans.len() > 0 {
            self.spans_lend_their_locations(text, spans.drop_last());
            let rest = concat_map(spans.drop_last(), part);
            let refs = concat_map(spans, part);
            assert(refs =~= rest + part(spans.last()));
            if self.from_module is Some {
                assert forall|k: int| 0 <= k < rest.len() implies #[trigger] refs[k] == rest[k]
                    && spans[k] == spans.drop_last()[k] by {}
            }
        }
    }

    /// Nodes that are neither elements nor texts refer to nothing, and texts to what they name.
    pub proof fn other_nodes_name_nothing(
        self,
        text: Seq<char>,
        node: NodeView,
        scope: ScopeView,
    )
        ensures
            node.kind == XmlNodeKind::Text ==> self.node_refs(text, node, scope, None)
                == self.text_refs(node, scope, None),
            node.kind == XmlNodeKind::Comment || node.kind == XmlNodeKind::Pi || node.kind
                == XmlNodeKind::Root ==> self.node_refs(text, node, scope, None).len() == 0,
    {
    }

    proof fn lemma_refs_grow(
        self,
        doc: DocumentView,
        top: int,
        handed: ScopeView,
        count: int,
        more: int,
    )
        requires
            0 <= count <= more,
        ensures
            stands_at(
                self.refs_before(doc, top, handed, more, None),
                self.refs_before(doc, top, handed, count, None),
                0,
            ),
        decreases more - count,
    {
        let before = self.refs_before(doc, top, handed, count, None);
        let all = self.refs_before(doc, top, handed, more, None);
        if count < more {
            self.lemma_refs_grow(doc, top, handed, count, more - 1);
            let rest = self.refs_before(doc, top, handed, more - 1, None);
            assert(all.subrange(0, before.len() as int) =~= rest.subrange(0, before.len() as int));
        } else {
            assert(all.subrange(0, before.len() as int) =~= before);
        }
    }

    /// The walk of a document passes over no node: what each refers to, in the scope that it stands in,
    /// is found in one piece, that of earlier nodes before that of later ones.
    pub proof fn documents_hold_the_locations_of_their_nodes(
        self,
        doc: DocumentView,
        node: int,
    )
        requires
            doc.wf(),
            0 < node < doc.nodes.len(),
        ensures
            self.scope_of(doc, 0, node) is Some,
            exists|i: int| #[trigger]
                stands_at(
                    self.document_refs(doc, 0, None),
                    self.node_refs(
                        doc.text,
                        doc.nodes[node],
                        self.scope_of(doc, 0, node)->0,
                        None,
                    ),
                    i,
                ),
            forall|later: int|
                node < later < doc.nodes.len() ==> stand_in_order(
                    self.document_refs(doc, 0, None),
                    self.node_refs(
                        doc.text,
                        doc.nodes[node],
                        self.scope_of(doc, 0, node)->0,
                        None,
                    ),
                    self.node_refs(
                        doc.text,
                        #[trigger] doc.nodes[later],
                        self.scope_of(doc, 0, later)->0,
                        None,
                    ),
                ),
    {
        self.lemma_node_place(doc, node);
        let top = ScopeView::top();
        let all = self.document_refs(doc, 0, None);
        let own = self.node_refs(
            doc.text,
            doc.nodes[node],
            self.scope_of(doc, 0, node)->0,
            None,
        );
        let i = self.refs_before(doc, 0, top, node, None).len() as int;
        assert(stands_at(all, own, i));
        assert forall|later: int| node < later < doc.nodes.len() implies stand_in_order(
            all,
            own,
            self.node_refs(
                doc.text,
                #[trigger] doc.nodes[later],
                self.scope_of(doc, 0, later)->0,
                None,
            ),
        ) by {
            self.lemma_node_place(doc, later);
            let j = self.refs_before(doc, 0, top, later, None).len() as int;
            self.lemma_refs_grow(doc, 0, top, node + 1, later);
            assert(self.refs_before(doc, 0, top, node + 1, None).len() == i + own.len());
            let right = self.node_refs(
                doc.text,
                doc.nodes[later],
                self.scope_of(doc, 0, later)->0,
                None,
            );
            assert(stands_at(all, own, i) && stands_at(all, right, j));
        }
    }

    proof fn lemma_node_place(self, doc: DocumentView, node: int)
        requires
            doc.wf(),
            0 < node < doc.nodes.len(),
        ensures
            self.scope_of(doc, 0, node) is Some,
            self.refs_before(doc, 0, ScopeView::top(), node + 1, None) == self.refs_before(
                doc,
                0,
                ScopeView::top(),
                node,
                None,
            ) + self.node_refs(
                doc.text,
                doc.nodes[node],
                self.scope_of(doc, 0, node)->0,
                None,
            ),
            stands_at(
                self.document_refs(doc, 0, None),
                self.node_refs(
                    doc.text,
                    doc.nodes[node],
                    self.scope_of(doc, 0, node)->0,
                    None,
                ),
                self.refs_before(doc, 0, ScopeView::top(), node, None).len() as int,
            ),
    {
        let top = ScopeView::top();
        self.walk_reaches_every_node(doc, node);
        self.lemma_refs_grow(doc, 0, top, node + 1, doc.nodes.len() as int);
        let all = self.document_refs(doc, 0, None);
        let until = self.refs_before(doc, 0, top, node + 1, None);
        let before = self.refs_before(doc, 0, top, node, None);
        let own = self.node_refs(
            doc.text,
            doc.nodes[node],
            self.scope_of(doc, 0, node)->0,
            None,
        );
        let i = before.len() as int;
        assert(until =~= before + own);
        assert(all.subrange(0, until.len() as int) == until);
        assert(all.subrange(i, i + own.len()) =~= until.subrange(i, i + own.len()));
        assert(until.subrange(i, i + own.len()) =~= own);
    }

    /// The walk of an element finds what the element refers to, and then what its children do in the
    /// scope that it hands down.
    pub proof fn elements_come_before_their_content(
        self,
        doc: DocumentView,
        node: int,
        scope: ScopeView,
        offset: Option<usize>,
    )
        requires
            doc.nodes[node].kind == XmlNodeKind::Element,
        ensures
            self.tree_refs(doc, node, scope, offset) == self.node_refs(
                doc.text,
                doc.nodes[node],
                scope,
                offset,
            ) + self.refs_below(doc, node, self.child_scope(doc, node, scope), offset),
    {
    }
}

/// The symbols of locations are those of each, one after the other.
pub proof fn symbols_are_joined(left: Seq<RefView>, right: Seq<RefView>, xml_ref: RefView)
    ensures
        symbols_of(left + right) == symbols_of(left) + symbols_of(right),
        symbols_of(seq![xml_ref]) == xml_ref.symbols,
        symbols_of(Seq::empty()) == Seq::<SymbolKey>::empty(),
{
    lemma_concat_map_add(left, right, ref_symbols());
    assert(seq![xml_ref].drop_last() =~= Seq::<RefView>::empty());
    assert(concat_map(seq![xml_ref].drop_last(), ref_symbols()) =~= Seq::empty());
    assert(symbols_of(seq![xml_ref]) =~= xml_ref.symbols);
}

/// Inside of a value stand its format references and, in an attribute named `groups`, its groups; each
/// and no others.
pub proof fn values_hold_groups_and_references(text: Seq<char>, attribute: AttributeView)
    ensures
        attribute.name != "groups"@ ==> value_spans(text, attribute) == format_spans(
            utf8(text),
            attribute.start as int,
            attribute.end as int,
        ),
        attribute.name == "groups"@ && boundary(text, attribute.start as int) && boundary(
            text,
            attribute.end as int,
        ) ==> value_spans(text, attribute).to_multiset() == group_spans(
            utf8(text),
            attribute.start as int,
            attribute.end as int,
        ).to_multiset().add(
            format_spans(
                utf8(text),
                attribute.start as int,
                attribute.end as int,
            ).to_multiset(),
        ),
{
    merging_keeps_spans(
        value_groups(text, attribute),
        format_spans(utf8(text), attribute.start as int, attribute.end as int),
    );
}

/// Whether a format reference stands at a position: `%(`, something without `)`, `)`, and `d`, `s` or
/// `i`, all before `end`.
pub open spec fn is_reference_at(bytes: Seq<u8>, p: int, close: int, end: int) -> bool {
    &&& 0 <= p
    &&& p + 2 <= close
    &&& close + 1 < end
    &&& bytes[p] == 0x25
    &&& bytes[p + 1] == 0x28
    &&& bytes[close] == 0x29
    &&& forall|j: int| p + 2 <= j < close ==> #[trigger] bytes[j] != 0x29
    &&& bytes[close + 1] == 0x64 || bytes[close + 1] == 0x73 || bytes[close + 1] == 0x69
}

/// Whether a position lies in the reference that a span is the xml id of.
pub open spec fn covers(span: ByteSpan, p: int) -> bool {
    span.start - 2 <= p < span.end + 2
}

/// Every format reference is found: the position of each lies in one of those found, and one that lies
/// in no earlier one is found itself.
pub proof fn every_reference_is_found(
    bytes: Seq<u8>,
    from: int,
    end: int,
    p: int,
    close: int,
)
    requires
        0 <= from <= p,
        end <= bytes.len(),
        end <= usize::MAX,
        is_reference_at(bytes, p, close, end),
    ensures
        ({
            let spans = format_spans(bytes, from, end);
            exists|k: int|
                0 <= k < spans.len() && covers(#[trigger] spans[k], p) && (spans[k].start == p + 2
                    && spans[k].end == close || spans[k].start - 2 < p)
        }),
    decreases p - from,
{
    let spans = format_spans(bytes, from, end);
    match format_close(bytes, from, end) {
        Some(found) => {
            lemma_next_byte(bytes, from + 2, end, 0x29);
            let span = ByteSpan { start: (from + 2) as usize, end: found as usize };
            let rest = format_spans(bytes, found + 2, end);
            assert(spans =~= seq![span] + rest);
            if p == from {
                assert(found == close) by {
                    if found < close {
                        assert(bytes[found] != 0x29);
                    } else if close < found {
                        assert(bytes[close] != 0x29);
                    }
                }
                assert(covers(spans[0], p));
            } else if p < found + 2 {
                assert(covers(spans[0], p) && spans[0].start - 2 < p);
            } else {
                every_reference_is_found(bytes, found + 2, end, p, close);
                let k = choose|k: int|
                    0 <= k < rest.len() && covers(#[trigger] rest[k], p) && (rest[k].start == p + 2
                        && rest[k].end == close || rest[k].start - 2 < p);
                assert(spans[k + 1] == rest[k]);
            }
        },
        None => {
            if p == from {
                lemma_next_byte(bytes, from + 2, end, 0x29);
                let found = next_byte(bytes, from + 2, end, 0x29);
                if found < close {
                    assert(bytes[found] != 0x29);
                } else if close < found {
                    assert(bytes[close] != 0x29);
                }
            } else {
                every_reference_is_found(bytes, from + 1, end, p, close);
            }
        },
    }
}

/// Every reference found is one, and its xml id is what stands between its brackets.
pub proof fn found_references_are_references(bytes: Seq<u8>, from: int, end: int, k: int)
    requires
        0 <= from,
        end <= bytes.len(),
        end <= usize::MAX,
        0 <= k < format_spans(bytes, from, end).len(),
    ensures
        is_reference_at(
            bytes,
            format_spans(bytes, from, end)[k].start - 2,
            format_spans(bytes, from, end)[k].end as int,
            end,
        ),
        from + 2 <= format_spans(bytes, from, end)[k].start,
{
    format_spans_are_references(bytes, from, end);
    assert(crate::xml_spans::is_format_span(
        bytes,
        from,
        end,
        format_spans(bytes, from, end)[k],
    ));
}

/// Whether a byte may be part of the xml id of a group wherever it stands: it is no comma, no white
/// space and no `!`.
pub open spec fn is_of_group(byte: u8) -> bool {
    byte != 0x2c && byte != 0x20 && byte != 0x09 && byte != 0x0a && byte != 0x0d && byte != 0x21
}

/// Every group is found: what stands in a list of groups, commas, white space and `!` aside, is part of
/// one.
pub proof fn every_group_is_found(bytes: Seq<u8>, from: int, end: int, p: int)
    requires
        0 <= from <= p < end,
        end <= bytes.len(),
        end <= usize::MAX,
        is_of_group(bytes[p]),
    ensures
        ({
            let spans = group_spans(bytes, from, end);
            exists|k: int| 0 <= k < spans.len() && (#[trigger] spans[k]).start <= p < spans[k].end
        }),
    decreases end - from,
{
    let spans = group_spans(bytes, from, end);
    let comma = next_byte(bytes, from, end, 0x2c);
    lemma_next_byte(bytes, from, end, 0x2c);
    let span = group_span(bytes, from, comma);
    let start = skip_group_lead(bytes, from, comma);
    lemma_skip_group_lead(bytes, from, comma);
    lemma_skip_space_back(bytes, start, comma);
    let first = if span.start < span.end {
        seq![span]
    } else {
        Seq::empty()
    };
    if p < comma {
        assert(start <= p);
        assert(p < skip_space_back(bytes, start, comma));
        assert(first =~= seq![span]);
        assert(spans[0] == span);
    } else {
        assert(p != comma);
        every_group_is_found(bytes, comma + 1, end, p);
        let rest = group_spans(bytes, comma + 1, end);
        let k = choose|k: int|
            0 <= k < rest.len() && (#[trigger] rest[k]).start <= p < rest[k].end;
        assert(spans =~= first + rest);
        assert(spans[first.len() + k] == rest[k]);
    }
}

/// The format references of an attribute are told with their xml id and its bytes.
pub proof fn hits_are_the_references(text: Seq<char>, attribute: AttributeView)
    ensures
        ({
            let spans = format_spans(utf8(text), attribute.start as int, attribute.end as int);
            let hits = format_hits(text, attribute);
            &&& hits.len() == spans.len()
            &&& forall|k: int|
                0 <= k < hits.len() ==> {
                    let hit = #[trigger] hits[k];
                    &&& hit.0 == byte_slice(text, spans[k].start as int, spans[k].end as int)
                    &&& hit.1 == spans[k].start
                    &&& hit.2 == spans[k].end
                }
        }),
{
}

/// Whether a byte is white space in XML.
pub open spec fn is_white(byte: u8) -> bool {
    byte == 0x20 || byte == 0x09 || byte == 0x0a || byte == 0x0d
}

/// Every group found is the xml id of one segment between commas: it neither starts with white space or
/// `!` nor ends with white space, holds no comma, and only white space and `!` stand before it in its
/// segment, only white space behind it.
pub proof fn found_groups_are_groups(bytes: Seq<u8>, from: int, end: int, k: int)
    requires
        0 <= from <= end <= bytes.len(),
        end <= usize::MAX,
        0 <= k < group_spans(bytes, from, end).len(),
    ensures
        ({
            let span = group_spans(bytes, from, end)[k];
            &&& from <= span.start < span.end <= end
            &&& !is_white(bytes[span.start as int]) && bytes[span.start as int] != 0x21
            &&& !is_white(bytes[span.end - 1])
            &&& forall|j: int| span.start <= j < span.end ==> #[trigger] bytes[j] != 0x2c
            &&& exists|first: int, last: int| #[trigger]
                is_segment(bytes, from, end, first, last) && first <= span.start && span.end <= last
                    && (forall|j: int|
                    first <= j < span.start ==> is_white(#[trigger] bytes[j]) || bytes[j] == 0x21)
                    && (forall|j: int| span.end <= j < last ==> is_white(#[trigger] bytes[j]))
        }),
    decreases end - from,
{
    let spans = group_spans(bytes, from, end);
    let comma = next_byte(bytes, from, end, 0x2c);
    lemma_next_byte(bytes, from, end, 0x2c);
    let span = group_span(bytes, from, comma);
    let start = skip_group_lead(bytes, from, comma);
    lemma_skip_group_lead(bytes, from, comma);
    lemma_skip_space_back(bytes, start, comma);
    let first = if span.start < span.end {
        seq![span]
    } else {
        Seq::empty()
    };
    if k < first.len() {
        assert(spans[k] == span);
        assert(is_segment(bytes, from, end, from, comma));
    } else {
        let rest = group_spans(bytes, comma + 1, end);
        assert(spans =~= first + rest);
        let at = k - first.len();
        assert(spans[k] == rest[at]);
        found_groups_are_groups(bytes, comma + 1, end, at);
        let found = rest[at];
        let (a, b) = choose|first: int, last: int| #[trigger]
            is_segment(bytes, comma + 1, end, first, last) && first <= found.start && found.end
                <= last && (forall|j: int|
                first <= j < found.start ==> is_white(#[trigger] bytes[j]) || bytes[j] == 0x21) && (
            forall|j: int| found.end <= j < last ==> is_white(#[trigger] bytes[j]));
        assert(is_segment(bytes, from, end, a, b));
    }
}

/// Whether a segment of a list lies between two positions: it starts with the list or behind a comma,
/// and ends with the list or before one.
pub open spec fn is_segment(bytes: Seq<u8>, from: int, end: int, first: int, last: int) -> bool {
    &&& from <= first <= last <= end
    &&& first == from || bytes[first - 1] == 0x2c
    &&& last == end || bytes[last] == 0x2c
}

} // verus!
