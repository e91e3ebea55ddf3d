//! Resolvable locations of XML documents: where they stand, what they refer to.
use vstd::prelude::*;

use crate::seqs::{concat_map, lemma_concat_map_step};
use crate::symbols::{append_keys, ModuleKey, SessionInfo, SymbolKey};
use crate::text::{boundary, byte_slice, slice, str_eq, utf8};
use crate::xml_document::{
    AttributeView, DocumentView, NodeView, XmlAttribute, XmlDocument, XmlNode, XmlNodeKind,
};
use crate::xml_lookup::{xml_id_targets, Resolver};
use crate::xml_scope::{ScopeView, XmlScope};
use crate::xml_spans::{
    find_format_spans, find_group_spans, format_spans, format_spans_fit, group_spans,
    group_spans_fit, lemma_merged_from, merge_spans, merged, spans_fit, ByteSpan,
};
use crate::xml_walk_laws::in_source_order;
use std::ops::Range;

verus! {

/// What an XML location refers to, kept next to the symbols so consumers need not infer it.
#[derive(Clone, Copy, PartialEq, Eq, Structural, Debug)]
pub enum XmlRefKind {
    /// A model name: `<record model=…>`, `<field name="model">…</field>`.
    Model,
    /// A reference to an xml id: `ref=`, `groups=`, `action=`, `parent=`, `inherit_id=`, `t-call=`,
    /// `%(…)d`.
    XmlId,
    /// The `id=` of a `<record>`, a `<template>` or a `<menuitem>`, declaring the xml id rather than
    /// referencing one.
    XmlIdDeclaration,
    /// A field or a method of the surrounding record model: `<field name=…>`, `<button name=…>`.
    Member,
}

/// A resolvable XML location: its kind, byte range, and symbols, empty when nothing matched.
#[derive(Debug)]
pub struct XmlRef {
    pub kind: XmlRefKind,
    pub range: Range<usize>,
    pub symbols: Vec<SymbolKey>,
}

/// Value of an [`XmlRef`].
pub ghost struct RefView {
    pub kind: XmlRefKind,
    pub start: usize,
    pub end: usize,
    pub symbols: Seq<SymbolKey>,
}

impl View for XmlRef {
    type V = RefView;

    open spec fn view(&self) -> RefView {
        RefView {
            kind: self.kind,
            start: self.range.start,
            end: self.range.end,
            symbols: self.symbols@,
        }
    }
}

/// Values of a sequence of [`XmlRef`].
pub open spec fn refs_view(refs: Seq<XmlRef>) -> Seq<RefView> {
    refs.map_values(|xml_ref: XmlRef| xml_ref@)
}

/// Whether bytes are under the cursor, `None` taking all bytes.
pub open spec fn at_offset(start: usize, end: usize, offset: Option<usize>) -> bool {
    match offset {
        Some(offset) => start <= offset <= end,
        None => true,
    }
}

/// The format references in the value of an attribute: each xml id with its bytes.
pub open spec fn format_hits(text: Seq<char>, attribute: AttributeView) -> Seq<
    (Seq<char>, usize, usize),
> {
    format_spans(utf8(text), attribute.start as int, attribute.end as int).map_values(
        |span: ByteSpan|
            (byte_slice(text, span.start as int, span.end as int), span.start, span.end),
    )
}

/// Values of the hits that [`XmlAstUtils::for_each_format_xml_id_ref`] returns.
pub open spec fn hits_view(hits: Seq<(String, Range<usize>)>) -> Seq<(Seq<char>, usize, usize)> {
    hits.map_values(|hit: (String, Range<usize>)| (hit.0@, hit.1.start, hit.1.end))
}

/// The groups in the value of an attribute, when it is a list of them. A value that does not start
/// and end between characters holds none.
pub open spec fn value_groups(text: Seq<char>, attribute: AttributeView) -> Seq<ByteSpan> {
    if attribute.name == "groups"@ && boundary(text, attribute.start as int) && boundary(
        text,
        attribute.end as int,
    ) {
        group_spans(utf8(text), attribute.start as int, attribute.end as int)
    } else {
        Seq::empty()
    }
}

/// The xml ids inside of the value of an attribute by start: its groups and its format references.
pub open spec fn value_spans(text: Seq<char>, attribute: AttributeView) -> Seq<ByteSpan> {
    merged(
        value_groups(text, attribute),
        format_spans(utf8(text), attribute.start as int, attribute.end as int),
    )
}

impl Resolver {
    /// The reference to an xml id at some bytes. A document of no module has none.
    pub open spec fn xml_id_ref(
        self,
        kind: XmlRefKind,
        xml_id: Seq<char>,
        start: usize,
        end: usize,
    ) -> Seq<RefView> {
        match self.from_module {
            Some(module) => seq![
                RefView {
                    kind,
                    start,
                    end,
                    symbols: xml_id_targets(self.session, module, xml_id, self.on_dep_only),
                },
            ],
            None => Seq::empty(),
        }
    }

    /// The reference to a model at some bytes, when there is such a model.
    pub open spec fn model_ref(self, model: Seq<char>, start: usize, end: usize) -> Seq<RefView> {
        match self.model_classes(model) {
            Some(symbols) => seq![RefView { kind: XmlRefKind::Model, start, end, symbols }],
            None => Seq::empty(),
        }
    }

    /// The reference to a member of the model in scope, when it has such a member.
    pub open spec fn member_ref(
        self,
        scope: ScopeView,
        member: Seq<char>,
        start: usize,
        end: usize,
    ) -> Seq<RefView> {
        match scope.record_model.known() {
            Some(model) => {
                let symbols = self.members(model, member);
                if symbols.len() > 0 {
                    seq![RefView { kind: XmlRefKind::Member, start, end, symbols }]
                } else {
                    Seq::empty()
                }
            },
            None => Seq::empty(),
        }
    }

    /// The reference that a span of the text is, when it is under the cursor.
    pub open spec fn span_refs(self, text: Seq<char>, offset: Option<usize>) -> spec_fn(
        ByteSpan,
    ) -> Seq<RefView> {
        |span: ByteSpan|
            if at_offset(span.start, span.end, offset) {
                self.xml_id_ref(
                    XmlRefKind::XmlId,
                    byte_slice(text, span.start as int, span.end as int),
                    span.start,
                    span.end,
                )
            } else {
                Seq::empty()
            }
    }

    /// The references that spans of the text are, those under the cursor.
    pub open spec fn span_list_refs(
        self,
        text: Seq<char>,
        spans: Seq<ByteSpan>,
        offset: Option<usize>,
    ) -> Seq<RefView> {
        concat_map(spans, self.span_refs(text, offset))
    }

    /// What an attribute of a `<record>` refers to.
    pub open spec fn record_refs(self, attribute: AttributeView) -> Seq<RefView> {
        if attribute.name == "model"@ {
            self.model_ref(attribute.value, attribute.start, attribute.end)
        } else if attribute.name == "id"@ {
            self.xml_id_ref(
                XmlRefKind::XmlIdDeclaration,
                attribute.value,
                attribute.start,
                attribute.end,
            )
        } else {
            Seq::empty()
        }
    }

    /// What an attribute of a `<field>` or a `<groupby>` refers to.
    pub open spec fn field_refs(self, scope: ScopeView, attribute: AttributeView) -> Seq<RefView> {
        if attribute.name == "name"@ {
            self.member_ref(scope, attribute.value, attribute.start, attribute.end)
        } else if attribute.name == "ref"@ {
            self.xml_id_ref(XmlRefKind::XmlId, attribute.value, attribute.start, attribute.end)
        } else {
            Seq::empty()
        }
    }

    /// What an attribute of an element that declares an xml id refers to, `references` being the
    /// attributes that name another one.
    pub open spec fn declaration_refs(
        self,
        references: Set<Seq<char>>,
        attribute: AttributeView,
    ) -> Seq<RefView> {
        if references.contains(attribute.name) {
            self.xml_id_ref(XmlRefKind::XmlId, attribute.value, attribute.start, attribute.end)
        } else if attribute.name == "id"@ {
            self.xml_id_ref(
                XmlRefKind::XmlIdDeclaration,
                attribute.value,
                attribute.start,
                attribute.end,
            )
        } else {
            Seq::empty()
        }
    }

    /// What an attribute of a `<button>` refers to. An implicit `type` is `object` in views, only
    /// `type="action"` names an xml id.
    pub open spec fn button_refs(
        self,
        node: NodeView,
        scope: ScopeView,
        attribute: AttributeView,
    ) -> Seq<RefView> {
        if attribute.name == "name"@ && node.attribute("type"@) != Some("action"@) {
            self.member_ref(scope, attribute.value, attribute.start, attribute.end)
        } else {
            Seq::empty()
        }
    }

    /// What the value of an attribute as a whole refers to. A list of groups is none.
    pub open spec fn value_refs(
        self,
        node: NodeView,
        scope: ScopeView,
        attribute: AttributeView,
    ) -> Seq<RefView> {
        if attribute.name == "groups"@ {
            Seq::empty()
        } else if attribute.name == "t-call"@ {
            self.xml_id_ref(XmlRefKind::XmlId, attribute.value, attribute.start, attribute.end)
        } else if node.tag == "record"@ {
            self.record_refs(attribute)
        } else if node.tag == "field"@ || node.tag == "groupby"@ {
            self.field_refs(scope, attribute)
        } else if node.tag == "menuitem"@ {
            self.declaration_refs(set!["action"@, "parent"@], attribute)
        } else if node.tag == "template"@ {
            self.declaration_refs(set!["inherit_id"@], attribute)
        } else if node.tag == "button"@ {
            self.button_refs(node, scope, attribute)
        } else {
            Seq::empty()
        }
    }

    /// What an attribute under the cursor refers to: first its value as a whole, then the xml ids
    /// inside of the value.
    pub open spec fn attribute_refs(
        self,
        text: Seq<char>,
        node: NodeView,
        scope: ScopeView,
        attribute: AttributeView,
        offset: Option<usize>,
    ) -> Seq<RefView> {
        self.value_refs(node, scope, attribute) + self.span_list_refs(
            text,
            value_spans(text, attribute),
            offset,
        )
    }

    /// [`Resolver::attribute_refs`] of the attributes under the cursor.
    pub open spec fn attribute_part(
        self,
        text: Seq<char>,
        node: NodeView,
        scope: ScopeView,
        offset: Option<usize>,
    ) -> spec_fn(AttributeView) -> Seq<RefView> {
        |attribute: AttributeView|
            if at_offset(attribute.start, attribute.end, offset) {
                self.attribute_refs(text, node, scope, attribute, offset)
            } else {
                Seq::empty()
            }
    }

    /// What a text refers to: the model it names, in a `<field name="model">` of a record.
    pub open spec fn text_refs(self, node: NodeView, scope: ScopeView, offset: Option<usize>) -> Seq<
        RefView,
    > {
        if at_offset(node.start, node.end, offset) && scope.record_model.known() is Some && (
        scope.field_name == Some("model"@) || scope.field_name == Some("res_model"@)) {
            self.model_ref(node.text->0, node.start, node.end)
        } else {
            Seq::empty()
        }
    }

    /// What a node refers to, its content aside, in source order. A node past the cursor is left
    /// out.
    pub open spec fn node_refs(
        self,
        text: Seq<char>,
        node: NodeView,
        scope: ScopeView,
        offset: Option<usize>,
    ) -> Seq<RefView> {
        if offset matches Some(offset) && node.start > offset {
            Seq::empty()
        } else if node.kind == XmlNodeKind::Element {
            concat_map(node.attributes, self.attribute_part(text, node, scope, offset))
        } else if node.kind == XmlNodeKind::Text {
            self.text_refs(node, scope, offset)
        } else {
            Seq::empty()
        }
    }

    /// The scope that a node below `top` stands in, `None` for other nodes: `handed` for a child of
    /// `top`, else what its parent hands down.
    pub open spec fn scope_below(
        self,
        doc: DocumentView,
        top: int,
        handed: ScopeView,
        node: int,
    ) -> Option<ScopeView>
        decreases node,
    {
        if !(0 <= top < node < doc.nodes.len()) {
            None
        } else {
            match doc.nodes[node].parent {
                Some(parent) => if parent == top {
                    Some(handed)
                } else if parent < node {
                    match self.scope_below(doc, top, handed, parent as int) {
                        Some(scope) => Some(self.child_scope(doc, parent as int, scope)),
                        None => None,
                    }
                } else {
                    None
                },
                None => None,
            }
        }
    }

    /// What the node at an index below `top` refers to.
    pub open spec fn refs_at(
        self,
        doc: DocumentView,
        top: int,
        handed: ScopeView,
        node: int,
        offset: Option<usize>,
    ) -> Seq<RefView> {
        match self.scope_below(doc, top, handed, node) {
            Some(scope) => self.node_refs(doc.text, doc.nodes[node], scope, offset),
            None => Seq::empty(),
        }
    }

    /// What the nodes below `top` and before the index `count` refer to, in source order.
    pub open spec fn refs_before(
        self,
        doc: DocumentView,
        top: int,
        handed: ScopeView,
        count: int,
        offset: Option<usize>,
    ) -> Seq<RefView>
        decreases count,
    {
        if count <= 0 {
            Seq::empty()
        } else {
            self.refs_before(doc, top, handed, count - 1, offset) + self.refs_at(
                doc,
                top,
                handed,
                count - 1,
                offset,
            )
        }
    }

    /// What the nodes below `top` refer to, in source order.
    pub open spec fn refs_below(
        self,
        doc: DocumentView,
        top: int,
        handed: ScopeView,
        offset: Option<usize>,
    ) -> Seq<RefView> {
        self.refs_before(doc, top, handed, doc.nodes.len() as int, offset)
    }

    /// What a node in `scope` refers to, and then its content, in source order.
    pub open spec fn tree_refs(
        self,
        doc: DocumentView,
        node: int,
        scope: ScopeView,
        offset: Option<usize>,
    ) -> Seq<RefView> {
        let own = self.node_refs(doc.text, doc.nodes[node], scope, offset);
        if doc.nodes[node].kind == XmlNodeKind::Element {
            own + self.refs_below(doc, node, self.child_scope(doc, node, scope), offset)
        } else {
            own
        }
    }

    /// The scope that a node below `root` stands in when `root` hands that of the top down.
    pub open spec fn scope_of(self, doc: DocumentView, root: int, node: int) -> Option<ScopeView> {
        self.scope_below(doc, root, ScopeView::top(), node)
    }

    /// What the nodes below `root` refer to in source order, `root` handing the scope of the top
    /// down.
    pub open spec fn document_refs(
        self,
        doc: DocumentView,
        root: int,
        offset: Option<usize>,
    ) -> Seq<RefView> {
        self.refs_below(doc, root, ScopeView::top(), offset)
    }
}

impl Resolver {
    /// The scope that a node hands down to its content, `top` handing down `handed`.
    spec fn content_of(
        self,
        doc: DocumentView,
        top: int,
        handed: ScopeView,
        node: int,
    ) -> Option<ScopeView> {
        if node == top {
            Some(handed)
        } else {
            match self.scope_below(doc, top, handed, node) {
                Some(scope) => Some(self.child_scope(doc, node, scope)),
                None => None,
            }
        }
    }

    /// Nodes that start past the cursor add nothing.
    proof fn lemma_nothing_past(
        self,
        doc: DocumentView,
        top: int,
        handed: ScopeView,
        from: int,
        count: int,
        offset: usize,
    )
        requires
            0 <= from <= count,
            forall|j: int| from <= j < count ==> (#[trigger] doc.nodes[j]).start > offset,
        ensures
            self.refs_before(doc, top, handed, count, Some(offset)) == self.refs_before(
                doc,
                top,
                handed,
                from,
                Some(offset),
            ),
        decreases count - from,
    {
        if from < count {
            self.lemma_nothing_past(doc, top, handed, from, count - 1, offset);
            assert(doc.nodes[count - 1].start > offset);
            assert(self.refs_at(doc, top, handed, count - 1, Some(offset)) =~= Seq::empty());
        }
    }

    /// Nodes up to the top add nothing.
    pub proof fn lemma_nothing_up_to_top(
        self,
        doc: DocumentView,
        top: int,
        handed: ScopeView,
        count: int,
        offset: Option<usize>,
    )
        requires
            count <= top + 1,
        ensures
            self.refs_before(doc, top, handed, count, offset) == Seq::<RefView>::empty(),
        decreases count,
    {
        if count > 0 {
            self.lemma_nothing_up_to_top(doc, top, handed, count - 1, offset);
            assert(self.refs_before(doc, top, handed, count, offset) =~= Seq::empty());
        }
    }
}

/// Value of an optional [`XmlScope`].
pub open spec fn opt_scope_view(scope: Option<XmlScope>) -> Option<ScopeView> {
    match scope {
        Some(scope) => Some(scope@),
        None => None,
    }
}

/// Symbols of a location.
pub open spec fn ref_symbols() -> spec_fn(RefView) -> Seq<SymbolKey> {
    |xml_ref: RefView| xml_ref.symbols
}

/// Symbols of all locations, in order.
pub open spec fn symbols_of(refs: Seq<RefView>) -> Seq<SymbolKey> {
    concat_map(refs, ref_symbols())
}

/// Walks XML documents for the locations that resolve to symbols.
pub struct XmlAstUtils {}

/// Adding a location adds its value.
proof fn lemma_refs_push(refs: Seq<XmlRef>, xml_ref: XmlRef)
    ensures
        refs_view(refs.push(xml_ref)) == refs_view(refs).push(xml_ref@),
{
    assert(refs_view(refs.push(xml_ref)) =~= refs_view(refs).push(xml_ref@));
}

impl XmlAstUtils {
    /// Whether `range` is under the cursor, `None` taking every range.
    pub fn is_at_offset(range: &Range<usize>, offset: Option<usize>) -> (res: bool)
        ensures
            res == at_offset(range.start, range.end, offset),
    {
        match offset {
            Some(offset) => range.start <= offset && offset <= range.end,
            None => true,
        }
    }

    /// Each `%(xml_id)d|s|i` format-string reference in the value of `attr`: the inner xml id and
    /// its absolute byte range, which excludes the `%(` and `)X` around it. Used for
    /// `<button name="%(...)d">` style action refs.
    ///
    /// Scans `doc_text` (the raw source) rather than the entity-decoded value, so offsets stay
    /// aligned with the source even when the attribute contains an entity like `&amp;`.
    pub fn for_each_format_xml_id_ref(attr: &XmlAttribute, doc_text: &str) -> (res: Vec<
        (String, Range<usize>),
    >)
        requires
            attr.start <= attr.end <= utf8(doc_text@).len(),
        ensures
            hits_view(res@) == format_hits(doc_text@, attr@),
    {
        let bytes = doc_text.as_bytes();
        let spans = find_format_spans(bytes, attr.start, attr.end);
        proof {
            format_spans_fit(doc_text@, attr.start as int, attr.end as int);
        }
        let ghost all = format_hits(doc_text@, attr@);
        let mut hits: Vec<(String, Range<usize>)> = Vec::new();
        let mut i: usize = 0;
        while i < spans.len()
            invariant
                i <= spans.len(),
                spans@ == format_spans(utf8(doc_text@), attr.start as int, attr.end as int),
                all == format_hits(doc_text@, attr@),
                spans_fit(doc_text@, spans@),
                hits_view(hits@) == all.take(i as int),
            decreases spans.len() - i,
        {
            let span = spans[i];
            let hit = (
                slice(doc_text, span.start, span.end).to_string(),
                span.start..span.end,
            );
            let ghost before = hits@;
            hits.push(hit);
            assert(hits_view(hits@) =~= hits_view(before).push((hit.0@, span.start, span.end)));
            assert(all.take(i + 1) =~= all.take(i as int).push(all[i as int]));
            i = i + 1;
        }
        assert(all.take(spans.len() as int) =~= all);
        hits
    }

    /// Adds the reference to the model that `name` names, when there is one.
    fn emit_model(
        session: &SessionInfo,
        name: &str,
        range: Range<usize>,
        from_module: Option<ModuleKey>,
        out: &mut Vec<XmlRef>,
        on_dep_only: bool,
    )
        ensures
            refs_view(final(out)@) == refs_view(old(out)@) + (Resolver {
                session: *session,
                from_module,
                on_dep_only,
            }).model_ref(name@, range.start, range.end),
    {
        match XmlAstUtils::model_symbols(session, name, from_module, on_dep_only) {
            Some(symbols) => {
                let xml_ref = XmlRef { kind: XmlRefKind::Model, range, symbols };
                proof {
                    lemma_refs_push(out@, xml_ref);
                }
                out.push(xml_ref);
            },
            None => {},
        }
    }

    /// Adds the reference to a member of the model in scope, when it has such a member.
    fn emit_member(
        session: &SessionInfo,
        name: &str,
        range: Range<usize>,
        from_module: Option<ModuleKey>,
        scope: &XmlScope,
        out: &mut Vec<XmlRef>,
        on_dep_only: bool,
    )
        ensures
            refs_view(final(out)@) == refs_view(old(out)@) + (Resolver {
                session: *session,
                from_module,
                on_dep_only,
            }).member_ref(scope@, name@, range.start, range.end),
    {
        if let Some(model_name) = scope.record_model.known() {
            let symbols = XmlAstUtils::resolve_member_on_model(
                session,
                model_name,
                name,
                from_module,
                on_dep_only,
            );
            if symbols.len() > 0 {
                let xml_ref = XmlRef { kind: XmlRefKind::Member, range, symbols };
                proof {
                    lemma_refs_push(out@, xml_ref);
                }
                out.push(xml_ref);
            }
        }
    }

    /// Adds the reference to an xml id.
    fn emit_xml_id(
        session: &SessionInfo,
        kind: XmlRefKind,
        xml_id: &str,
        from_module: Option<ModuleKey>,
        range: Range<usize>,
        out: &mut Vec<XmlRef>,
        on_dep_only: bool,
    )
        ensures
            refs_view(final(out)@) == refs_view(old(out)@) + (Resolver {
                session: *session,
                from_module,
                on_dep_only,
            }).xml_id_ref(kind, xml_id@, range.start, range.end),
    {
        if let Some(file_module) = from_module {
            let symbols = XmlAstUtils::xml_id_symbols(session, xml_id, file_module, on_dep_only);
            let xml_ref = XmlRef { kind, range, symbols };
            proof {
                lemma_refs_push(out@, xml_ref);
            }
            out.push(xml_ref);
        }
    }

    /// Adds the references to the xml ids that spans of the text are, those under the cursor.
    fn emit_spans(
        session: &SessionInfo,
        text: &str,
        spans: &Vec<ByteSpan>,
        offset: Option<usize>,
        from_module: Option<ModuleKey>,
        out: &mut Vec<XmlRef>,
        on_dep_only: bool,
    )
        requires
            spans_fit(text@, spans@),
        ensures
            refs_view(final(out)@) == refs_view(old(out)@) + (Resolver {
                session: *session,
                from_module,
                on_dep_only,
            }).span_list_refs(text@, spans@, offset),
    {
        let ghost resolver = Resolver { session: *session, from_module, on_dep_only };
        let ghost part = resolver.span_refs(text@, offset);
        let ghost before = refs_view(out@);
        let mut i: usize = 0;
        assert(refs_view(out@) =~= before + concat_map(spans@.take(0), part));
        while i < spans.len()
            invariant
                i <= spans.len(),
                resolver == (Resolver { session: *session, from_module, on_dep_only }),
                part == resolver.span_refs(text@, offset),
                refs_view(out@) == before + concat_map(spans@.take(i as int), part),
                spans_fit(text@, spans@),
            decreases spans.len() - i,
        {
            proof {
                lemma_concat_map_step(spans@, part, i as int);
            }
            let span = spans[i];
            let ghost done = refs_view(out@);
            if XmlAstUtils::is_at_offset(&(span.start..span.end), offset) {
                XmlAstUtils::emit_xml_id(
                    session,
                    XmlRefKind::XmlId,
                    slice(text, span.start, span.end),
                    from_module,
                    span.start..span.end,
                    out,
                    on_dep_only,
                );
            }
            assert(refs_view(out@) =~= done + part(span));
            assert(refs_view(out@) =~= before + concat_map(spans@.take(i + 1), part));
            i = i + 1;
        }
        assert(spans@.take(spans@.len() as int) =~= spans@);
    }

    /// The xml ids inside of the value of an attribute.
    fn find_value_spans(text: &str, attr: &XmlAttribute) -> (res: Vec<ByteSpan>)
        requires
            attr.start <= attr.end <= utf8(text@).len(),
        ensures
            res@ == value_spans(text@, attr@),
            spans_fit(text@, res@),
    {
        let bytes = text.as_bytes();
        let formats = find_format_spans(bytes, attr.start, attr.end);
        let mut groups: Vec<ByteSpan> = Vec::new();
        if str_eq(attr.name.as_str(), "groups") && text.is_char_boundary(attr.start)
            && text.is_char_boundary(attr.end) {
            groups = find_group_spans(bytes, attr.start, attr.end);
            proof {
                group_spans_fit(text@, attr.start as int, attr.end as int);
            }
        }
        assert(groups@ =~= value_groups(text@, attr@));
        let res = merge_spans(&groups, &formats);
        proof {
            format_spans_fit(text@, attr.start as int, attr.end as int);
            lemma_merged_from(groups@, formats@);
            assert forall|k: int| 0 <= k < res@.len() implies {
                let span = #[trigger] res@[k];
                &&& span.start <= span.end
                &&& boundary(text@, span.start as int)
                &&& boundary(text@, span.end as int)
            } by {
                assert(groups@.contains(res@[k]) || formats@.contains(res@[k]));
            }
        }
        res
    }

    /// Adds the xml ids inside of the value of an attribute, those under the cursor: groups and
    /// format references.
    fn scan_format_xml_id_refs(
        session: &SessionInfo,
        text: &str,
        attr: &XmlAttribute,
        offset: Option<usize>,
        from_module: Option<ModuleKey>,
        out: &mut Vec<XmlRef>,
        on_dep_only: bool,
    )
        requires
            attr.start <= attr.end <= utf8(text@).len(),
        ensures
            refs_view(final(out)@) == refs_view(old(out)@) + (Resolver {
                session: *session,
                from_module,
                on_dep_only,
            }).span_list_refs(text@, value_spans(text@, attr@), offset),
    {
        let spans = XmlAstUtils::find_value_spans(text, attr);
        XmlAstUtils::emit_spans(session, text, &spans, offset, from_module, out, on_dep_only);
    }

    /// Adds what an attribute of a `<record>` refers to.
    fn emit_record(
        session: &SessionInfo,
        attr: &XmlAttribute,
        from_module: Option<ModuleKey>,
        out: &mut Vec<XmlRef>,
        on_dep_only: bool,
    )
        ensures
            refs_view(final(out)@) == refs_view(old(out)@) + (Resolver {
                session: *session,
                from_module,
                on_dep_only,
            }).record_refs(attr@),
    {
        if str_eq(attr.name.as_str(), "model") {
            XmlAstUtils::emit_model(
                session,
                attr.value.as_str(),
                attr.start..attr.end,
                from_module,
                out,
                on_dep_only,
            );
        } else if str_eq(attr.name.as_str(), "id") {
            XmlAstUtils::emit_xml_id(
                session,
                XmlRefKind::XmlIdDeclaration,
                attr.value.as_str(),
                from_module,
                attr.start..attr.end,
                out,
                on_dep_only,
            );
        }
    }

    /// Adds what an attribute of a `<field>` or a `<groupby>` refers to.
    fn emit_field(
        session: &SessionInfo,
        attr: &XmlAttribute,
        from_module: Option<ModuleKey>,
        scope: &XmlScope,
        out: &mut Vec<XmlRef>,
        on_dep_only: bool,
    )
        ensures
            refs_view(final(out)@) == refs_view(old(out)@) + (Resolver {
                session: *session,
                from_module,
                on_dep_only,
            }).field_refs(scope@, attr@),
    {
        if str_eq(attr.name.as_str(), "name") {
            XmlAstUtils::emit_member(
                session,
                attr.value.as_str(),
                attr.start..attr.end,
                from_module,
                scope,
                out,
                on_dep_only,
            );
        } else if str_eq(attr.name.as_str(), "ref") {
            XmlAstUtils::emit_xml_id(
                session,
                XmlRefKind::XmlId,
                attr.value.as_str(),
                from_module,
                attr.start..attr.end,
                out,
                on_dep_only,
            );
        }
    }

    /// Adds what an attribute of a `<menuitem>` refers to.
    fn emit_menu_item(
        session: &SessionInfo,
        attr: &XmlAttribute,
        from_module: Option<ModuleKey>,
        out: &mut Vec<XmlRef>,
        on_dep_only: bool,
    )
        ensures
            refs_view(final(out)@) == refs_view(old(out)@) + (Resolver {
                session: *session,
                from_module,
                on_dep_only,
            }).declaration_refs(set!["action"@, "parent"@], attr@),
    {
        if str_eq(attr.name.as_str(), "action") || str_eq(attr.name.as_str(), "parent") {
            XmlAstUtils::emit_xml_id(
                session,
                XmlRefKind::XmlId,
                attr.value.as_str(),
                from_module,
                attr.start..attr.end,
                out,
                on_dep_only,
            );
        } else if str_eq(attr.name.as_str(), "id") {
            XmlAstUtils::emit_xml_id(
                session,
                XmlRefKind::XmlIdDeclaration,
                attr.value.as_str(),
                from_module,
                attr.start..attr.end,
                out,
                on_dep_only,
            );
        }
    }

    /// Adds what an attribute of a `<template>` refers to.
    fn emit_template(
        session: &SessionInfo,
        attr: &XmlAttribute,
        from_module: Option<ModuleKey>,
        out: &mut Vec<XmlRef>,
        on_dep_only: bool,
    )
        ensures
            refs_view(final(out)@) == refs_view(old(out)@) + (Resolver {
                session: *session,
                from_module,
                on_dep_only,
            }).declaration_refs(set!["inherit_id"@], attr@),
    {
        if str_eq(attr.name.as_str(), "inherit_id") {
            XmlAstUtils::emit_xml_id(
                session,
                XmlRefKind::XmlId,
                attr.value.as_str(),
                from_module,
                attr.start..attr.end,
                out,
                on_dep_only,
            );
        } else if str_eq(attr.name.as_str(), "id") {
            XmlAstUtils::emit_xml_id(
                session,
                XmlRefKind::XmlIdDeclaration,
                attr.value.as_str(),
                from_module,
                attr.start..attr.end,
                out,
                on_dep_only,
            );
        }
    }

    /// Adds what an attribute of a `<button>` refers to.
    fn emit_button(
        session: &SessionInfo,
        node: &XmlNode,
        attr: &XmlAttribute,
        from_module: Option<ModuleKey>,
        scope: &XmlScope,
        out: &mut Vec<XmlRef>,
        on_dep_only: bool,
    )
        ensures
            refs_view(final(out)@) == refs_view(old(out)@) + (Resolver {
                session: *session,
                from_module,
                on_dep_only,
            }).button_refs(node@, scope@, attr@),
    {
        // An implicit `type` is `object` in views, only `type="action"` names an xml id.
        let is_action_type = match node.attribute("type") {
            Some(button_type) => str_eq(button_type, "action"),
            None => false,
        };
        if str_eq(attr.name.as_str(), "name") && !is_action_type {
            XmlAstUtils::emit_member(
                session,
                attr.value.as_str(),
                attr.start..attr.end,
                from_module,
                scope,
                out,
                on_dep_only,
            );
        }
    }

    /// Adds what the value of an attribute as a whole refers to.
    fn visit_value(
        session: &SessionInfo,
        node: &XmlNode,
        attr: &XmlAttribute,
        from_module: Option<ModuleKey>,
        scope: &XmlScope,
        out: &mut Vec<XmlRef>,
        on_dep_only: bool,
    )
        ensures
            refs_view(final(out)@) == refs_view(old(out)@) + (Resolver {
                session: *session,
                from_module,
                on_dep_only,
            }).value_refs(node@, scope@, attr@),
    {
        let name = attr.name.as_str();
        let tag = node.tag.as_str();
        if str_eq(name, "groups") {
            // A list, each group of which is a location of its own.
        } else if str_eq(name, "t-call") {
            XmlAstUtils::emit_xml_id(
                session,
                XmlRefKind::XmlId,
                attr.value.as_str(),
                from_module,
                attr.start..attr.end,
                out,
                on_dep_only,
            );
        } else if str_eq(tag, "record") {
            XmlAstUtils::emit_record(session, attr, from_module, out, on_dep_only);
        } else if str_eq(tag, "field") || str_eq(tag, "groupby") {
            XmlAstUtils::emit_field(session, attr, from_module, scope, out, on_dep_only);
        } else if str_eq(tag, "menuitem") {
            XmlAstUtils::emit_menu_item(session, attr, from_module, out, on_dep_only);
        } else if str_eq(tag, "template") {
            XmlAstUtils::emit_template(session, attr, from_module, out, on_dep_only);
        } else if str_eq(tag, "button") {
            XmlAstUtils::emit_button(session, node, attr, from_module, scope, out, on_dep_only);
        }
    }

    /// Adds the model that a text names, in a `<field name="model">` of a record.
    fn visit_text(
        session: &SessionInfo,
        node: &XmlNode,
        offset: Option<usize>,
        from_module: Option<ModuleKey>,
        scope: &XmlScope,
        out: &mut Vec<XmlRef>,
        on_dep_only: bool,
    )
        requires
            node.text is Some,
        ensures
            refs_view(final(out)@) == refs_view(old(out)@) + (Resolver {
                session: *session,
                from_module,
                on_dep_only,
            }).text_refs(node@, scope@, offset),
    {
        if XmlAstUtils::is_at_offset(&(node.start..node.end), offset) {
            if let (Some(_), Some(field), Some(text)) = (
                scope.record_model.known(),
                scope.field_name,
                &node.text,
            ) {
                // The model is not checked: such a text is taken to name one.
                if str_eq(field, "model") || str_eq(field, "res_model") {
                    XmlAstUtils::emit_model(
                        session,
                        text.as_str(),
                        node.start..node.end,
                        from_module,
                        out,
                        on_dep_only,
                    );
                }
            }
        }
    }

    /// Adds what the attributes of an element refer to, those under the cursor.
    fn visit_attributes(
        session: &SessionInfo,
        text: &str,
        node: &XmlNode,
        offset: Option<usize>,
        from_module: Option<ModuleKey>,
        scope: &XmlScope,
        out: &mut Vec<XmlRef>,
        on_dep_only: bool,
    )
        requires
            node@.ranges_wf(utf8(text@).len()),
        ensures
            refs_view(final(out)@) == refs_view(old(out)@) + concat_map(
                node@.attributes,
                (Resolver { session: *session, from_module, on_dep_only }).attribute_part(
                    text@,
                    node@,
                    scope@,
                    offset,
                ),
            ),
    {
        let ghost resolver = Resolver { session: *session, from_module, on_dep_only };
        let ghost part = resolver.attribute_part(text@, node@, scope@, offset);
        let ghost attributes = node@.attributes;
        let ghost before = refs_view(out@);
        let mut k: usize = 0;
        assert(refs_view(out@) =~= before + concat_map(attributes.take(0), part));
        while k < node.attributes.len()
            invariant
                k <= node.attributes.len(),
                attributes == node@.attributes,
                node@.ranges_wf(utf8(text@).len()),
                resolver == (Resolver { session: *session, from_module, on_dep_only }),
                part == resolver.attribute_part(text@, node@, scope@, offset),
                refs_view(out@) == before + concat_map(attributes.take(k as int), part),
            decreases node.attributes.len() - k,
        {
            let attr = &node.attributes[k];
            assert(attributes[k as int] == attr@);
            proof {
                lemma_concat_map_step(attributes, part, k as int);
            }
            let ghost done = refs_view(out@);
            if XmlAstUtils::is_at_offset(&(attr.start..attr.end), offset) {
                XmlAstUtils::visit_value(
                    session,
                    node,
                    attr,
                    from_module,
                    scope,
                    out,
                    on_dep_only,
                );
                XmlAstUtils::scan_format_xml_id_refs(
                    session,
                    text,
                    attr,
                    offset,
                    from_module,
                    out,
                    on_dep_only,
                );
            }
            assert(refs_view(out@) =~= done + part(attr@));
            assert(refs_view(out@) =~= before + concat_map(attributes.take(k + 1), part));
            k = k + 1;
        }
        assert(attributes.take(attributes.len() as int) =~= attributes);
    }

    /// Adds what a node refers to, its content aside.
    fn emit_node(
        session: &SessionInfo,
        text: &str,
        node: &XmlNode,
        offset: Option<usize>,
        from_module: Option<ModuleKey>,
        scope: &XmlScope,
        out: &mut Vec<XmlRef>,
        on_dep_only: bool,
    )
        requires
            node@.ranges_wf(utf8(text@).len()),
            node.kind == XmlNodeKind::Text ==> node.text is Some,
        ensures
            refs_view(final(out)@) == refs_view(old(out)@) + (Resolver {
                session: *session,
                from_module,
                on_dep_only,
            }).node_refs(text@, node@, scope@, offset),
    {
        if let Some(offset) = offset {
            if node.start > offset {
                return;
            }
        }
        if node.kind == XmlNodeKind::Element {
            XmlAstUtils::visit_attributes(
                session,
                text,
                node,
                offset,
                from_module,
                scope,
                out,
                on_dep_only,
            );
        } else if node.kind == XmlNodeKind::Text {
            XmlAstUtils::visit_text(session, node, offset, from_module, scope, out, on_dep_only);
        }
    }

    /// Adds what the content of `top` refers to in source order, its children standing in `handed`.
    fn visit_children<'a>(
        session: &SessionInfo,
        document: &'a XmlDocument,
        top: usize,
        offset: Option<usize>,
        from_module: Option<ModuleKey>,
        handed: &XmlScope<'a>,
        out: &mut Vec<XmlRef>,
        on_dep_only: bool,
    )
        requires
            document@.wf(),
            top < document.nodes.len(),
        ensures
            refs_view(final(out)@) == refs_view(old(out)@) + (Resolver {
                session: *session,
                from_module,
                on_dep_only,
            }).refs_below(document@, top as int, handed@, offset),
    {
        let ghost doc = document@;
        let ghost resolver = Resolver { session: *session, from_module, on_dep_only };
        let ghost before = refs_view(out@);
        let text = document.text.as_str();
        // Scope that each node from `top` on hands down to its content.
        let mut content: Vec<Option<XmlScope<'a>>> = Vec::new();
        content.push(Some(handed.clone()));
        let mut i: usize = top + 1;
        proof {
            resolver.lemma_nothing_up_to_top(doc, top as int, handed@, i as int, offset);
            assert(refs_view(out@) =~= before + resolver.refs_before(
                doc,
                top as int,
                handed@,
                i as int,
                offset,
            ));
        }
        while i < document.nodes.len()
            invariant
                doc == document@,
                doc.wf(),
                resolver == (Resolver { session: *session, from_module, on_dep_only }),
                text@ == doc.text,
                top < i <= document.nodes.len(),
                before == refs_view(old(out)@),
                content.len() == i - top,
                forall|j: int|
                    0 <= j < i - top ==> opt_scope_view(#[trigger] content@[j])
                        == resolver.content_of(doc, top as int, handed@, top + j),
                refs_view(out@) == before + resolver.refs_before(
                    doc,
                    top as int,
                    handed@,
                    i as int,
                    offset,
                ),
            decreases document.nodes.len() - i,
        {
            let node = &document.nodes[i];
            assert(doc.nodes[i as int] == node@);
            assert(doc.node_wf(i as int));
            if let Some(cursor) = offset {
                if node.start > cursor {
                    proof {
                        assert forall|j: int| i <= j < doc.nodes.len() implies (
                        #[trigger] doc.nodes[j]).start > cursor by {
                            assert(doc.in_order(i as int, j));
                        }
                        resolver.lemma_nothing_past(
                            doc,
                            top as int,
                            handed@,
                            i as int,
                            doc.nodes.len() as int,
                            cursor,
                        );
                    }
                    return ;
                }
            }
            let mut scope: Option<XmlScope<'a>> = None;
            if let Some(parent) = node.parent {
                if parent >= top {
                    let place = parent - top;
                    assert(opt_scope_view(content@[place as int]) == resolver.content_of(
                        doc,
                        top as int,
                        handed@,
                        parent as int,
                    ));
                    scope =
                    match &content[place] {
                        Some(inherited) => Some(inherited.clone()),
                        None => None,
                    };
                }
            }
            assert(opt_scope_view(scope) == resolver.scope_below(
                doc,
                top as int,
                handed@,
                i as int,
            ));
            let handed_down = match &scope {
                Some(scope) => {
                    XmlAstUtils::emit_node(
                        session,
                        text,
                        node,
                        offset,
                        from_module,
                        scope,
                        out,
                        on_dep_only,
                    );
                    Some(
                        XmlAstUtils::content_scope(
                            session,
                            document,
                            i,
                            scope,
                            from_module,
                            on_dep_only,
                        ),
                    )
                },
                None => None,
            };
            assert(refs_view(out@) =~= before + resolver.refs_before(
                doc,
                top as int,
                handed@,
                i + 1,
                offset,
            ));
            content.push(handed_down);
            i = i + 1;
        }
    }

    /// Adds what an element in `scope` refers to, and then its content.
    fn visit_element<'a>(
        session: &SessionInfo,
        document: &'a XmlDocument,
        node: usize,
        offset: Option<usize>,
        from_module: Option<ModuleKey>,
        scope: &XmlScope<'a>,
        out: &mut Vec<XmlRef>,
        on_dep_only: bool,
    )
        requires
            document@.wf(),
            node < document.nodes.len(),
            document@.nodes[node as int].kind == XmlNodeKind::Element,
        ensures
            refs_view(final(out)@) == refs_view(old(out)@) + (Resolver {
                session: *session,
                from_module,
                on_dep_only,
            }).tree_refs(document@, node as int, scope@, offset),
    {
        assert(document@.nodes[node as int] == document.nodes[node as int]@);
        assert(document@.node_wf(node as int));
        XmlAstUtils::emit_node(
            session,
            document.text.as_str(),
            &document.nodes[node],
            offset,
            from_module,
            scope,
            out,
            on_dep_only,
        );
        let handed = XmlAstUtils::content_scope(
            session,
            document,
            node,
            scope,
            from_module,
            on_dep_only,
        );
        XmlAstUtils::visit_children(
            session,
            document,
            node,
            offset,
            from_module,
            &handed,
            out,
            on_dep_only,
        );
    }

    /// Adds what a `<record>` in `scope` refers to, and then its content, which resolves against the
    /// model of the record.
    pub fn visit_record<'a>(
        session: &SessionInfo,
        document: &'a XmlDocument,
        node: usize,
        offset: Option<usize>,
        from_module: Option<ModuleKey>,
        scope: &XmlScope<'a>,
        out: &mut Vec<XmlRef>,
        on_dep_only: bool,
    )
        requires
            document@.wf(),
            node < document.nodes.len(),
            document@.nodes[node as int].kind == XmlNodeKind::Element,
            document@.nodes[node as int].tag == "record"@,
        ensures
            refs_view(final(out)@) == refs_view(old(out)@) + (Resolver {
                session: *session,
                from_module,
                on_dep_only,
            }).tree_refs(document@, node as int, scope@, offset),
    {
        XmlAstUtils::visit_element(
            session,
            document,
            node,
            offset,
            from_module,
            scope,
            out,
            on_dep_only,
        );
    }

    /// Adds what a `<field>` or a `<groupby>` in `scope` refers to, and then its content.
    pub fn visit_field<'a>(
        session: &SessionInfo,
        document: &'a XmlDocument,
        node: usize,
        offset: Option<usize>,
        from_module: Option<ModuleKey>,
        scope: &XmlScope<'a>,
        out: &mut Vec<XmlRef>,
        on_dep_only: bool,
    )
        requires
            document@.wf(),
            node < document.nodes.len(),
            document@.nodes[node as int].kind == XmlNodeKind::Element,
            document@.nodes[node as int].tag == "field"@
                || document@.nodes[node as int].tag == "groupby"@,
        ensures
            refs_view(final(out)@) == refs_view(old(out)@) + (Resolver {
                session: *session,
                from_module,
                on_dep_only,
            }).tree_refs(document@, node as int, scope@, offset),
    {
        XmlAstUtils::visit_element(
            session,
            document,
            node,
            offset,
            from_module,
            scope,
            out,
            on_dep_only,
        );
    }

    /// Adds what a `<menuitem>` in `scope` refers to, and then its content.
    pub fn visit_menu_item<'a>(
        session: &SessionInfo,
        document: &'a XmlDocument,
        node: usize,
        offset: Option<usize>,
        from_module: Option<ModuleKey>,
        scope: &XmlScope<'a>,
        out: &mut Vec<XmlRef>,
        on_dep_only: bool,
    )
        requires
            document@.wf(),
            node < document.nodes.len(),
            document@.nodes[node as int].kind == XmlNodeKind::Element,
            document@.nodes[node as int].tag == "menuitem"@,
        ensures
            refs_view(final(out)@) == refs_view(old(out)@) + (Resolver {
                session: *session,
                from_module,
                on_dep_only,
            }).tree_refs(document@, node as int, scope@, offset),
    {
        XmlAstUtils::visit_element(
            session,
            document,
            node,
            offset,
            from_module,
            scope,
            out,
            on_dep_only,
        );
    }

    /// Adds what a `<template>` in `scope` refers to, and then its content.
    pub fn visit_template<'a>(
        session: &SessionInfo,
        document: &'a XmlDocument,
        node: usize,
        offset: Option<usize>,
        from_module: Option<ModuleKey>,
        scope: &XmlScope<'a>,
        out: &mut Vec<XmlRef>,
        on_dep_only: bool,
    )
        requires
            document@.wf(),
            node < document.nodes.len(),
            document@.nodes[node as int].kind == XmlNodeKind::Element,
            document@.nodes[node as int].tag == "template"@,
        ensures
            refs_view(final(out)@) == refs_view(old(out)@) + (Resolver {
                session: *session,
                from_module,
                on_dep_only,
            }).tree_refs(document@, node as int, scope@, offset),
    {
        XmlAstUtils::visit_element(
            session,
            document,
            node,
            offset,
            from_module,
            scope,
            out,
            on_dep_only,
        );
    }

    /// Adds what a `<button>` in `scope` refers to, and then its content.
    pub fn visit_button<'a>(
        session: &SessionInfo,
        document: &'a XmlDocument,
        node: usize,
        offset: Option<usize>,
        from_module: Option<ModuleKey>,
        scope: &XmlScope<'a>,
        out: &mut Vec<XmlRef>,
        on_dep_only: bool,
    )
        requires
            document@.wf(),
            node < document.nodes.len(),
            document@.nodes[node as int].kind == XmlNodeKind::Element,
            document@.nodes[node as int].tag == "button"@,
        ensures
            refs_view(final(out)@) == refs_view(old(out)@) + (Resolver {
                session: *session,
                from_module,
                on_dep_only,
            }).tree_refs(document@, node as int, scope@, offset),
    {
        XmlAstUtils::visit_element(
            session,
            document,
            node,
            offset,
            from_module,
            scope,
            out,
            on_dep_only,
        );
    }

    /// Adds what a node in `scope` refers to, and then its content, in source order.
    pub fn visit_node<'a>(
        session: &SessionInfo,
        document: &'a XmlDocument,
        node: usize,
        offset: Option<usize>,
        from_module: Option<ModuleKey>,
        scope: &XmlScope<'a>,
        out: &mut Vec<XmlRef>,
        on_dep_only: bool,
    )
        requires
            document@.wf(),
            node < document.nodes.len(),
        ensures
            refs_view(final(out)@) == refs_view(old(out)@) + (Resolver {
                session: *session,
                from_module,
                on_dep_only,
            }).tree_refs(document@, node as int, scope@, offset),
    {
        assert(document@.nodes[node as int] == document.nodes[node as int]@);
        assert(document@.node_wf(node as int));
        if document.nodes[node].kind != XmlNodeKind::Element {
            XmlAstUtils::emit_node(
                session,
                document.text.as_str(),
                &document.nodes[node],
                offset,
                from_module,
                scope,
                out,
                on_dep_only,
            );
            return ;
        }
        let tag = document.nodes[node].tag.as_str();
        if str_eq(tag, "record") {
            XmlAstUtils::visit_record(
                session,
                document,
                node,
                offset,
                from_module,
                scope,
                out,
                on_dep_only,
            );
        } else if str_eq(tag, "field") || str_eq(tag, "groupby") {
            XmlAstUtils::visit_field(
                session,
                document,
                node,
                offset,
                from_module,
                scope,
                out,
                on_dep_only,
            );
        } else if str_eq(tag, "menuitem") {
            XmlAstUtils::visit_menu_item(
                session,
                document,
                node,
                offset,
                from_module,
                scope,
                out,
                on_dep_only,
            );
        } else if str_eq(tag, "template") {
            XmlAstUtils::visit_template(
                session,
                document,
                node,
                offset,
                from_module,
                scope,
                out,
                on_dep_only,
            );
        } else if str_eq(tag, "button") {
            XmlAstUtils::visit_button(
                session,
                document,
                node,
                offset,
                from_module,
                scope,
                out,
                on_dep_only,
            );
        } else {
            XmlAstUtils::visit_element(
                session,
                document,
                node,
                offset,
                from_module,
                scope,
                out,
                on_dep_only,
            );
        }
    }

    /// What the nodes below `root` refer to in source order, with a cursor what is under it.
    fn visit_document(
        session: &SessionInfo,
        from_module: Option<ModuleKey>,
        document: &XmlDocument,
        root: usize,
        offset: Option<usize>,
        on_dep_only: bool,
    ) -> (res: Vec<XmlRef>)
        requires
            document@.wf(),
            root < document.nodes.len(),
        ensures
            refs_view(res@) == (Resolver { session: *session, from_module, on_dep_only }).document_refs(
                document@,
                root as int,
                offset,
            ),
    {
        let mut out: Vec<XmlRef> = Vec::new();
        let handed = XmlScope::default();
        XmlAstUtils::visit_children(
            session,
            document,
            root,
            offset,
            from_module,
            &handed,
            &mut out,
            on_dep_only,
        );
        assert(refs_view(out@) =~= (Resolver {
            session: *session,
            from_module,
            on_dep_only,
        }).document_refs(document@, root as int, offset));
        out
    }

    /// Symbols under the cursor, and the range of the last location there.
    pub fn get_symbols(
        session: &SessionInfo,
        file_symbol: SymbolKey,
        document: &XmlDocument,
        root: usize,
        offset: usize,
        on_dep_only: bool,
    ) -> (res: (Vec<SymbolKey>, Option<Range<usize>>))
        requires
            document@.wf(),
            root < document.nodes.len(),
        ensures
            ({
                let refs = (Resolver {
                    session: *session,
                    from_module: session.st.module_of(file_symbol),
                    on_dep_only,
                }).document_refs(document@, root as int, Some(offset));
                &&& res.0@ == symbols_of(refs)
                &&& match res.1 {
                    Some(range) => refs.len() > 0 && range.start == refs.last().start && range.end
                        == refs.last().end,
                    None => refs.len() == 0,
                }
            }),
    {
        let from_module = session.st.find_module(file_symbol);
        let refs = XmlAstUtils::visit_document(
            session,
            from_module,
            document,
            root,
            Some(offset),
            on_dep_only,
        );
        let ghost views = refs_view(refs@);
        let mut symbols: Vec<SymbolKey> = Vec::new();
        let mut range: Option<Range<usize>> = None;
        let mut i: usize = 0;
        while i < refs.len()
            invariant
                i <= refs.len(),
                views == refs_view(refs@),
                symbols@ == symbols_of(views.take(i as int)),
                match range {
                    Some(range) => i > 0 && range.start == views[i - 1].start && range.end == views[i
                        - 1].end,
                    None => i == 0,
                },
            decreases refs.len() - i,
        {
            assert(views[i as int] == refs@[i as int]@);
            proof {
                lemma_concat_map_step(views, ref_symbols(), i as int);
            }
            append_keys(&mut symbols, &refs[i].symbols);
            range = Some(refs[i].range.start..refs[i].range.end);
            i = i + 1;
        }
        assert(views.take(views.len() as int) =~= views);
        (symbols, range)
    }

    /// Every resolvable location of the document in source order, the walk without a cursor.
    pub fn collect_refs(
        session: &SessionInfo,
        file_symbol: SymbolKey,
        document: &XmlDocument,
        root: usize,
        on_dep_only: bool,
    ) -> (res: Vec<XmlRef>)
        requires
            document@.wf(),
            root < document.nodes.len(),
        ensures
            refs_view(res@) == (Resolver {
                session: *session,
                from_module: session.st.module_of(file_symbol),
                on_dep_only,
            }).document_refs(document@, root as int, None),
            in_source_order(refs_view(res@)),
    {
        let from_module = session.st.find_module(file_symbol);
        proof {
            (Resolver { session: *session, from_module, on_dep_only }).locations_are_in_source_order(
                document@,
                root as int,
                None,
            );
        }
        XmlAstUtils::visit_document(session, from_module, document, root, None, on_dep_only)
    }

    /// The scope that the walk of the whole document visits a node with.
    pub fn scope_at<'a>(
        session: &SessionInfo,
        document: &'a XmlDocument,
        node: usize,
        from_module: Option<ModuleKey>,
        on_dep_only: bool,
    ) -> (res: XmlScope<'a>)
        requires
            document@.wf(),
            node < document.nodes.len(),
        ensures
            node == 0 ==> res@ == ScopeView::top(),
            node > 0 ==> (Resolver { session: *session, from_module, on_dep_only }).scope_of(
                document@,
                0,
                node as int,
            ) == Some(res@),
        decreases node,
    {
        assert(document@.nodes[node as int] == document.nodes[node as int]@);
        assert(document@.node_wf(node as int));
        match document.nodes[node].parent {
            None => XmlScope::default(),
            Some(parent) => {
                if parent == 0 {
                    XmlScope::default()
                } else {
                    let scope = XmlAstUtils::scope_at(
                        session,
                        document,
                        parent,
                        from_module,
                        on_dep_only,
                    );
                    XmlAstUtils::content_scope(
                        session,
                        document,
                        parent,
                        &scope,
                        from_module,
                        on_dep_only,
                    )
                }
            },
        }
    }
}

} // verus!
