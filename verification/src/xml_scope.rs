//! The state that elements hand down to their content: which model its fields belong to.
use vstd::prelude::*;

use crate::symbols::{ModuleKey, SessionInfo};
use crate::text::{str_eq, trim, trimmed};
use crate::xml_ast_utils::XmlAstUtils;
use crate::xml_document::{DocumentView, NodeView, XmlDocument, XmlNode, XmlNodeKind};
use crate::xml_lookup::Resolver;

verus! {

/// Model a subtree resolves its fields against.
#[derive(Debug)]
pub enum ModelScope {
    /// Outside of any record.
    Unset,
    Known(String),
    /// Inside a subview whose comodel did not resolve, which must not fall back to the parent.
    Unknown,
}

/// Inherited state threaded top-down through the XML walk, handed to children as a clone.
#[derive(Debug)]
pub struct XmlScope<'a> {
    /// Model the surrounding `<record>`/arch subtree resolves fields against.
    pub record_model: ModelScope,
    /// `name` of the enclosing `<field>` (drives `<field name="model">` text).
    pub field_name: Option<&'a str>,
    /// For an `ir.ui.view` record, the model its arch targets, which the record's
    /// `<field name="model">` names. Applied to the `<field name="arch">` subtree.
    pub view_target_model: Option<&'a str>,
}

/// Value of a [`ModelScope`].
pub ghost enum ModelScopeView {
    /// Outside of any record.
    Unset,
    Known(Seq<char>),
    Unknown,
}

/// Value of an [`XmlScope`].
pub ghost struct ScopeView {
    pub record_model: ModelScopeView,
    pub field_name: Option<Seq<char>>,
    pub view_target_model: Option<Seq<char>>,
}

/// Text of an optional string slice.
pub open spec fn opt_str_view(text: Option<&str>) -> Option<Seq<char>> {
    match text {
        Some(text) => Some(text@),
        None => None,
    }
}

impl View for ModelScope {
    type V = ModelScopeView;

    open spec fn view(&self) -> ModelScopeView {
        match self {
            ModelScope::Unset => ModelScopeView::Unset,
            ModelScope::Known(model) => ModelScopeView::Known(model@),
            ModelScope::Unknown => ModelScopeView::Unknown,
        }
    }
}

impl<'a> View for XmlScope<'a> {
    type V = ScopeView;

    open spec fn view(&self) -> ScopeView {
        ScopeView {
            record_model: self.record_model@,
            field_name: opt_str_view(self.field_name),
            view_target_model: opt_str_view(self.view_target_model),
        }
    }
}

impl ModelScopeView {
    /// The model, when it is known by a name that is not empty.
    pub open spec fn known(self) -> Option<Seq<char>> {
        match self {
            ModelScopeView::Known(model) => if model.len() > 0 {
                Some(model)
            } else {
                None
            },
            _ => None,
        }
    }
}

impl ScopeView {
    /// The scope of the top of a document.
    pub open spec fn top() -> ScopeView {
        ScopeView {
            record_model: ModelScopeView::Unset,
            field_name: None,
            view_target_model: None,
        }
    }
}

impl ModelScope {
    /// The model, when it is known by a name that is not empty.
    pub fn known(&self) -> (res: Option<&str>)
        ensures
            opt_str_view(res) == self@.known(),
    {
        match self {
            ModelScope::Known(model) => {
                if model.as_str().is_empty() {
                    None
                } else {
                    Some(model.as_str())
                }
            },
            _ => None,
        }
    }
}

impl Clone for ModelScope {
    fn clone(&self) -> (res: Self)
        ensures
            res@ == self@,
    {
        match self {
            ModelScope::Unset => ModelScope::Unset,
            ModelScope::Known(model) => ModelScope::Known(model.as_str().to_string()),
            ModelScope::Unknown => ModelScope::Unknown,
        }
    }
}

impl Default for ModelScope {
    fn default() -> (res: Self)
        ensures
            res@ == ModelScopeView::Unset,
    {
        ModelScope::Unset
    }
}

impl<'a> Clone for XmlScope<'a> {
    fn clone(&self) -> (res: Self)
        ensures
            res@ == self@,
    {
        XmlScope {
            record_model: self.record_model.clone(),
            field_name: self.field_name,
            view_target_model: self.view_target_model,
        }
    }
}

impl<'a> Default for XmlScope<'a> {
    fn default() -> (res: Self)
        ensures
            res@ == ScopeView::top(),
    {
        XmlScope {
            record_model: ModelScope::default(),
            field_name: None,
            view_target_model: None,
        }
    }
}

/// Tags making a `<field>`'s content an inline subview, `tree` being pre-18.0 for `list`.
pub open spec fn is_subview_tag(tag: Seq<char>) -> bool {
    tag == "form"@ || tag == "list"@ || tag == "tree"@ || tag == "graph"@ || tag == "kanban"@ || tag
        == "calendar"@
}

fn is_subview(tag: &str) -> (res: bool)
    ensures
        res == is_subview_tag(tag@),
{
    str_eq(tag, "form") || str_eq(tag, "list") || str_eq(tag, "tree") || str_eq(tag, "graph")
        || str_eq(tag, "kanban") || str_eq(tag, "calendar")
}

impl NodeView {
    /// Value of the last attribute of that name among the first `count`.
    pub open spec fn last_attribute_of(self, name: Seq<char>, count: int) -> Option<Seq<char>>
        decreases count,
    {
        if count <= 0 {
            None
        } else if self.attributes[count - 1].name == name {
            Some(self.attributes[count - 1].value)
        } else {
            self.last_attribute_of(name, count - 1)
        }
    }

    /// Value of the last attribute of that name.
    pub open spec fn last_attribute(self, name: Seq<char>) -> Option<Seq<char>> {
        self.last_attribute_of(name, self.attributes.len() as int)
    }
}

impl DocumentView {
    /// Whether `child` is an element in `node` that makes its content an inline subview.
    pub open spec fn is_subview_child(self, node: int, child: int) -> bool {
        &&& self.is_child(node, child)
        &&& self.nodes[child].kind == XmlNodeKind::Element
        &&& is_subview_tag(self.nodes[child].tag)
    }

    /// Whether `node` holds an inline subview.
    pub open spec fn has_subview(self, node: int) -> bool {
        exists|child: int| self.is_subview_child(node, child)
    }

    /// The model that `child` names as a `<field name="model">` of `node`.
    pub open spec fn named_model(self, node: int, child: int) -> Option<Seq<char>> {
        let view = self.nodes[child];
        if self.is_child(node, child) && view.kind == XmlNodeKind::Element && view.tag == "field"@
            && view.attribute("name"@) == Some("model"@) {
            match view.text {
                Some(text) => if trimmed(text).len() > 0 {
                    Some(trimmed(text))
                } else {
                    None
                },
                None => None,
            }
        } else {
            None
        }
    }

    /// The model that the first `<field name="model">` of `node` at or after `from` names.
    pub open spec fn target_model_from(self, node: int, from: int) -> Option<Seq<char>>
        decreases self.nodes.len() - from,
    {
        if from >= self.nodes.len() {
            None
        } else {
            match self.named_model(node, from) {
                Some(model) => Some(model),
                None => self.target_model_from(node, from + 1),
            }
        }
    }

    /// For an `ir.ui.view` record, the model its arch targets.
    pub open spec fn target_model(self, node: int) -> Option<Seq<char>> {
        self.target_model_from(node, node + 1)
    }

    /// Children name no model as long as they are not reached.
    proof fn lemma_target_skip(self, node: int, from: int, to: int)
        requires
            from <= to <= self.nodes.len(),
            forall|j: int| from <= j < to ==> !self.is_child(node, j),
        ensures
            self.target_model_from(node, from) == self.target_model_from(node, to),
        decreases to - from,
    {
        if from < to {
            assert(!self.is_child(node, from));
            self.lemma_target_skip(node, from + 1, to);
        }
    }
}

impl Resolver {
    /// Model the children of a `<field>`/`<groupby>` resolve against, when it differs.
    pub open spec fn child_model(self, doc: DocumentView, node: int, scope: ScopeView) -> Option<
        ModelScopeView,
    > {
        match (scope.record_model.known(), doc.nodes[node].attribute("name"@)) {
            (Some(model), Some(field)) => {
                let is_field = doc.nodes[node].tag == "field"@;
                if is_field && field == "arch"@ {
                    match scope.view_target_model {
                        Some(target) => Some(ModelScopeView::Known(target)),
                        None => None,
                    }
                } else if is_field && !doc.has_subview(node) {
                    None
                } else {
                    Some(
                        match self.comodel(model, field) {
                            Some(comodel) => ModelScopeView::Known(comodel),
                            None => ModelScopeView::Unknown,
                        },
                    )
                }
            },
            _ => None,
        }
    }

    /// The scope of the content of a `<record>`.
    pub open spec fn record_scope(self, doc: DocumentView, node: int, scope: ScopeView) -> ScopeView {
        let record_model = match doc.nodes[node].last_attribute("model"@) {
            Some(model) => ModelScopeView::Known(model),
            None => scope.record_model,
        };
        ScopeView {
            record_model,
            view_target_model: if record_model.known() == Some("ir.ui.view"@) {
                doc.target_model(node)
            } else {
                scope.view_target_model
            },
            ..scope
        }
    }

    /// The scope of the content of a `<field>`/`<groupby>`.
    pub open spec fn field_scope(self, doc: DocumentView, node: int, scope: ScopeView) -> ScopeView {
        ScopeView {
            record_model: match self.child_model(doc, node, scope) {
                Some(model) => model,
                None => scope.record_model,
            },
            field_name: doc.nodes[node].last_attribute("name"@),
            ..scope
        }
    }

    /// The scope of the content of a node that itself stands in `scope`.
    pub open spec fn child_scope(self, doc: DocumentView, node: int, scope: ScopeView) -> ScopeView {
        let tag = doc.nodes[node].tag;
        if doc.nodes[node].kind != XmlNodeKind::Element {
            scope
        } else if tag == "record"@ {
            self.record_scope(doc, node, scope)
        } else if tag == "field"@ || tag == "groupby"@ {
            self.field_scope(doc, node, scope)
        } else {
            scope
        }
    }
}

impl XmlNode {
    /// Value of the last attribute of that name.
    pub fn last_attribute(&self, name: &str) -> (res: Option<&str>)
        ensures
            opt_str_view(res) == self@.last_attribute(name@),
    {
        let mut k: usize = self.attributes.len();
        while k > 0
            invariant
                k <= self.attributes.len(),
                self@.last_attribute(name@) == self@.last_attribute_of(name@, k as int),
            decreases k,
        {
            assert(self@.attributes[k - 1] == self.attributes[k - 1]@);
            if str_eq(self.attributes[k - 1].name.as_str(), name) {
                return Some(self.attributes[k - 1].value.as_str());
            }
            k = k - 1;
        }
        None
    }
}

impl XmlAstUtils {
    /// For an `ir.ui.view` record, the model its arch targets, read from the
    /// record's direct `<field name="model">…</field>` child.
    pub fn view_target_model<'a>(document: &'a XmlDocument, record: usize) -> (res: Option<&'a str>)
        requires
            document@.wf(),
            record < document.nodes.len(),
        ensures
            opt_str_view(res) == document@.target_model(record as int),
    {
        let ghost doc = document@;
        let mut child: usize = document.next_child(record, record + 1);
        proof {
            doc.lemma_target_skip(record as int, record + 1, child as int);
        }
        while child < document.nodes.len()
            invariant
                doc == document@,
                doc.wf(),
                record < child <= document.nodes.len(),
                child < document.nodes.len() ==> doc.is_child(record as int, child as int),
                doc.target_model(record as int) == doc.target_model_from(
                    record as int,
                    child as int,
                ),
            decreases document.nodes.len() - child,
        {
            let node = &document.nodes[child];
            assert(doc.nodes[child as int] == node@);
            if node.kind == XmlNodeKind::Element && str_eq(node.tag.as_str(), "field") {
                if let Some(name) = node.attribute("name") {
                    if str_eq(name, "model") {
                        if let Some(text) = &node.text {
                            let model = trim(text.as_str());
                            if !model.is_empty() {
                                return Some(model);
                            }
                        }
                    }
                }
            }
            let next = document.next_child(record, child + 1);
            proof {
                doc.lemma_target_skip(record as int, child + 1, next as int);
            }
            child = next;
        }
        None
    }

    /// Whether a node holds an inline subview.
    fn holds_subview(document: &XmlDocument, node: usize) -> (res: bool)
        requires
            document@.wf(),
            node < document.nodes.len(),
        ensures
            res == document@.has_subview(node as int),
    {
        let ghost doc = document@;
        let mut child: usize = document.next_child(node, node + 1);
        proof {
            assert forall|j: int| j < child implies !doc.is_subview_child(node as int, j) by {
                if doc.is_child(node as int, j) {
                    assert(doc.node_wf(j));
                }
            }
        }
        while child < document.nodes.len()
            invariant
                doc == document@,
                doc.wf(),
                node < child <= document.nodes.len(),
                child < document.nodes.len() ==> doc.is_child(node as int, child as int),
                forall|j: int| j < child ==> !doc.is_subview_child(node as int, j),
            decreases document.nodes.len() - child,
        {
            assert(doc.nodes[child as int] == document.nodes[child as int]@);
            if document.nodes[child].kind == XmlNodeKind::Element && is_subview(
                document.nodes[child].tag.as_str(),
            ) {
                assert(doc.is_subview_child(node as int, child as int));
                return true;
            }
            child = document.next_child(node, child + 1);
        }
        false
    }

    /// Model the children of a `<field>`/`<groupby>` resolve against, when it differs.
    pub fn child_model_scope<'a>(
        session: &SessionInfo,
        document: &'a XmlDocument,
        node: usize,
        scope: &XmlScope<'a>,
        from_module: Option<ModuleKey>,
        on_dep_only: bool,
    ) -> (res: Option<ModelScope>)
        requires
            document@.wf(),
            node < document.nodes.len(),
        ensures
            match res {
                Some(model) => (Resolver {
                    session: *session,
                    from_module,
                    on_dep_only,
                }).child_model(document@, node as int, scope@) == Some(model@),
                None => (Resolver { session: *session, from_module, on_dep_only }).child_model(
                    document@,
                    node as int,
                    scope@,
                ) is None,
            },
    {
        assert(document@.nodes[node as int] == document.nodes[node as int]@);
        let model_name = match scope.record_model.known() {
            Some(model_name) => model_name,
            None => {
                return None;
            },
        };
        let field_name = match document.nodes[node].attribute("name") {
            Some(field_name) => field_name,
            None => {
                return None;
            },
        };
        if str_eq(document.nodes[node].tag.as_str(), "field") {
            // Inside a view's `arch`, sub-elements resolve against the view's target model.
            if str_eq(field_name, "arch") {
                return match scope.view_target_model {
                    Some(target) => Some(ModelScope::Known(target.to_string())),
                    None => None,
                };
            }
            if !XmlAstUtils::holds_subview(document, node) {
                return None;
            }
        }
        Some(
            match XmlAstUtils::comodel_name(
                session,
                model_name,
                field_name,
                from_module,
                on_dep_only,
            ) {
                Some(comodel) => ModelScope::Known(comodel),
                None => ModelScope::Unknown,
            },
        )
    }

    /// The scope of the content of a `<record>`.
    fn record_scope<'a>(
        session: &SessionInfo,
        document: &'a XmlDocument,
        node: usize,
        scope: &XmlScope<'a>,
        from_module: Option<ModuleKey>,
        on_dep_only: bool,
    ) -> (res: XmlScope<'a>)
        requires
            document@.wf(),
            node < document.nodes.len(),
        ensures
            res@ == (Resolver { session: *session, from_module, on_dep_only }).record_scope(
                document@,
                node as int,
                scope@,
            ),
    {
        assert(document@.nodes[node as int] == document.nodes[node as int]@);
        let record_model = match document.nodes[node].last_attribute("model") {
            Some(model) => ModelScope::Known(model.to_string()),
            None => scope.record_model.clone(),
        };
        let is_view = match record_model.known() {
            Some(model) => str_eq(model, "ir.ui.view"),
            None => false,
        };
        XmlScope {
            record_model,
            field_name: scope.field_name,
            view_target_model: if is_view {
                XmlAstUtils::view_target_model(document, node)
            } else {
                scope.view_target_model
            },
        }
    }

    /// The scope of the content of a `<field>`/`<groupby>`.
    fn field_scope<'a>(
        session: &SessionInfo,
        document: &'a XmlDocument,
        node: usize,
        scope: &XmlScope<'a>,
        from_module: Option<ModuleKey>,
        on_dep_only: bool,
    ) -> (res: XmlScope<'a>)
        requires
            document@.wf(),
            node < document.nodes.len(),
        ensures
            res@ == (Resolver { session: *session, from_module, on_dep_only }).field_scope(
                document@,
                node as int,
                scope@,
            ),
    {
        assert(document@.nodes[node as int] == document.nodes[node as int]@);
        XmlScope {
            record_model: match XmlAstUtils::child_model_scope(
                session,
                document,
                node,
                scope,
                from_module,
                on_dep_only,
            ) {
                Some(model) => model,
                None => scope.record_model.clone(),
            },
            field_name: document.nodes[node].last_attribute("name"),
            view_target_model: scope.view_target_model,
        }
    }

    /// The scope of the content of a node that itself stands in `scope`.
    pub fn content_scope<'a>(
        session: &SessionInfo,
        document: &'a XmlDocument,
        node: usize,
        scope: &XmlScope<'a>,
        from_module: Option<ModuleKey>,
        on_dep_only: bool,
    ) -> (res: XmlScope<'a>)
        requires
            document@.wf(),
            node < document.nodes.len(),
        ensures
            res@ == (Resolver { session: *session, from_module, on_dep_only }).child_scope(
                document@,
                node as int,
                scope@,
            ),
    {
        assert(document@.nodes[node as int] == document.nodes[node as int]@);
        let tag = document.nodes[node].tag.as_str();
        if document.nodes[node].kind != XmlNodeKind::Element {
            scope.clone()
        } else if str_eq(tag, "record") {
            XmlAstUtils::record_scope(session, document, node, scope, from_module, on_dep_only)
        } else if str_eq(tag, "field") || str_eq(tag, "groupby") {
            XmlAstUtils::field_scope(session, document, node, scope, from_module, on_dep_only)
        } else {
            scope.clone()
        }
    }
}

} // verus!
