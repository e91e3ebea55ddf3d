use odoo_ls_features::symbols::{
    ClassSymbol, Evaluation, EvaluationSymbolPtr, FunctionSymbol, JsTemplate, MemberKind, Member, Model, ModuleKey,
    ModuleSymbol, NamedSymbols, SessionInfo, Symbol, SymbolData, SymbolKey, SymbolTable,
    VariableSymbol, XmlId, XmlIdEntry, XmlIdKind, XmlRecordSymbol,
};
use odoo_ls_features::text::{is_whitespace, trim};
use odoo_ls_features::xml_ast_utils::{XmlAstUtils, XmlRef, XmlRefKind};
use odoo_ls_features::xml_document::{XmlDocument, XmlNodeKind};
use odoo_ls_features::xml_scope::{ModelScope, XmlScope};

fn new_session() -> SessionInfo {
    SessionInfo {
        st: SymbolTable { symbols: vec![], modules: vec![] },
        models: vec![],
        xml_ids: vec![],
        js_templates: vec![],
        ac_filter_model_names: true,
    }
}

fn add_module(session: &mut SessionInfo, name: &str, depends: &[&str]) -> ModuleKey {
    session.st.modules.push(ModuleSymbol {
        name: name.to_string(),
        dir_name: name.to_string(),
        all_depends: depends.iter().map(|name| name.to_string()).collect(),
    });
    ModuleKey { index: session.st.modules.len() - 1 }
}

fn add_symbol(session: &mut SessionInfo, name: &str, module: Option<ModuleKey>, data: SymbolData) -> SymbolKey {
    session.st.symbols.push(Some(Symbol { name: name.to_string(), module, data }));
    SymbolKey { index: session.st.symbols.len() - 1 }
}

fn add_file(session: &mut SessionInfo, module: ModuleKey) -> SymbolKey {
    add_symbol(session, "file", Some(module), SymbolData::Other)
}

fn add_field(session: &mut SessionInfo, name: &str, module: ModuleKey, comodel: Option<&str>) -> SymbolKey {
    let evaluation = Evaluation {
        symbol: EvaluationSymbolPtr::Weak {
            weak: SymbolKey { index: 0 },
            comodel_name: comodel.map(|name| name.to_string()),
            is_attr_of_instance: None,
        },
        followed: vec![],
    };
    add_symbol(session, name, Some(module), SymbolData::Variable(VariableSymbol { evaluations: vec![evaluation] }))
}

/// A model of one class with the given members.
fn add_model(session: &mut SessionInfo, name: &str, module: ModuleKey, members: &[(&str, SymbolKey)]) -> SymbolKey {
    let class = ClassSymbol {
        tree: vec![name.to_string()],
        is_field_class: false,
        content: members.iter().map(|(name, key)| NamedSymbols { name: name.to_string(), symbols: vec![*key] }).collect(),
        members: members.iter().map(|(name, key)| Member { name: name.to_string(), kind: MemberKind::Field, symbols: vec![*key] }).collect(),
    };
    let key = add_symbol(session, name, Some(module), SymbolData::Class(class));
    session.models.push(Model {
        name: name.to_string(),
        symbols: vec![key],
        main_symbols: vec![key],
        full_classes: vec![key],
        xml_fields: vec![],
    });
    key
}

fn add_xml_id(session: &mut SessionInfo, module: ModuleKey, local_id: &str, model: &str, kind: XmlIdKind) -> SymbolKey {
    let record = XmlRecordSymbol { name: None, ttype: None, relation: None };
    let key = add_symbol(session, local_id, Some(module), SymbolData::XmlRecord(record));
    session.xml_ids.push(XmlIdEntry {
        module,
        local_id: local_id.to_string(),
        ids: vec![XmlId { key, kind, model: model.to_string() }],
    });
    key
}

fn texts<'a>(xml: &'a str, refs: &[XmlRef]) -> Vec<(&'a str, XmlRefKind, usize)> {
    refs.iter().map(|xml_ref| (&xml[xml_ref.range.clone()], xml_ref.kind, xml_ref.symbols.len())).collect()
}

fn collect(session: &SessionInfo, file: SymbolKey, xml: &str) -> Vec<XmlRef> {
    let document = XmlDocument::parse(xml).unwrap();
    XmlAstUtils::collect_refs(session, file, &document, 0, true)
}

fn symbols_after(session: &SessionInfo, file: SymbolKey, xml: &str, needle: &str) -> (Vec<SymbolKey>, Option<String>) {
    let document = XmlDocument::parse(xml).unwrap();
    let offset = xml.find(needle).unwrap() + needle.len();
    let (symbols, range) = XmlAstUtils::get_symbols(session, file, &document, 0, offset, true);
    (symbols, range.map(|range| xml[range].to_string()))
}

/// Entity + multi-byte char before a `%(...)d` ref used to land mid-character.
#[test]
fn for_each_format_xml_id_ref_handles_entities_and_multibyte_chars() {
    let xml = "<button name=\"&lt;\u{1F600}%(module.action_x)d\" type=\"action\"/>";
    let doc = XmlDocument::parse(xml).unwrap();
    let node = doc.nodes.iter().find(|node| node.kind == XmlNodeKind::Element).unwrap();
    let attr = &node.attributes[0];

    let hits = XmlAstUtils::for_each_format_xml_id_ref(attr, xml);

    assert_eq!(hits.len(), 1);
    let (inner, range) = &hits[0];
    assert_eq!(inner, "module.action_x");
    assert!(xml.is_char_boundary(range.start), "range start {} is not a char boundary", range.start);
    assert!(xml.is_char_boundary(range.end), "range end {} is not a char boundary", range.end);
    assert_eq!(&xml[range.clone()], "module.action_x");
}

#[test]
fn format_references_take_d_s_and_i_and_nothing_else() {
    let xml = "<a b=\"%(one)d %(two)s %(three)i %(four)x %(five %()d %(six)\"/>";
    let doc = XmlDocument::parse(xml).unwrap();
    let hits = XmlAstUtils::for_each_format_xml_id_ref(&doc.nodes[1].attributes[0], xml);
    let inner: Vec<&str> = hits.iter().map(|(inner, _)| inner.as_str()).collect();
    // `%(five %()d` closes at the first `)`.
    assert_eq!(inner, vec!["one", "two", "three", "five %("]);
    for (inner, range) in &hits {
        assert_eq!(&xml[range.clone()], inner);
    }
}

const VIEWS: &str = "<odoo>\n\
    <record id=\"view_test_model_tree\" model=\"ir.ui.view\">\n\
        <field name=\"name\">x_test_model.tree</field>\n\
        <field name=\"model\">x_test_model</field>\n\
        <field name=\"arch\" type=\"xml\"><list><field name=\"x_name\"/></list></field>\n\
    </record>\n\
    <record id=\"action_test_model\" model=\"ir.actions.act_window\">\n\
        <field name=\"res_model\">x_test_model</field>\n\
    </record>\n\
    <menuitem id=\"menu_test\" action=\"action_test_model\"/>\n\
</odoo>";

fn views_session() -> (SessionInfo, SymbolKey) {
    let mut session = new_session();
    let base = add_module(&mut session, "base", &[]);
    let module = add_module(&mut session, "module_xml_models_fields", &["base"]);
    let file = add_file(&mut session, module);
    let name = add_field(&mut session, "name", base, None);
    let model = add_field(&mut session, "model", base, None);
    let arch = add_field(&mut session, "arch", base, None);
    add_model(&mut session, "ir.ui.view", base, &[("name", name), ("model", model), ("arch", arch)]);
    let res_model = add_field(&mut session, "res_model", base, None);
    add_model(&mut session, "ir.actions.act_window", base, &[("res_model", res_model)]);
    let x_name = add_field(&mut session, "x_name", module, None);
    add_model(&mut session, "x_test_model", module, &[("x_name", x_name)]);
    add_xml_id(&mut session, module, "view_test_model_tree", "ir.ui.view", XmlIdKind::XmlRecord);
    add_xml_id(&mut session, module, "action_test_model", "ir.actions.act_window", XmlIdKind::XmlRecord);
    add_xml_id(&mut session, module, "menu_test", "ir.ui.menu", XmlIdKind::MenuItem);
    (session, file)
}

#[test]
fn test_xml_semantic_tokens() {
    let (session, file) = views_session();
    let refs = collect(&session, file, VIEWS);
    let tokens = texts(VIEWS, &refs);

    // `<record id=…>` declares its xml id, `<menuitem action=…>` references one.
    assert!(tokens.contains(&("view_test_model_tree", XmlRefKind::XmlIdDeclaration, 1)));
    assert!(tokens.contains(&("action_test_model", XmlRefKind::XmlIdDeclaration, 1)));
    assert!(tokens.contains(&("action_test_model", XmlRefKind::XmlId, 1)));
    // Model names: the `<record model=…>` itself, and the one a `<field name="model">` names.
    assert!(tokens.contains(&("ir.ui.view", XmlRefKind::Model, 1)));
    assert!(tokens.contains(&("x_test_model", XmlRefKind::Model, 1)));
    // Fields of the record model, and of the model the arch targets.
    assert!(tokens.contains(&("res_model", XmlRefKind::Member, 1)));
    assert!(tokens.contains(&("x_name", XmlRefKind::Member, 1)));
    // Text content is only resolved where it names a model: the view name is not one.
    assert!(!tokens.iter().any(|(text, _, _)| *text == "x_test_model.tree"));
}

#[test]
fn a_cursor_selects_among_all_locations() {
    let (session, file) = views_session();
    let document = XmlDocument::parse(VIEWS).unwrap();
    let all = XmlAstUtils::collect_refs(&session, file, &document, 0, true);
    assert_eq!(all.len(), 13);
    for offset in 0..VIEWS.len() + 2 {
        let (symbols, range) = XmlAstUtils::get_symbols(&session, file, &document, 0, offset, true);
        let under: Vec<&XmlRef> = all.iter().filter(|r| r.range.start <= offset && offset <= r.range.end).collect();
        let expected: Vec<SymbolKey> = under.iter().flat_map(|r| r.symbols.iter().cloned()).collect();
        assert_eq!(symbols, expected);
        assert_eq!(range, under.last().map(|r| r.range.clone()));
    }
    let starts: Vec<usize> = all.iter().map(|r| r.range.start).collect();
    let mut sorted = starts.clone();
    sorted.sort();
    assert_eq!(starts, sorted);
}

#[test]
fn locations_of_an_element_come_in_source_order() {
    let (session, file) = views_session();
    let xml = "<record model=\"x_test_model\"><button name=\"x_name\" context=\"%(menu_test)d\"/></record>";
    let refs = collect(&session, file, xml);
    assert_eq!(texts(xml, &refs), vec![
        ("x_test_model", XmlRefKind::Model, 1),
        ("x_name", XmlRefKind::Member, 1),
        ("menu_test", XmlRefKind::XmlId, 1),
    ]);
    // Within one value: the value as a whole, then the references in it.
    let xml = "<field ref=\"%(menu_test)d%(action_test_model)s\" name=\"x\" eval=\"%(menu_test)d\"/>";
    let refs = collect(&session, file, xml);
    assert_eq!(texts(xml, &refs), vec![
        ("%(menu_test)d%(action_test_model)s", XmlRefKind::XmlId, 0),
        ("menu_test", XmlRefKind::XmlId, 1),
        ("action_test_model", XmlRefKind::XmlId, 1),
        ("menu_test", XmlRefKind::XmlId, 1),
    ]);
    // Groups and format references of one list are told apart by where they start.
    let xml = "<a groups=\"%(menu_test)d,base.one, %(menu_test)d\"/>";
    let refs = collect(&session, file, xml);
    let starts: Vec<(&str, usize)> = refs.iter().map(|r| (&xml[r.range.clone()], r.range.start)).collect();
    assert_eq!(starts, vec![
        ("%(menu_test)d", 11), ("menu_test", 13), ("base.one", 25), ("%(menu_test)d", 35), ("menu_test", 37),
    ]);
}

#[test]
fn a_button_of_type_action_names_no_member() {
    let (session, file) = views_session();
    let xml = "<record model=\"x_test_model\"><button name=\"x_name\" type=\"action\"/><button name=\"gone\"/></record>";
    let refs = collect(&session, file, xml);
    assert_eq!(texts(xml, &refs), vec![("x_test_model", XmlRefKind::Model, 1)]);
}

const TEMPLATES: &str = "<odoo>\n\
    <template id=\"completion_template_base\" groups=\"base.group_user\"><t groups=\" base.group_user , ! base.group_system\"/></template>\n\
    <template id=\"completion_template_other\" inherit_id=\"module_xml_completion.completion_template_base\">\n\
        <t t-call=\"module_xml_completion.completion_template_base\"/>\n\
    </template>\n\
    <record id=\"view\" model=\"ir.ui.view\"><field name=\"arch\" type=\"xml\"><group groups=\"base.group_user,!base.group_us\"/></field></record>\n\
    <menuitem id=\"completion_menu_other\"/>\n\
    <menuitem id=\"completion_menu\" parent=\"module_xml_completion.completion_menu_other\"/>\n\
</odoo>";

fn templates_session() -> (SessionInfo, SymbolKey, SymbolKey, SymbolKey) {
    let mut session = new_session();
    let base = add_module(&mut session, "base", &[]);
    let module = add_module(&mut session, "module_xml_completion", &["base"]);
    let file = add_file(&mut session, module);
    add_model(&mut session, "ir.ui.view", base, &[]);
    add_xml_id(&mut session, base, "group_user", "res.groups", XmlIdKind::XmlRecord);
    add_xml_id(&mut session, base, "group_system", "res.groups", XmlIdKind::XmlRecord);
    let template = add_xml_id(&mut session, module, "completion_template_base", "ir.ui.view", XmlIdKind::Template);
    let menu = add_xml_id(&mut session, module, "completion_menu_other", "ir.ui.menu", XmlIdKind::MenuItem);
    (session, file, template, menu)
}

/// A `<template id=…>` declares an xml id like a `<record id=…>` does, and a `t-call` uses one.
#[test]
fn test_xml_semantic_tokens_templates() {
    let (session, file, _, _) = templates_session();
    let refs = collect(&session, file, TEMPLATES);
    let tokens = texts(TEMPLATES, &refs);
    assert!(tokens.contains(&("completion_template_base", XmlRefKind::XmlIdDeclaration, 1)));
    assert!(tokens.contains(&("module_xml_completion.completion_template_base", XmlRefKind::XmlId, 1)));
}

/// `groups` is a list, resolved per segment on any element and through `!` negation.
#[test]
fn test_xml_semantic_tokens_groups() {
    let (session, file, _, _) = templates_session();
    let refs = collect(&session, file, TEMPLATES);
    let coloured: Vec<(&str, XmlRefKind, usize)> = texts(TEMPLATES, &refs).into_iter().filter(|token| token.2 > 0).collect();
    // On the `<template>` itself, on a plain `<t>` child, and on a `<group>` in a view arch.
    assert_eq!(coloured.iter().filter(|token| **token == ("base.group_user", XmlRefKind::XmlId, 1)).count(), 3);
    assert_eq!(coloured.iter().filter(|token| **token == ("base.group_system", XmlRefKind::XmlId, 1)).count(), 1);
    // The range covers the id alone, never the `!` or the padding around it.
    for (text, _, _) in texts(TEMPLATES, &refs) {
        assert!(!text.contains('!') && text.trim() == text, "{text:?}");
    }
    // The second segment of `base.group_user,!base.group_us` names nothing and stays uncoloured.
    assert!(!coloured.iter().any(|token| token.0 == "base.group_us"));
}

/// A `t-call` on a template of a module that is not a dependency stays uncoloured.
#[test]
fn test_xml_semantic_tokens_out_of_deps_template() {
    let mut session = new_session();
    let a = add_module(&mut session, "module_templates_a", &[]);
    let b = add_module(&mut session, "module_templates_b", &[]);
    let file = add_file(&mut session, b);
    add_xml_id(&mut session, a, "template", "ir.ui.view", XmlIdKind::Template);
    add_xml_id(&mut session, b, "caller_ols05074", "ir.ui.view", XmlIdKind::Template);
    let xml = "<odoo><template id=\"caller_ols05074\"><t t-call=\"module_templates_a.template\"/></template></odoo>";

    let refs = collect(&session, file, xml);
    let coloured: Vec<(&str, XmlRefKind, usize)> = texts(xml, &refs).into_iter().filter(|token| token.2 > 0).collect();
    assert_eq!(coloured, vec![("caller_ols05074", XmlRefKind::XmlIdDeclaration, 1)]);

    // Without the bound on dependencies it resolves.
    let document = XmlDocument::parse(xml).unwrap();
    let unbound = XmlAstUtils::collect_refs(&session, file, &document, 0, false);
    assert!(texts(xml, &unbound).contains(&("module_templates_a.template", XmlRefKind::XmlId, 1)));
}

/// `<menuitem>` and `<template>` declare xml ids too, and are navigated to like a `<record>`.
#[test]
fn test_xml_data_definition() {
    let (session, file, template, menu) = templates_session();
    let (symbols, _) = symbols_after(&session, file, TEMPLATES, "parent=\"module_xml_completion.completion_menu_other");
    assert_eq!(symbols, vec![menu]);
    let (symbols, _) = symbols_after(&session, file, TEMPLATES, "t-call=\"module_xml_completion.completion_template_base");
    assert_eq!(symbols, vec![template]);
}

/// Hovering those same references renders them rather than tripping over their missing name.
#[test]
fn test_xml_data_hover() {
    let (session, file, _, _) = templates_session();
    for needle in [
        "parent=\"module_xml_completion.completion_menu_other",
        "t-call=\"module_xml_completion.completion_template_base",
        "inherit_id=\"module_xml_completion.completion_template_base",
    ] {
        let (symbols, range) = symbols_after(&session, file, TEMPLATES, needle);
        assert_eq!(symbols.len(), 1);
        assert_eq!(range.as_deref(), needle.split('"').nth(1));
    }
}

const SUBVIEWS: &str = "<odoo>\n\
    <record id=\"view\" model=\"ir.ui.view\">\n\
        <field name=\"arch\" type=\"xml\"><form>\n\
            <field name=\"name\"/>\n\
            <field name=\"line_ids\"><list><field name=\"line_name\"/></list></field>\n\
            <field name=\"broken_ids\"><list><field name=\"name\" class=\"lost\"/><group><field name=\"name\" class=\"deep\"/></group></list></field>\n\
            <groupby name=\"partner_id\"><field name=\"partner_name\"/></groupby>\n\
        </form></field>\n\
        <field name=\"model\">\n  parent.model\n  </field>\n\
    </record>\n\
</odoo>";

/// A field inside an inline subview belongs to the comodel, not to the enclosing record.
#[test]
fn test_xml_subview_model() {
    let mut session = new_session();
    let base = add_module(&mut session, "base", &[]);
    let file = add_file(&mut session, base);
    add_model(&mut session, "ir.ui.view", base, &[]);
    let name = add_field(&mut session, "name", base, None);
    let line_ids = add_field(&mut session, "line_ids", base, Some("line.model"));
    let broken_ids = add_field(&mut session, "broken_ids", base, None);
    let partner_id = add_field(&mut session, "partner_id", base, Some("partner.model"));
    add_model(&mut session, "parent.model", base, &[
        ("name", name), ("line_ids", line_ids), ("broken_ids", broken_ids), ("partner_id", partner_id),
    ]);
    let line_name = add_field(&mut session, "line_name", base, None);
    add_model(&mut session, "line.model", base, &[("line_name", line_name)]);
    let partner_name = add_field(&mut session, "partner_name", base, None);
    add_model(&mut session, "partner.model", base, &[("partner_name", partner_name)]);

    // Directly under the arch: the model of the record.
    assert_eq!(symbols_after(&session, file, SUBVIEWS, "<form>\n<field name=\"na").0, vec![name]);
    // Inside the inline list of a one2many: its comodel.
    assert_eq!(symbols_after(&session, file, SUBVIEWS, "<field name=\"line_na").0, vec![line_name]);
    // `<groupby>` names a field of the enclosing model...
    assert_eq!(symbols_after(&session, file, SUBVIEWS, "<groupby name=\"partner_").0, vec![partner_id]);
    // ...and its content resolves against that field's comodel.
    assert_eq!(symbols_after(&session, file, SUBVIEWS, "<field name=\"partner_na").0, vec![partner_name]);
    // A subview with no resolvable comodel resolves to nothing rather than to the parent.
    assert_eq!(symbols_after(&session, file, SUBVIEWS, "broken_ids\"><list><field name=\"na").0, vec![]);
    assert_eq!(symbols_after(&session, file, SUBVIEWS, "<group><field name=\"na").0, vec![]);

    // The scope at a node is the one that the walk visits it with.
    let document = XmlDocument::parse(SUBVIEWS).unwrap();
    let index = |class: &str| document.nodes.iter().position(|node| node.attribute("class") == Some(class)).unwrap();
    let module = session.st.find_module(file);
    assert!(matches!(XmlAstUtils::scope_at(&session, &document, index("lost"), module, true).record_model, ModelScope::Unknown));
    assert!(matches!(XmlAstUtils::scope_at(&session, &document, index("deep"), module, true).record_model, ModelScope::Unknown));
    let groupby = document.nodes.iter().position(|node| node.tag == "groupby").unwrap();
    let scope = XmlAstUtils::scope_at(&session, &document, groupby, module, true);
    assert_eq!(scope.record_model.known(), Some("parent.model"));
    assert_eq!(scope.view_target_model, Some("parent.model"));
    assert_eq!(scope.field_name, Some("arch"));
    assert_eq!(XmlAstUtils::scope_at(&session, &document, 0, module, true).record_model.known(), None);
}

#[test]
fn the_target_model_is_trimmed_and_skips_blank_fields() {
    let xml = "<record><field name=\"model\">  </field><field name=\"other\">a</field><field name=\"model\">\n res.partner\u{a0}</field></record>";
    let document = XmlDocument::parse(xml).unwrap();
    assert_eq!(XmlAstUtils::view_target_model(&document, 1), Some("res.partner"));
    let none = XmlDocument::parse("<record><group><field name=\"model\">a</field></group></record>").unwrap();
    assert_eq!(XmlAstUtils::view_target_model(&none, 1), None);
}

#[test]
fn white_space_is_that_of_unicode() {
    for c in '\0'..=char::MAX {
        assert_eq!(is_whitespace(c), c.is_whitespace(), "{:x}", c as u32);
    }
    let text = " \t\u{3000}a \u{2003} b\u{85}\n";
    assert_eq!(trim(text), text.trim());
    assert_eq!(trim("\u{a0}\u{2028}"), "");
}

#[test]
fn members_of_classes_come_before_those_of_records() {
    let mut session = new_session();
    let base = add_module(&mut session, "base", &[]);
    let other = add_module(&mut session, "other", &[]);
    let python = add_field(&mut session, "x_field", base, None);
    add_model(&mut session, "a.model", base, &[("x_field", python)]);
    let record = XmlRecordSymbol { name: Some("x_field".to_string()), ttype: Some("many2one".to_string()), relation: Some("b.model".to_string()) };
    let in_base = add_symbol(&mut session, "r", Some(base), SymbolData::XmlRecord(record.clone()));
    let in_other = add_symbol(&mut session, "r", Some(other), SymbolData::XmlRecord(record));
    session.models[0].xml_fields = vec![in_other, in_base];

    let all = XmlAstUtils::resolve_member_on_model(&session, "a.model", "x_field", Some(base), false);
    assert_eq!(all, vec![python, in_other, in_base]);
    let seen = XmlAstUtils::resolve_member_on_model(&session, "a.model", "x_field", Some(base), true);
    assert_eq!(seen, vec![python, in_base]);
    assert_eq!(XmlAstUtils::resolve_member_on_model(&session, "no.model", "x_field", None, false), vec![]);
    // The python field names no comodel, the record does.
    assert_eq!(XmlAstUtils::comodel_name(&session, "a.model", "x_field", Some(base), true), Some("b.model".to_string()));
    session.st.symbols[in_base.index] = None;
    assert_eq!(XmlAstUtils::comodel_name(&session, "a.model", "x_field", Some(base), true), None);
}

#[test]
fn members_are_variables_functions_and_records_alone() {
    let mut session = new_session();
    let base = add_module(&mut session, "base", &[]);
    let nested = ClassSymbol { tree: vec![], is_field_class: false, content: vec![], members: vec![] };
    let nested = add_symbol(&mut session, "m", Some(base), SymbolData::Class(nested));
    let other = add_symbol(&mut session, "m", Some(base), SymbolData::Other);
    let function = FunctionSymbol { args: vec![], is_static: false, doc_string: None };
    let function = add_symbol(&mut session, "m", Some(base), SymbolData::Function(function));
    let variable = add_field(&mut session, "m", base, None);
    let class = add_model(&mut session, "a.model", base, &[("m", nested)]);
    let gone = SymbolKey { index: 1000 };
    if let Some(Symbol { data: SymbolData::Class(class), .. }) = &mut session.st.symbols[class.index] {
        class.content[0].symbols = vec![nested, function, gone, other, variable];
    }
    let found = XmlAstUtils::resolve_member_on_model(&session, "a.model", "m", None, false);
    assert_eq!(found, vec![function, variable]);
}

/// `<field name="model">` may come after the arch it targets, and anything between.
#[test]
fn the_arch_resolves_alike_before_and_after_the_model() {
    let (session, file) = views_session();
    let arch = "<field name=\"arch\"><list><field name=\"x_name\"/><field name=\"gone\"/></list></field>";
    let model = "<field name=\"model\">x_test_model</field>";
    let members = |parts: &[&str]| {
        let xml = format!("<record model=\"ir.ui.view\">{}</record>", parts.concat());
        let refs = collect(&session, file, &xml);
        let members: Vec<Vec<SymbolKey>> = refs.into_iter()
            .filter(|r| r.kind == XmlRefKind::Member && &xml[r.range.clone()] == "x_name")
            .map(|r| r.symbols).collect();
        members
    };
    let before = members(&[model, arch]);
    assert_eq!(before.len(), 1);
    assert_eq!(members(&[arch, model]), before);
    assert_eq!(members(&["<!-- c -->", arch, "<field name=\"name\">n</field>", model]), before);
    assert!(members(&[arch]).is_empty());
}

#[test]
fn a_record_field_that_is_not_relational_has_no_comodel() {
    let mut session = new_session();
    let base = add_module(&mut session, "base", &[]);
    add_model(&mut session, "a.model", base, &[]);
    let record = XmlRecordSymbol { name: Some("x".to_string()), ttype: Some("char".to_string()), relation: Some("b.model".to_string()) };
    let key = add_symbol(&mut session, "r", Some(base), SymbolData::XmlRecord(record));
    session.models[0].xml_fields = vec![key];
    assert_eq!(XmlAstUtils::comodel_name(&session, "a.model", "x", None, false), None);
}

#[test]
fn a_document_of_no_module_resolves_no_xml_id() {
    let (mut session, _, _, _) = templates_session();
    let file = add_symbol(&mut session, "file", None, SymbolData::Other);
    let refs = collect(&session, file, TEMPLATES);
    assert_eq!(texts(TEMPLATES, &refs), vec![("ir.ui.view", XmlRefKind::Model, 1)]);
}

#[test]
fn xml_ids_resolve_by_module_and_not_past_a_second_dot() {
    let mut session = new_session();
    let base = add_module(&mut session, "base", &[]);
    let module = add_module(&mut session, "module", &["base"]);
    let in_base = add_xml_id(&mut session, base, "group", "res.groups", XmlIdKind::XmlRecord);
    let own = add_xml_id(&mut session, module, "group", "res.groups", XmlIdKind::PythonClass);
    add_xml_id(&mut session, module, "odd", "res.groups", XmlIdKind::Other);
    assert_eq!(XmlAstUtils::xml_id_symbols(&session, "group", module, true), vec![own]);
    assert_eq!(XmlAstUtils::xml_id_symbols(&session, "base.group", module, true), vec![in_base]);
    assert_eq!(XmlAstUtils::xml_id_symbols(&session, "base.group", base, true), vec![in_base]);
    assert_eq!(XmlAstUtils::xml_id_symbols(&session, "module.group", base, true), vec![]);
    assert_eq!(XmlAstUtils::xml_id_symbols(&session, "module.group", base, false), vec![own]);
    assert_eq!(XmlAstUtils::xml_id_symbols(&session, "base.group.x", module, true), vec![]);
    assert_eq!(XmlAstUtils::xml_id_symbols(&session, "nowhere.group", module, true), vec![]);
    assert_eq!(XmlAstUtils::xml_id_symbols(&session, "odd", module, true), vec![]);
}

#[test]
fn documents_are_read_in_order_with_their_ranges() {
    let xml = "<a x='1'><!-- c --><b/>t&amp;u</a>";
    let document = XmlDocument::parse(xml).unwrap();
    let kinds: Vec<XmlNodeKind> = document.nodes.iter().map(|node| node.kind).collect();
    assert_eq!(kinds, vec![XmlNodeKind::Root, XmlNodeKind::Element, XmlNodeKind::Comment, XmlNodeKind::Element, XmlNodeKind::Text]);
    let parents: Vec<Option<usize>> = document.nodes.iter().map(|node| node.parent).collect();
    assert_eq!(parents, vec![None, Some(0), Some(1), Some(1), Some(1)]);
    assert_eq!(&xml[document.nodes[1].attributes[0].start..document.nodes[1].attributes[0].end], "1");
    assert_eq!(&xml[document.nodes[4].start..document.nodes[4].end], "t&amp;u");
    assert_eq!(document.nodes[4].text.as_deref(), Some("t&u"));
    assert!(document.has_children(1));
    assert!(!document.has_children(3));
    assert!(XmlDocument::parse("<a>").is_none());
    assert!(XmlDocument::parse("<!DOCTYPE a [<!ENTITY e '<b/>'>]><a>&e;</a>").is_none());
}

#[test]
fn an_empty_model_name_is_not_known() {
    assert_eq!(ModelScope::Known(String::new()).known(), None);
    assert_eq!(ModelScope::Known("a".to_string()).known(), Some("a"));
    assert_eq!(ModelScope::Unknown.known(), None);
    assert_eq!(ModelScope::default().known(), None);
    let scope = XmlScope::default();
    assert!(scope.field_name.is_none() && scope.view_target_model.is_none());
    assert_eq!(scope.clone().record_model.known(), None);
}

#[test]
fn templates_lose_what_is_gone() {
    let mut session = new_session();
    let kept = add_symbol(&mut session, "kept", None, SymbolData::Other);
    let gone = add_symbol(&mut session, "gone", None, SymbolData::Other);
    session.st.symbols[gone.index] = None;
    let template = |name: &str, templates: Vec<SymbolKey>| JsTemplate { name: name.to_string(), templates };
    session.js_templates = vec![template("a", vec![gone, kept]), template("b", vec![gone]), template("c", vec![kept])];

    assert!(XmlAstUtils::ensure_js_template_validity(&mut session, "a"));
    assert_eq!(session.js_templates[0].templates, vec![kept]);
    assert!(!XmlAstUtils::ensure_js_template_validity(&mut session, "b"));
    assert!(!XmlAstUtils::ensure_js_template_validity(&mut session, "b"));
    assert!(!XmlAstUtils::ensure_js_template_validity(&mut session, "missing"));
    let names: Vec<&str> = session.js_templates.iter().map(|template| template.name.as_str()).collect();
    assert_eq!(names, vec!["a", "c"]);
}

#[test]
fn the_walk_may_start_below_the_root() {
    let (session, file) = views_session();
    let document = XmlDocument::parse(VIEWS).unwrap();
    let action = document.nodes.iter().position(|node| node.attribute("id") == Some("action_test_model")).unwrap();
    // The record itself is not visited, and its fields stand in no record.
    let refs = XmlAstUtils::collect_refs(&session, file, &document, action, true);
    assert!(refs.is_empty());
    let odoo = 1;
    let refs = XmlAstUtils::collect_refs(&session, file, &document, odoo, true);
    assert_eq!(refs.len(), 13);
}

/// Nodes of an element and its content that name members, with what they resolve to.
fn members_of_record(session: &SessionInfo, xml: &str) -> Vec<(String, Vec<SymbolKey>)> {
    let document = XmlDocument::parse(xml).unwrap();
    let mut refs = vec![];
    let module = Some(ModuleKey { index: 1 });
    XmlAstUtils::visit_record(session, &document, 1, None, module, &XmlScope::default(), &mut refs, true);
    refs.into_iter()
        .filter(|r| r.kind == XmlRefKind::Member)
        .map(|r| (xml[r.range.clone()].to_string(), r.symbols))
        .collect()
}

#[test]
fn a_record_gives_the_members_of_its_arch_in_either_order() {
    let (mut session, _) = views_session();
    let partner = add_field(&mut session, "x_partner", ModuleKey { index: 1 }, Some("ir.ui.view"));
    let x_name = session.models[2].full_classes[0];
    if let Some(Symbol { data: SymbolData::Class(class), .. }) = &mut session.st.symbols[x_name.index] {
        class.content.push(NamedSymbols { name: "x_partner".to_string(), symbols: vec![partner] });
    }
    let arch = "<field name=\"arch\"><list><field name=\"x_partner\"/><field name=\"gone\"/><field name=\"x_name\"/></list></field>";
    let model = "<field name=\"model\">x_test_model</field>";
    let first = members_of_record(&session, &format!("<record model=\"ir.ui.view\">{arch}{model}</record>"));
    let last = members_of_record(&session, &format!("<record model=\"ir.ui.view\">{model}{arch}</record>"));

    let names = |members: &[(String, Vec<SymbolKey>)]| members.iter().map(|(name, _)| name.clone()).collect::<Vec<_>>();
    assert_eq!(names(&first), vec!["arch", "x_partner", "x_name", "model"]);
    assert_eq!(names(&last), vec!["model", "arch", "x_partner", "x_name"]);
    // The arch with its content is one piece of either walk.
    assert_eq!(first[0..3], last[1..4]);
    assert_eq!(first[1].1, vec![partner]);
}

#[test]
fn the_walk_of_a_document_is_that_of_its_elements() {
    let (session, file) = views_session();
    let document = XmlDocument::parse(VIEWS).unwrap();
    let module = session.st.find_module(file);
    let all = texts(VIEWS, &XmlAstUtils::collect_refs(&session, file, &document, 0, true));
    let walk = |node: usize, offset: Option<usize>| {
        let mut refs = vec![];
        XmlAstUtils::visit_node(&session, &document, node, offset, module, &XmlScope::default(), &mut refs, true);
        texts(VIEWS, &refs)
    };
    let odoo = 1;
    assert_eq!(walk(odoo, None), all);
    // The root of a document is no element.
    assert!(walk(0, None).is_empty());
    let children: Vec<usize> = (0..document.nodes.len()).filter(|i| document.nodes[*i].parent == Some(odoo)).collect();
    let joined: Vec<_> = children.iter().flat_map(|child| walk(*child, None)).collect();
    assert_eq!(joined, all);

    // With a cursor, only what is under it.
    let cursor = VIEWS.find("x_name").unwrap();
    assert_eq!(walk(odoo, Some(cursor)), vec![("x_name", XmlRefKind::Member, 1)]);
    assert!(walk(odoo, Some(0)).is_empty());
}

#[test]
fn elements_give_what_their_tag_names() {
    let (session, file) = views_session();
    let module = session.st.find_module(file);
    let in_views = XmlScope { record_model: ModelScope::Known("ir.ui.view".to_string()), ..XmlScope::default() };
    let mut refs = vec![];

    let xml = "<field name=\"arch\" ref=\"action_test_model\"><button name=\"model\"/></field>";
    let document = XmlDocument::parse(xml).unwrap();
    XmlAstUtils::visit_field(&session, &document, 1, None, module, &in_views, &mut refs, true);
    assert_eq!(texts(xml, &refs), vec![
        ("arch", XmlRefKind::Member, 1),
        ("action_test_model", XmlRefKind::XmlId, 1),
        ("model", XmlRefKind::Member, 1),
    ]);

    let xml = "<button name=\"name\"><field name=\"gone\"/><field name=\"arch\"/></button>";
    let document = XmlDocument::parse(xml).unwrap();
    refs.clear();
    XmlAstUtils::visit_button(&session, &document, 1, None, module, &in_views, &mut refs, true);
    assert_eq!(texts(xml, &refs), vec![("name", XmlRefKind::Member, 1), ("arch", XmlRefKind::Member, 1)]);

    let xml = "<menuitem id=\"menu_test\" action=\"action_test_model\"><menuitem id=\"menu_test\"/></menuitem>";
    let document = XmlDocument::parse(xml).unwrap();
    refs.clear();
    XmlAstUtils::visit_menu_item(&session, &document, 1, None, module, &XmlScope::default(), &mut refs, true);
    assert_eq!(texts(xml, &refs), vec![
        ("menu_test", XmlRefKind::XmlIdDeclaration, 1),
        ("action_test_model", XmlRefKind::XmlId, 1),
        ("menu_test", XmlRefKind::XmlIdDeclaration, 1),
    ]);

    let xml = "<template inherit_id=\"view_test_model_tree\"><t t-call=\"view_test_model_tree\"/></template>";
    let document = XmlDocument::parse(xml).unwrap();
    refs.clear();
    XmlAstUtils::visit_template(&session, &document, 1, None, module, &XmlScope::default(), &mut refs, true);
    assert_eq!(texts(xml, &refs), vec![
        ("view_test_model_tree", XmlRefKind::XmlId, 1),
        ("view_test_model_tree", XmlRefKind::XmlId, 1),
    ]);
}
