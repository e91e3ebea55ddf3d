use odoo_ls_features::completion_items::{
    field_details, model_items, require_details, CompletionItem, CompletionItemKind, CompletionList,
    MAX_ITEMS,
};
use odoo_ls_features::symbols::{
    ClassSymbol, Evaluation, EvaluationSymbolPtr, FunctionSymbol, Member, MemberKind, Model, ModuleKey,
    ModuleSymbol, NamedSymbols, SessionInfo, Symbol, SymbolData, SymbolKey, SymbolTable, VariableSymbol,
    XmlId, XmlIdEntry, XmlIdKind, XmlRecordSymbol,
};
use odoo_ls_features::sorting::{drop_repeats, sort_indices, SortKey};
use odoo_ls_features::xml_ast_utils::XmlAstUtils;
use odoo_ls_features::xml_completion::{completed_span, XmlCompletionFeature};
use odoo_ls_features::xml_document::XmlDocument;
use odoo_ls_features::xml_repair::repair;
use odoo_ls_features::xml_spans::ByteSpan;

fn new_session() -> SessionInfo {
    SessionInfo {
        st: SymbolTable { symbols: vec![], modules: vec![] },
        models: vec![],
        xml_ids: vec![],
        js_templates: vec![],
        ac_filter_model_names: true,
    }
}

fn add_module(session: &mut SessionInfo, name: &str, depends: &[&str]) -> ModuleKey {
    session.st.modules.push(ModuleSymbol {
        name: name.to_string(),
        dir_name: name.to_string(),
        all_depends: depends.iter().map(|name| name.to_string()).collect(),
    });
    ModuleKey { index: session.st.modules.len() - 1 }
}

fn add_symbol(session: &mut SessionInfo, name: &str, module: Option<ModuleKey>, data: SymbolData) -> SymbolKey {
    session.st.symbols.push(Some(Symbol { name: name.to_string(), module, data }));
    SymbolKey { index: session.st.symbols.len() - 1 }
}

fn add_field_class(session: &mut SessionInfo, module: ModuleKey, ttype: &str) -> SymbolKey {
    let class = ClassSymbol {
        tree: vec!["odoo".to_string(), "fields".to_string(), ttype.to_string()],
        is_field_class: true,
        content: vec![],
        members: vec![],
    };
    add_symbol(session, ttype, Some(module), SymbolData::Class(class))
}

fn add_field(session: &mut SessionInfo, module: ModuleKey, name: &str, ttype: SymbolKey, comodel: Option<&str>) -> SymbolKey {
    let evaluation = Evaluation {
        symbol: EvaluationSymbolPtr::Weak {
            weak: ttype,
            comodel_name: comodel.map(|name| name.to_string()),
            is_attr_of_instance: None,
        },
        followed: vec![ttype],
    };
    add_symbol(session, name, Some(module), SymbolData::Variable(VariableSymbol { evaluations: vec![evaluation] }))
}

fn add_method(session: &mut SessionInfo, module: ModuleKey, name: &str) -> SymbolKey {
    let function = FunctionSymbol { args: vec![], is_static: false, doc_string: None };
    add_symbol(session, name, Some(module), SymbolData::Function(function))
}

fn add_model(session: &mut SessionInfo, module: ModuleKey, name: &str, fields: &[(&str, SymbolKey)], methods: &[(&str, SymbolKey)]) -> SymbolKey {
    let member = |kind: MemberKind| move |(name, key): &(&str, SymbolKey)| Member { name: name.to_string(), kind, symbols: vec![*key] };
    let named = |(name, key): &(&str, SymbolKey)| NamedSymbols { name: name.to_string(), symbols: vec![*key] };
    let class = ClassSymbol {
        tree: vec![name.to_string()],
        is_field_class: false,
        content: fields.iter().map(named).chain(methods.iter().map(named)).collect(),
        members: fields.iter().map(member(MemberKind::Field)).chain(methods.iter().map(member(MemberKind::Method))).collect(),
    };
    let key = add_symbol(session, name, Some(module), SymbolData::Class(class));
    session.models.push(Model {
        name: name.to_string(),
        symbols: vec![key],
        main_symbols: vec![key],
        full_classes: vec![key],
        xml_fields: vec![],
    });
    key
}

fn add_xml_id(session: &mut SessionInfo, module: ModuleKey, local_id: &str, model: &str, kind: XmlIdKind) -> SymbolKey {
    let record = XmlRecordSymbol { name: None, ttype: None, relation: None };
    let key = add_symbol(session, local_id, Some(module), SymbolData::XmlRecord(record));
    session.xml_ids.push(XmlIdEntry {
        module,
        local_id: local_id.to_string(),
        ids: vec![XmlId { key, kind, model: model.to_string() }],
    });
    key
}

/// The addon that the tests complete in, and a file of it.
fn addon() -> (SessionInfo, SymbolKey) {
    let mut session = new_session();
    let base = add_module(&mut session, "base", &[]);
    let module = add_module(&mut session, "module_xml_completion", &["base"]);
    let file = add_symbol(&mut session, "file", Some(module), SymbolData::Other);
    let char_class = add_field_class(&mut session, base, "Char");
    let float = add_field_class(&mut session, base, "Float");
    let one2many = add_field_class(&mut session, base, "One2many");
    let many2one = add_field_class(&mut session, base, "Many2one");

    let model = add_field(&mut session, base, "model", char_class, None);
    add_model(&mut session, base, "ir.ui.view", &[("model", model)], &[]);
    let res_model = add_field(&mut session, base, "res_model", char_class, None);
    add_model(&mut session, base, "ir.actions.act_window", &[("res_model", res_model)], &[]);
    add_model(&mut session, base, "res.partner", &[], &[]);
    add_model(&mut session, base, "res.groups", &[], &[]);
    add_model(&mut session, base, "_unknown", &[], &[]);

    let amount = add_field(&mut session, module, "amount", float, None);
    let total = add_field(&mut session, module, "total", float, None);
    let line_ids = add_field(&mut session, module, "line_ids", one2many, Some("module_xml_completion.line"));
    let group_id = add_field(&mut session, module, "group_id", many2one, Some("res.groups"));
    let partner_id = add_field(&mut session, module, "partner_id", many2one, Some("res.partner"));
    let owner_id = add_field(&mut session, module, "owner_id", many2one, Some("res.partner"));
    let confirm = add_method(&mut session, module, "action_completion_confirm");
    let private = add_method(&mut session, module, "_completion_private");
    let dunder = add_method(&mut session, module, "__completion_dunder__");
    let lambda = add_method(&mut session, module, "<lambda>");
    add_model(&mut session, module, "module_xml_completion.parent", &[
        ("total", total), ("amount", amount), ("line_ids", line_ids), ("group_id", group_id),
        ("partner_id", partner_id), ("owner_id", owner_id),
    ], &[
        ("__completion_dunder__", dunder), ("_completion_private", private),
        ("action_completion_confirm", confirm), ("<lambda>", lambda),
    ]);
    let line_amount = add_field(&mut session, module, "line_amount", float, None);
    add_model(&mut session, module, "module_xml_completion.line", &[("line_amount", line_amount)], &[]);
    for number in 0..210 {
        add_model(&mut session, base, &format!("many.model.{number:03}"), &[], &[]);
    }

    add_xml_id(&mut session, base, "group_user", "res.groups", XmlIdKind::XmlRecord);
    add_xml_id(&mut session, base, "group_system", "res.groups", XmlIdKind::XmlRecord);
    add_xml_id(&mut session, module, "completion_partner", "res.partner", XmlIdKind::XmlRecord);
    add_xml_id(&mut session, module, "completion_menu_root", "ir.ui.menu", XmlIdKind::MenuItem);
    add_xml_id(&mut session, module, "completion_action_parent", "ir.actions.act_window", XmlIdKind::XmlRecord);
    add_xml_id(&mut session, module, "completion_template_extra", "ir.ui.view", XmlIdKind::Template);
    (session, file)
}

const VIEWS: &str = "<odoo>
    <record id=\"completion_model_probe\" model=\"module_xml_completion.pa\"/>
    <record id=\"completion_action\" model=\"ir.actions.act_window\">
        <field name=\"res_\"/>
        <field name=\"res_model\">module_xml_completion.pa</field>
    </record>
    <record id=\"completion_view_form\" model=\"ir.ui.view\">
        <field name=\"model\">module_xml_completion.parent</field>
        <field name=\"arch\" type=\"xml\">
            <form>
                <field name=\"amo\"/>
                <field name=\"line_ids\">
                    <list><field name=\"line_am\"/></list>
                </field>
                <button name=\"action_completion_co\"/>
                <button name=\"_completion_p\"/>
                <button name=\"__completion_d\"/>
                <button type=\"object\" name=\"\"/>
                <button type=\"action\" name=\"act\"/>
                <group groups=\"base.group_user,!base.group_us\"/>
                <t t-call=\"module_xml_completion.completion_template_ex\"/>
            </form>
        </field>
    </record>
    <record id=\"completion_unordered\" model=\"ir.ui.view\">
        <field name=\"arch\" type=\"xml\"><form><field name=\"tot\"/></form></field>
        <field name=\"model\">module_xml_completion.parent</field>
    </record>
    <record id=\"completion_spread\" model=\"ir.ui.view\">
        <field name=\"model\">
            module_xml_completion.par
        </field>
    </record>
    <record id=\"completion_empty_text_probe\" model=\"ir.ui.view\"><field name=\"model\"></field></record>
    <record id=\"completion_refs\" model=\"module_xml_completion.parent\">
        <field name=\"group_id\" ref=\"base.group_us\"/>
        <field name=\"partner_id\" ref=\"base.group_us\"/>
        <field name=\"partner_id\" ref=\"module_xml_c\"/>
        <field name=\"owner_id\" ref=\"module_xml_completion.completion_par\"/>
    </record>
    <menuitem id=\"completion_menu\" parent=\"module_xml_completion.completion_menu_ro\" action=\"module_xml_completion.completion_action_par\"/>
</odoo>";

fn complete(session: &SessionInfo, file: SymbolKey, text: &str, needle: &str) -> Option<CompletionList> {
    let offset = text.find(needle).unwrap_or_else(|| panic!("no {needle}")) + needle.len();
    XmlCompletionFeature::autocomplete_xml(session, file, text, offset)
}

fn items(session: &SessionInfo, file: SymbolKey, text: &str, needle: &str) -> Vec<CompletionItem> {
    complete(session, file, text, needle).map(|list| list.items).unwrap_or_default()
}

fn labels(session: &SessionInfo, file: SymbolKey, text: &str, needle: &str) -> Vec<String> {
    items(session, file, text, needle).into_iter().map(|item| item.label).collect()
}

fn replaced<'a>(text: &'a str, item: &CompletionItem) -> &'a str {
    &text[item.text_edit.span.start..item.text_edit.span.end]
}

#[test]
fn test_xml_completion() {
    let (session, file) = addon();

    // `<record model=…>` completes model names.
    let models = labels(&session, file, VIEWS, "completion_model_probe\" model=\"module_xml_completion.pa");
    assert!(models.contains(&"module_xml_completion.parent".to_string()), "expected a model name, got: {models:?}");

    // A `<field name=…>` directly under a `<record>` completes the fields of the record model.
    let record_fields = labels(&session, file, VIEWS, "<field name=\"res_");
    assert!(record_fields.contains(&"res_model".to_string()), "expected a field of ir.actions.act_window, got: {record_fields:?}");

    // Inside the arch, fields resolve against the model the view targets, replacing the value.
    let found = items(&session, file, VIEWS, "<field name=\"amo");
    assert_eq!(found.iter().map(|item| item.label.clone()).collect::<Vec<_>>(), vec!["amount".to_string()]);
    assert_eq!(found[0].text_edit.new_text, "amount");
    assert_eq!(replaced(VIEWS, &found[0]), "amo");

    // An inline subview resolves against the comodel of the field holding it.
    let subview_fields = labels(&session, file, VIEWS, "<field name=\"line_am");
    assert_eq!(subview_fields, vec!["line_amount".to_string()], "expected a field of the comodel");

    // `<field name="model">` may come after the arch it targets.
    let unordered_fields = labels(&session, file, VIEWS, "<field name=\"tot");
    assert_eq!(unordered_fields, vec!["total".to_string()], "expected the arch to target the model of its record");

    // `<button name=…>` completes the methods of the model in scope.
    let methods = labels(&session, file, VIEWS, "<button name=\"action_completion_co");
    assert_eq!(methods, vec!["action_completion_confirm".to_string()], "expected a method of the target model");
}

/// The field type, and the comodel of a relational field, annotate the completion item.
#[test]
fn test_xml_completion_field_details() {
    let (session, file) = addon();
    let found = items(&session, file, VIEWS, "<field name=\"line_am");
    assert_eq!(found[0].description, Some("Float".to_string()));
    let found = items(&session, file, VIEWS, "<field name=\"line_ids");
    assert_eq!(found[0].description, Some("One2many(module_xml_completion.line)".to_string()));
}

/// An empty value completes everything the position accepts, capped and flagged incomplete.
#[test]
fn test_xml_completion_cap() {
    let (session, file) = addon();
    let list = complete(&session, file, VIEWS, "completion_model_probe\" model=\"").unwrap();
    assert!(list.is_incomplete, "a capped response must be flagged incomplete");
    assert!(list.items.len() <= 200, "expected at most 200 items, got {}", list.items.len());
    assert_eq!(list.items.len(), MAX_ITEMS);
    assert_eq!(replaced(VIEWS, &list.items[0]), "module_xml_completion.pa");
}

/// Attributes taking an xml id complete from the ids the position accepts.
#[test]
fn test_xml_completion_xml_ids() {
    let (session, file) = addon();

    // `ref=` is filtered to the comodel of the field carrying it.
    let groups = labels(&session, file, VIEWS, "name=\"group_id\" ref=\"base.group_us");
    assert!(groups.contains(&"base.group_user".to_string()), "expected a res.groups record, got: {groups:?}");
    let partners = labels(&session, file, VIEWS, "name=\"partner_id\" ref=\"base.group_us");
    assert!(partners.is_empty(), "a res.partner ref should not offer res.groups records, got: {partners:?}");

    // `groups=` completes the segment under the cursor, past the `!` that negates it.
    let found = items(&session, file, VIEWS, "groups=\"base.group_user,!base.group_us");
    assert!(found.iter().any(|item| item.label == "base.group_user"), "expected a res.groups record, got: {found:?}");
    assert_eq!(replaced(VIEWS, &found[0]), "base.group_us");
}

/// Menus, actions and templates are declared outside of `<record>`, and complete all the same.
#[test]
fn test_xml_completion_menus_and_templates() {
    let (session, file) = addon();
    let parents = labels(&session, file, VIEWS, "parent=\"module_xml_completion.completion_menu_ro");
    assert_eq!(parents, vec!["module_xml_completion.completion_menu_root".to_string()]);
    let actions = labels(&session, file, VIEWS, "action=\"module_xml_completion.completion_action_par");
    assert_eq!(actions, vec!["module_xml_completion.completion_action_parent".to_string()]);
    let templates = labels(&session, file, VIEWS, "t-call=\"module_xml_completion.completion_template_ex");
    assert_eq!(templates, vec!["module_xml_completion.completion_template_extra".to_string()]);
}

/// Completion is asked for while the tag is still being typed, so the document rarely parses.
#[test]
fn test_xml_completion_in_unparsable_document() {
    let (session, file) = addon();

    // A start tag with no `>`, deep in an arch, after a comment and a value that hold markup
    let deep = "<odoo>\n    <record id=\"completion_view_form\" model=\"ir.ui.view\">\n        <field name=\"model\">module_xml_completion.parent</field>\n        <field name=\"arch\" type=\"xml\">\n            <form string=\"Parent\">\n                <!-- <field name=\"amount\"> a comment holding markup -->\n                <group invisible=\"context.get('x') != 'y' and 1 &gt; 0\">\n                    <field name=\"line_ids\">\n                        <list>\n                            <field name=\"line_am";
    let subview = labels(&session, file, deep, "<field name=\"line_am");
    assert_eq!(subview, vec!["line_amount".to_string()], "expected a field of the comodel of the unclosed subview");

    // An attribute value with no closing quote, at the top level of the record.
    let unterminated = "<odoo>\n    <record id=\"probe\" model=\"module_xml_completion.pa";
    let models = labels(&session, file, unterminated, "model=\"module_xml_completion.pa");
    assert!(models.contains(&"module_xml_completion.parent".to_string()), "expected a model name, got: {models:?}");

    // The same field, once in a document that parses and once in one that does not.
    let closed = "<odoo>\n    <record id=\"probe\" model=\"module_xml_completion.parent\">\n        <field name=\"amo\"/>\n    </record>\n</odoo>";
    let well_formed = labels(&session, file, closed, "<field name=\"amo");
    let broken = "<odoo>\n    <record id=\"probe\" model=\"module_xml_completion.parent\">\n        <field name=\"amo";
    assert_eq!(labels(&session, file, broken, "<field name=\"amo"), well_formed);
    assert_eq!(well_formed, vec!["amount".to_string()]);
}

/// A method reaches an attribute value bare, with the private and dunder ones ranked last.
#[test]
fn test_xml_completion_button_methods() {
    let (session, file) = addon();

    let found = items(&session, file, VIEWS, "<button type=\"object\" name=\"");
    let synthetic = found.iter().filter(|item| item.label.starts_with('<') && item.label.ends_with('>')).collect::<Vec<_>>();
    assert!(synthetic.is_empty(), "a name in angle brackets cannot be typed in an attribute, got: {synthetic:?}");

    let sort_text = |needle: &str, label: &str| {
        let found = items(&session, file, VIEWS, needle);
        let item = found.iter().find(|item| item.label == label).unwrap_or_else(|| panic!("{label} not offered, got: {found:?}"));
        item.sort_text.clone().unwrap_or_else(|| panic!("{label} has no sort text"))
    };
    let public = sort_text("<button name=\"action_completion_co", "action_completion_confirm");
    let private = sort_text("<button name=\"_completion_p", "_completion_private");
    let dunder = sort_text("<button name=\"__completion_d", "__completion_dunder__");
    assert!(public < private, "a public method sorts before a private one, got {public} and {private}");
    assert!(private < dunder, "a private method sorts before a dunder one, got {private} and {dunder}");

    let found = items(&session, file, VIEWS, "<button name=\"action_completion_co");
    let item = &found[0];
    assert_eq!(item.kind, CompletionItemKind::Value, "a callable kind makes the client insert parentheses");
    assert_eq!(item.text_edit.new_text, "action_completion_confirm");

    // `type="action"` takes an xml id instead.
    assert!(complete(&session, file, VIEWS, "<button type=\"action\" name=\"act").is_none());
}

/// The text of a `<field name="model">` names a model, which the walk already resolves there.
#[test]
fn test_xml_completion_in_field_text() {
    let (session, file) = addon();

    let res_model = labels(&session, file, VIEWS, "<field name=\"res_model\">module_xml_completion.pa");
    assert!(res_model.contains(&"module_xml_completion.parent".to_string()), "expected a model name, got: {res_model:?}");

    // A value an element spreads over several lines is replaced without its indentation.
    let found = items(&session, file, VIEWS, "\n            module_xml_completion.par");
    assert_eq!(found.iter().map(|item| item.label.clone()).collect::<Vec<_>>(), vec!["module_xml_completion.parent".to_string()]);
    let line_start = VIEWS[..found[0].text_edit.span.start].rfind('\n').unwrap() + 1;
    assert_eq!(found[0].text_edit.span.start - line_start, 12);
    assert_eq!(replaced(VIEWS, &found[0]), "module_xml_completion.par");

    // Content the parser gives no text node to still completes, capped like any empty value.
    let list = complete(&session, file, VIEWS, "completion_empty_text_probe\" model=\"ir.ui.view\"><field name=\"model\">").unwrap();
    assert!(list.is_incomplete && !list.items.is_empty() && list.items.len() <= 200, "expected a capped list, got {} items", list.items.len());
    assert_eq!(replaced(VIEWS, &list.items[0]), "");

    // The same text in a document that does not parse yet.
    let broken = "<odoo>\n    <record id=\"probe\" model=\"ir.ui.view\">\n        <field name=\"model\">res.";
    let typed = labels(&session, file, broken, "<field name=\"model\">res.");
    assert!(typed.contains(&"res.partner".to_string()), "expected a model name in an unparsable document, got: {typed:?}");
}

/// A `ref=` reaches the comodel records named by a dotted prefix or by the start of a module name.
#[test]
fn test_xml_completion_ref_to_own_module() {
    let (session, file) = addon();
    let expected = vec!["module_xml_completion.completion_partner".to_string()];
    assert_eq!(labels(&session, file, VIEWS, "name=\"partner_id\" ref=\"module_xml_c"), expected);
    assert_eq!(labels(&session, file, VIEWS, "name=\"owner_id\" ref=\"module_xml_completion.completion_par"), expected);
}

#[test]
fn nothing_completes_where_nothing_is_expected() {
    let (session, file) = addon();
    // In a tag name, in an attribute that takes anything, in text that names no model.
    assert!(complete(&session, file, VIEWS, "<od").is_none());
    assert!(complete(&session, file, VIEWS, "<record id=\"completion_mo").is_none());
    assert!(complete(&session, file, "<record model=\"ir.ui.view\"><field name=\"name\">ab</field></record>", "name\">a").is_none());
    // A `<field name="model">` of no record.
    assert!(complete(&session, file, "<odoo><field name=\"model\">re</field></odoo>", "model\">re").is_none());
    assert!(complete(&session, file, "<odoo><field name=\"am\"/></odoo>", "name=\"am").is_none());
    // A self-closing field has no content.
    let xml = "<record model=\"ir.ui.view\"><field name=\"model\"/></record>";
    assert!(complete(&session, file, xml, "<field name=\"model\"/>").is_none());
    // Past the end, and inside of a character.
    assert!(XmlCompletionFeature::autocomplete_xml(&session, file, VIEWS, VIEWS.len() + 1).is_none());
    let wide = "<record model=\"\u{e9}\"/>";
    assert!(XmlCompletionFeature::autocomplete_xml(&session, file, wide, 16).is_none());
    assert!(XmlCompletionFeature::autocomplete_xml(&session, file, wide, 17).is_some());
    assert!(XmlCompletionFeature::autocomplete_xml(&session, file, "<record model=\"\u{e9}", 16).is_none());
    // A comment and an end tag are not completed in.
    assert!(complete(&session, file, "<odoo><!-- a", "<!-- a").is_none());
    assert!(complete(&session, file, "<odoo><record></rec", "</rec").is_none());
}

#[test]
fn the_fields_of_records_complete_too_and_each_name_once() {
    let (mut session, file) = addon();
    let base = ModuleKey { index: 0 };
    let record = |name: &str, ttype: &str, relation: Option<&str>| SymbolData::XmlRecord(XmlRecordSymbol {
        name: Some(name.to_string()),
        ttype: Some(ttype.to_string()),
        relation: relation.map(|relation| relation.to_string()),
    });
    let x_amount = add_symbol(&mut session, "r", Some(base), record("x_amount", "many2one", Some("res.partner")));
    let x_plain = add_symbol(&mut session, "r", Some(base), record("x_plain", "char", None));
    let amount = add_symbol(&mut session, "r", Some(base), record("amount", "integer", None));
    let index = session.models.iter().position(|model| model.name == "module_xml_completion.parent").unwrap();
    session.models[index].xml_fields = vec![x_plain, amount, x_amount];

    let xml = "<record model=\"module_xml_completion.parent\"><field name=\"\"/><field name=\"x\"/></record>";
    let found = items(&session, file, xml, "<field name=\"x");
    let notes: Vec<(String, Option<String>)> = found.into_iter().map(|item| (item.label, item.description)).collect();
    assert_eq!(notes, vec![
        ("x_amount".to_string(), Some("many2one(res.partner)".to_string())),
        ("x_plain".to_string(), Some("char".to_string())),
    ]);
    let all = items(&session, file, xml, "<field name=\"");
    let names: Vec<&str> = all.iter().map(|item| item.label.as_str()).collect();
    assert_eq!(names, vec!["amount", "group_id", "line_ids", "owner_id", "partner_id", "total", "x_amount", "x_plain"]);
    // The field of the class wins over the record of its name.
    assert_eq!(all[0].description, Some("Float".to_string()));
    assert!(all.iter().all(|item| item.sort_text.is_none() && item.kind == CompletionItemKind::Field));
}

#[test]
fn candidates_out_of_the_dependencies_carry_a_note() {
    let (mut session, file) = addon();
    let other = add_module(&mut session, "zz_other", &[]);
    let another = add_module(&mut session, "aa_another", &[]);
    let first = add_model(&mut session, other, "far.model", &[], &[]);
    let second = add_symbol(&mut session, "far", Some(another), SymbolData::Other);
    let third = add_symbol(&mut session, "far", Some(other), SymbolData::Other);
    session.models.last_mut().unwrap().main_symbols = vec![first, second, third];
    add_xml_id(&mut session, other, "far_id", "res.groups", XmlIdKind::XmlRecord);

    assert_eq!(require_details(&session, &vec![first, second, third]), Some("require aa_another, zz_other".to_string()));
    assert_eq!(require_details(&session, &vec![]), None);

    let xml = "<record model=\"far\" groups=\"zz\"/>";
    let found = items(&session, file, xml, "model=\"far");
    assert_eq!(found[0].description, Some("require aa_another, zz_other".to_string()));
    assert_eq!(found[0].kind, CompletionItemKind::Class);
    let found = items(&session, file, xml, "groups=\"zz");
    assert_eq!((found[0].label.as_str(), found[0].description.as_deref()), ("zz_other.far_id", Some("require zz_other")));
    assert_eq!(found[0].kind, CompletionItemKind::Reference);

    session.ac_filter_model_names = false;
    assert!(labels(&session, file, xml, "model=\"far").is_empty());
    // Without a module nothing is out of the dependencies.
    let list = model_items(&session, None, "far", ByteSpan { start: 0, end: 0 });
    assert_eq!((list.items[0].label.as_str(), list.items[0].description.as_deref()), ("far.model", None));
}

#[test]
fn models_without_classes_and_the_unknown_one_are_not_offered() {
    let (mut session, file) = addon();
    let xml = "<record model=\"\"/><!-- -->";
    let index = session.models.iter().position(|model| model.name == "res.partner").unwrap();
    let key = session.models[index].symbols[0];
    session.st.symbols[key.index] = None;
    let probe = "<record model=\"res\"/>";
    assert_eq!(labels(&session, file, probe, "model=\"res"), vec!["res.groups".to_string()]);
    assert!(!labels(&session, file, "<record model=\"_\"/>", "model=\"_").contains(&"_unknown".to_string()));
    let names = labels(&session, file, xml, "model=\"");
    let mut sorted = names.clone();
    sorted.sort();
    assert_eq!(names, sorted);
}

#[test]
fn field_details_need_a_field_class() {
    let (mut session, _) = addon();
    let base = ModuleKey { index: 0 };
    let plain = add_model(&mut session, base, "plain", &[], &[]);
    let no_field = add_field(&mut session, base, "a", plain, None);
    assert_eq!(field_details(&session, no_field), None);
    assert_eq!(field_details(&session, plain), None);
    let nameless = ClassSymbol { tree: vec![], is_field_class: true, content: vec![], members: vec![] };
    let nameless = add_symbol(&mut session, "n", Some(base), SymbolData::Class(nameless));
    let unnamed = add_field(&mut session, base, "b", nameless, None);
    assert_eq!(field_details(&session, unnamed), None);
    let record = XmlRecordSymbol { name: Some("x".to_string()), ttype: None, relation: Some("y".to_string()) };
    let record = add_symbol(&mut session, "r", Some(base), SymbolData::XmlRecord(record));
    assert_eq!(field_details(&session, record), None);
}

#[test]
fn an_offered_xml_id_resolves() {
    let (session, file) = addon();
    let module = session.st.find_module(file).unwrap();
    for label in labels(&session, file, "<menuitem action=\"\"/>", "action=\"") {
        assert_eq!(XmlAstUtils::xml_id_symbols(&session, &label, module, false).len(), 1, "{label}");
    }
}

#[test]
fn a_group_is_completed_segment_by_segment() {
    let xml = "<a groups=\"one, !two ,three\"/>";
    let document = XmlDocument::parse(xml).unwrap();
    let attr = &document.nodes[1].attributes[0];
    let span = |needle: &str| {
        let offset = xml.find(needle).unwrap() + needle.len();
        let span = completed_span(xml, attr, offset).unwrap();
        (&xml[span.start..span.end], &xml[span.start..offset])
    };
    assert_eq!(span("groups=\"on"), ("one", "on"));
    assert_eq!(span("groups=\"one"), ("one", "one"));
    assert_eq!(span("one,"), (" !two ", ""));
    assert_eq!(span("one, "), ("!two ", ""));
    assert_eq!(span("one, !tw"), ("two ", "tw"));
    assert_eq!(span("two ,"), ("three", ""));
    assert_eq!(span("three"), ("three", "three"));
}

#[test]
fn what_is_open_is_closed_innermost_first() {
    let fixed = |text: &str| repair(text, text.len());
    assert_eq!(fixed("<a><b x='1'>t"), Some("<a><b x='1'>t</b></a>".to_string()));
    assert_eq!(fixed("<a><b"), Some("<a><b/></a>".to_string()));
    assert_eq!(fixed("<a><b x"), Some("<a><b x/></a>".to_string()));
    assert_eq!(fixed("<a><b /"), Some("<a><b /></a>".to_string()));
    assert_eq!(fixed("<a><b x=\"1>'"), Some("<a><b x=\"1>'\"/></a>".to_string()));
    assert_eq!(fixed("<a><b x='\">"), Some("<a><b x='\">'/></a>".to_string()));
    assert_eq!(fixed("<?xml version='1.0'?><!DOCTYPE a><a><b/><c></c><!-- <d> -- > --><![CDATA[<e>]]]>"), Some("<?xml version='1.0'?><!DOCTYPE a><a><b/><c></c><!-- <d> -- > --><![CDATA[<e>]]]></a>".to_string()));
    assert_eq!(fixed("<a/>"), Some("<a/>".to_string()));
    for cut in ["<", "<a><", "<a></", "<a><!", "<a><!-", "<a><!--", "<a><!-- -", "<a><![CDATA[x]]", "<?xml", "<?xml ?"] {
        assert_eq!(fixed(cut), None, "{cut}");
    }
    // Only what stands before the cursor counts.
    assert_eq!(repair("<a><b>c</b></a>", 7), Some("<a><b>c</b></a>".to_string()));
    assert_eq!(repair("<a><b>c", 6), Some("<a><b></b></a>".to_string()));
}

#[test]
fn sorting_is_stable_and_repeats_are_dropped() {
    let key = |major: &str, minor: &str| SortKey { major: major.to_string(), minor: minor.to_string() };
    let keys = vec![key("b", "2"), key("a", "9"), key("b", "1"), key("a", "9"), key("", ""), key("b", "1"), key("ab", "")];
    let order = sort_indices(&keys);
    assert_eq!(order, vec![4, 1, 3, 6, 2, 5, 0]);
    assert_eq!(drop_repeats(&keys, &order), vec![4, 1, 6, 2, 0]);
    assert_eq!(sort_indices(&vec![]), Vec::<usize>::new());
    // Strings compare by code points.
    let wide = vec![key("\u{ff5e}", ""), key("\u{1F600}", ""), key("z", "")];
    assert_eq!(sort_indices(&wide), vec![2, 0, 1]);
}
