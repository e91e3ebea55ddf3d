use odoo_ls_features::signature_help::{
    ArgumentSpan, CallCursor, CallExpr, CallKeyword, Callable, SignatureHelp, SignatureHelpFeature,
    SignatureInformation, TypeInfo,
};
use odoo_ls_features::symbols::{
    Argument, ArgumentType, ClassSymbol, EvaluationSymbolPtr, FunctionSymbol, Member, MemberKind,
    SessionInfo, Symbol, SymbolData, SymbolKey, SymbolTable,
};

fn new_session() -> SessionInfo {
    SessionInfo {
        st: SymbolTable { symbols: vec![], modules: vec![] },
        models: vec![],
        xml_ids: vec![],
        js_templates: vec![],
        ac_filter_model_names: true,
    }
}

fn add_symbol(session: &mut SessionInfo, name: &str, data: SymbolData) -> SymbolKey {
    session.st.symbols.push(Some(Symbol { name: name.to_string(), module: None, data }));
    SymbolKey { index: session.st.symbols.len() - 1 }
}

fn add_function(session: &mut SessionInfo, name: &str, args: &[(&str, ArgumentType)], is_static: bool, doc_string: Option<&str>) -> SymbolKey {
    let args = args.iter().map(|(name, arg_type)| Argument {
        symbol: add_symbol(session, name, SymbolData::Other),
        arg_type: *arg_type,
        presentation: name.to_string(),
    }).collect();
    let function = FunctionSymbol { args, is_static, doc_string: doc_string.map(|text| text.to_string()) };
    add_symbol(session, name, SymbolData::Function(function))
}

fn callable(weak: SymbolKey, is_attr_of_instance: Option<bool>) -> Callable {
    Callable {
        symbol: EvaluationSymbolPtr::Weak { weak, comodel_name: None, is_attr_of_instance },
        inferred: TypeInfo::Callable { return_types: "Any".to_string() },
    }
}

/// The call `text` of `callables`, its arguments being what stands between the commas.
fn call(text: &str, callables: Vec<Callable>) -> CallExpr {
    let open = text.find('(').unwrap() + 1;
    let mut args = vec![];
    let mut keywords = vec![];
    let mut start = open;
    for part in text[open..text.len() - 1].split(',') {
        let end = start + part.len();
        let from = start + part.len() - part.trim_start().len();
        let span = ArgumentSpan { start: from as u32, end: end as u32 };
        match part.trim().split_once('=') {
            Some((name, _)) => keywords.push(CallKeyword { span, arg: Some(name.to_string()) }),
            None if part.trim().starts_with("**") => keywords.push(CallKeyword { span, arg: None }),
            None if part.trim().is_empty() => {},
            None => args.push(span),
        }
        start = end + 1;
    }
    CallExpr { args, keywords, callables }
}

fn parameter_label(signature: &SignatureInformation, index: usize) -> String {
    let offsets = signature.parameters[index];
    let units = signature.label.encode_utf16().collect::<Vec<_>>();
    String::from_utf16_lossy(&units[offsets.start as usize..offsets.end as usize])
}

/// Label of the parameter pointed at by `active_parameter`, resolved through the label offsets.
fn active_parameter_label(help: &SignatureHelp) -> Option<String> {
    let signature = help.signatures.first()?;
    assert_eq!(help.active_parameter, signature.active_parameter);
    assert_eq!(help.active_signature, Some(0));
    Some(parameter_label(signature, signature.active_parameter? as usize))
}

const FILE: SymbolKey = SymbolKey { index: 0 };

fn foo_session() -> (SessionInfo, SymbolKey) {
    let mut session = new_session();
    let foo = add_function(&mut session, "foo", &[("a", ArgumentType::Arg), ("b", ArgumentType::Arg)], false, None);
    (session, foo)
}

fn help(session: &SessionInfo, text: &str, callables: Vec<Callable>, offset: u32) -> Option<SignatureHelp> {
    SignatureHelpFeature::signature_help_python(session, FILE, Some(&call(text, callables)), offset)
}

#[test]
fn test_signature_of_module_function() {
    let (session, foo) = foo_session();
    // `foo()`, cursor right after the opening parenthesis
    let help = help(&session, "foo()", vec![callable(foo, None)], 4).expect("signature help");
    assert_eq!(help.signatures.len(), 1);
    assert_eq!(help.signatures[0].label, "foo(a, b) -> Any");
    assert_eq!(active_parameter_label(&help).as_deref(), Some("a"));
}

#[test]
fn test_active_parameter_follows_the_cursor() {
    let (session, foo) = foo_session();
    // `foo(1, 2)`: cursor on `1` then on `2`
    let on_first = help(&session, "foo(1, 2)", vec![callable(foo, None)], 4).expect("signature help");
    assert_eq!(active_parameter_label(&on_first).as_deref(), Some("a"));
    let on_second = help(&session, "foo(1, 2)", vec![callable(foo, None)], 7).expect("signature help");
    assert_eq!(active_parameter_label(&on_second).as_deref(), Some("b"));
}

#[test]
fn test_active_parameter_of_keyword_argument() {
    let (session, foo) = foo_session();
    // `foo(b=2)`: a keyword argument highlights its own parameter, not the positional slot
    let help = help(&session, "foo(b=2)", vec![callable(foo, None)], 6).expect("signature help");
    assert_eq!(active_parameter_label(&help).as_deref(), Some("b"));
}

#[test]
fn test_bound_method_hides_self_and_keeps_doc_string() {
    let mut session = new_session();
    let eggs = add_function(&mut session, "eggs", &[
        ("self", ArgumentType::Arg), ("a", ArgumentType::Arg), ("b", ArgumentType::Arg),
    ], false, Some("Return the first argument."));
    // `Spam().eggs(1)`
    let call = CallExpr { args: vec![ArgumentSpan { start: 12, end: 13 }], keywords: vec![], callables: vec![callable(eggs, Some(true))] };
    let help = SignatureHelpFeature::signature_help_python(&session, FILE, Some(&call), 12).expect("signature help");
    assert_eq!(help.signatures[0].label, "eggs(a, b) -> Any");
    assert_eq!(active_parameter_label(&help).as_deref(), Some("a"));
    assert_eq!(help.signatures[0].documentation.as_deref(), Some("Return the first argument."));
}

#[test]
fn test_extra_arguments_land_on_vararg() {
    let mut session = new_session();
    let with_varargs = add_function(&mut session, "with_varargs", &[("a", ArgumentType::Arg), ("rest", ArgumentType::Vararg)], false, None);
    // `with_varargs(1, 2, 3)`: the third argument of a `(a, *rest)` call still points at `*rest`
    let help = help(&session, "with_varargs(1, 2, 3)", vec![callable(with_varargs, None)], 19).expect("signature help");
    assert_eq!(help.signatures[0].label, "with_varargs(a, *rest) -> Any");
    assert_eq!(active_parameter_label(&help).as_deref(), Some("*rest"));
}

#[test]
fn test_no_signature_outside_of_a_call() {
    let (session, _) = foo_session();
    // `    return a`, in a function body but not in a call
    assert!(SignatureHelpFeature::signature_help_python(&session, FILE, None, 4).is_none());
}

#[test]
fn the_cursor_counts_closed_arguments_between_two() {
    let cursor = |text: &str, offset: u32| SignatureHelpFeature::locate_cursor(&call(text, vec![]), offset);
    // On both ends of an argument, and on the blank behind a comma.
    assert!(matches!(cursor("f(11, 22)", 2), CallCursor::Positional(0)));
    assert!(matches!(cursor("f(11, 22)", 4), CallCursor::Positional(0)));
    assert!(matches!(cursor("f(11, 22)", 5), CallCursor::Positional(1)));
    assert!(matches!(cursor("f(11, 22)", 8), CallCursor::Positional(1)));
    assert!(matches!(cursor("f(11, b=2, )", 11), CallCursor::Positional(2)));
    assert!(matches!(cursor("f(11, b=2)", 6), CallCursor::Keyword(ref name) if name == "b"));
    // Unpacking a dict has no name to match on.
    assert!(matches!(cursor("f(11, **b)", 7), CallCursor::Positional(1)));
    assert!(matches!(cursor("f(11, 22)", 0), CallCursor::Positional(0)));
}

#[test]
fn keywords_go_past_positional_only_parameters_to_kwargs() {
    let mut session = new_session();
    let f = add_function(&mut session, "f", &[
        ("a", ArgumentType::PosOnly), ("args", ArgumentType::Vararg), ("k", ArgumentType::KwordOnly), ("kw", ArgumentType::Kwarg),
    ], false, None);
    let active = |text: &str, offset: u32| active_parameter_label(&help(&session, text, vec![callable(f, None)], offset).unwrap());
    assert_eq!(help(&session, "f()", vec![callable(f, None)], 2).unwrap().signatures[0].label, "f(a, *args, k, **kw) -> Any");
    assert_eq!(active("f(k=1)", 2).as_deref(), Some("k"));
    assert_eq!(active("f(a=1)", 2).as_deref(), Some("**kw"));
    assert_eq!(active("f(args=1)", 2).as_deref(), Some("**kw"));
    assert_eq!(active("f(other=1)", 2).as_deref(), Some("**kw"));
    // A third positional argument cannot go to a keyword-only parameter.
    assert_eq!(active("f(1, 2, 3)", 8).as_deref(), Some("*args"));
    let g = add_function(&mut session, "g", &[("a", ArgumentType::Arg), ("k", ArgumentType::KwordOnly)], false, None);
    let none = help(&session, "g(1, 2)", vec![callable(g, None)], 5).unwrap();
    assert_eq!(none.active_parameter, None);
    let none = help(&session, "g(z=2)", vec![callable(g, None)], 2).unwrap();
    assert_eq!(none.active_parameter, None);
}

#[test]
fn label_offsets_are_utf16_code_units() {
    let mut session = new_session();
    let f = add_function(&mut session, "f\u{1F600}", &[("\u{e9}", ArgumentType::Arg), ("\u{1F600}", ArgumentType::Arg), ("b", ArgumentType::Arg)], false, None);
    let signature = help(&session, "f()", vec![callable(f, None)], 2).unwrap().signatures.remove(0);
    assert_eq!(signature.label, "f\u{1F600}(\u{e9}, \u{1F600}, b) -> Any");
    let offsets: Vec<(u32, u32)> = signature.parameters.iter().map(|offsets| (offsets.start, offsets.end)).collect();
    assert_eq!(offsets, vec![(4, 5), (7, 9), (11, 12)]);
    let labels: Vec<String> = (0..3).map(|index| parameter_label(&signature, index)).collect();
    assert_eq!(labels, vec!["\u{e9}", "\u{1F600}", "b"]);
}

#[test]
fn a_class_is_called_through_its_constructor() {
    let mut session = new_session();
    let init = add_function(&mut session, "__init__", &[("self", ArgumentType::Arg), ("a", ArgumentType::Arg)], false, None);
    let other = add_symbol(&mut session, "x", SymbolData::Other);
    let member = |name: &str, kind: MemberKind, key: SymbolKey| Member { name: name.to_string(), kind, symbols: vec![key] };
    let class = |members: Vec<Member>| SymbolData::Class(ClassSymbol { tree: vec![], is_field_class: false, content: vec![], members });
    let spam = add_symbol(&mut session, "Spam", class(vec![member("__init__", MemberKind::Field, other), member("__init__", MemberKind::Method, init)]));
    let plain = add_symbol(&mut session, "Plain", class(vec![]));
    let odd = add_symbol(&mut session, "Odd", class(vec![member("__init__", MemberKind::Method, other)]));
    let value = Callable {
        symbol: EvaluationSymbolPtr::Weak { weak: spam, comodel_name: None, is_attr_of_instance: Some(false) },
        inferred: TypeInfo::Value("Spam".to_string()),
    };
    let found = help(&session, "Spam()", vec![value], 5).unwrap();
    assert_eq!(found.signatures[0].label, "__init__(a) -> Spam");
    // A class without a constructor, one whose constructor is no function, and what is no callable.
    let unknown = Callable { symbol: EvaluationSymbolPtr::Other, inferred: TypeInfo::Value("x".to_string()) };
    let gone = callable(SymbolKey { index: 1000 }, None);
    let none = help(&session, "Plain()", vec![callable(plain, None), callable(odd, None), callable(other, None), unknown, gone], 6);
    assert!(none.is_none());
}

#[test]
fn equal_signatures_are_answered_once() {
    let mut session = new_session();
    let foo = add_function(&mut session, "foo", &[("a", ArgumentType::Arg)], false, None);
    let same = add_function(&mut session, "foo", &[("a", ArgumentType::Arg)], false, None);
    let other = add_function(&mut session, "foo", &[("a", ArgumentType::Arg)], false, Some("doc"));
    let found = help(&session, "foo()", vec![callable(foo, None), callable(same, None), callable(other, None), callable(foo, None)], 4).unwrap();
    let docs: Vec<Option<&str>> = found.signatures.iter().map(|signature| signature.documentation.as_deref()).collect();
    assert_eq!(docs, vec![None, Some("doc")]);
}

#[test]
fn a_static_method_keeps_its_first_parameter() {
    let mut session = new_session();
    let f = add_function(&mut session, "f", &[("a", ArgumentType::Arg)], true, None);
    let bare = add_function(&mut session, "bare", &[], false, None);
    assert_eq!(help(&session, "f()", vec![callable(f, Some(true))], 2).unwrap().signatures[0].label, "f(a) -> Any");
    assert_eq!(help(&session, "f()", vec![callable(bare, Some(true))], 2).unwrap().signatures[0].label, "bare() -> Any");
}

#[test]
fn a_parameter_whose_symbol_is_gone_has_no_name() {
    let (mut session, foo) = foo_session();
    let found = match &session.st.symbols[foo.index] {
        Some(Symbol { data: SymbolData::Function(function), .. }) => function.args[0].symbol,
        _ => panic!("no function"),
    };
    session.st.symbols[found.index] = None;
    let answer = help(&session, "foo(a=2)", vec![callable(foo, None)], 4).unwrap();
    assert_eq!(answer.signatures[0].label, "foo(a, b) -> Any");
    assert_eq!(answer.active_parameter, None);
}
