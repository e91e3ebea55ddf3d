//! What holds of signature help: which argument the cursor is on, which parameter that is, and what a
//! signature says.
use vstd::prelude::*;

use crate::lookup_laws::{data_at, in_sight, is_there, lemma_same_filter};
use crate::seqs::{first_index, lemma_filter_place, lemma_first_index, lemma_is_first_index};
use crate::signature_help::{
    active_index, answered, callable_signature, called_function, cursor_at, displayed_args,
    help_of, is_arg_at, is_closed_before, is_constructor, is_keyword_at, is_of_type,
    keyword_spans, label_with, offsets_delimit_parameters, signature_of, signatures_of,
    takes_keyword, ArgumentSpan, CallExpr, CallKeyword, Callable, CursorView, DisplayedView,
    LabelOffsets, TypeInfo,
};
use crate::symbols::{
    ArgumentType, EvaluationSymbolPtr, FunctionSymbol, Member, MemberKind, ModuleKey, SymbolKey,
    SymbolTable,
};
use crate::text::utf16_units;

verus! {

/// Whether the cursor is on an argument, its ends included.
pub open spec fn is_on_span(span: ArgumentSpan, offset: u32) -> bool {
    span.start <= offset && offset <= span.end
}

/// Whether the cursor is on no positional argument.
pub open spec fn is_on_no_positional(call: CallExpr, offset: u32) -> bool {
    forall|i: int| 0 <= i < call.args@.len() ==> !is_on_span(#[trigger] call.args@[i], offset)
}

/// Whether keyword argument `k` is the first that the cursor is on.
pub open spec fn is_on_keyword(call: CallExpr, offset: u32, k: int) -> bool {
    &&& 0 <= k < call.keywords@.len()
    &&& is_on_span(call.keywords@[k].span, offset)
    &&& forall|j: int| 0 <= j < k ==> !is_on_span((#[trigger] call.keywords@[j]).span, offset)
}

proof fn lemma_no_positional(call: CallExpr, offset: u32)
    requires
        is_on_no_positional(call, offset),
    ensures
        first_index(call.args@, is_arg_at(offset)) == call.args@.len(),
{
    let accepts = is_arg_at(offset);
    assert forall|j: int| 0 <= j < call.args@.len() implies !accepts(#[trigger] call.args@[j]) by {
        assert(!is_on_span(call.args@[j], offset));
    }
    lemma_is_first_index(call.args@, accepts, call.args@.len() as int);
}

/// On a positional argument, the cursor is on the position of the first that holds it.
pub proof fn cursor_on_a_positional_is_at_its_position(call: CallExpr, offset: u32, i: int)
    requires
        0 <= i < call.args@.len(),
        i <= usize::MAX,
        is_on_span(call.args@[i], offset),
        forall|j: int| 0 <= j < i ==> !is_on_span(#[trigger] call.args@[j], offset),
    ensures
        cursor_at(call, offset) == CursorView::Positional(i as usize),
{
    let accepts = is_arg_at(offset);
    assert forall|j: int| 0 <= j < i implies !accepts(#[trigger] call.args@[j]) by {
        assert(!is_on_span(call.args@[j], offset));
    }
    lemma_is_first_index(call.args@, accepts, i);
}

/// On a keyword argument, the cursor is on the keyword of that argument's own name; where it unpacks a
/// dict, on the position after the positional arguments.
pub proof fn cursor_on_a_keyword_is_on_its_name(call: CallExpr, offset: u32, k: int)
    requires
        is_on_no_positional(call, offset),
        is_on_keyword(call, offset, k),
    ensures
        call.keywords@[k].arg matches Some(name) ==> cursor_at(call, offset)
            == CursorView::Keyword(name@),
        call.keywords@[k].arg is None ==> cursor_at(call, offset) == CursorView::Positional(
            call.args@.len() as usize,
        ),
{
    lemma_no_positional(call, offset);
    let accepts = is_keyword_at(offset);
    assert forall|j: int| 0 <= j < k implies !accepts(#[trigger] call.keywords@[j]) by {
        assert(!is_on_span(call.keywords@[j].span, offset));
    }
    lemma_is_first_index(call.keywords@, accepts, k);
}

/// Between arguments, the cursor is on the position after those, positional or not, that end before
/// it.
pub proof fn cursor_between_arguments_counts_those_before(call: CallExpr, offset: u32)
    requires
        call.wf(),
        is_on_no_positional(call, offset),
        forall|k: int|
            0 <= k < call.keywords@.len() ==> !is_on_span(
                (#[trigger] call.keywords@[k]).span,
                offset,
            ),
    ensures
        cursor_at(call, offset) == CursorView::Positional(
            (call.args@.filter(|span: ArgumentSpan| span.end < offset).len()
                + call.keywords@.filter(
                |keyword: CallKeyword| keyword.span.end < offset,
            ).len()) as usize,
        ),
{
    lemma_no_positional(call, offset);
    let accepts = is_keyword_at(offset);
    assert forall|j: int| 0 <= j < call.keywords@.len() implies !accepts(
        #[trigger] call.keywords@[j],
    ) by {
        assert(!is_on_span(call.keywords@[j].span, offset));
    }
    lemma_is_first_index(call.keywords@, accepts, call.keywords@.len() as int);
    lemma_same_filter(
        call.args@,
        is_closed_before(offset),
        |span: ArgumentSpan| span.end < offset,
    );
    lemma_closed_keywords(call.keywords@, offset);
}

proof fn lemma_closed_keywords(keywords: Seq<CallKeyword>, offset: u32)
    ensures
        keyword_spans(keywords).filter(is_closed_before(offset)).len() == keywords.filter(
            |keyword: CallKeyword| keyword.span.end < offset,
        ).len(),
    decreases keywords.len(),
{
    reveal(Seq::filter);
    if keywords.len() > 0 {
        lemma_closed_keywords(keywords.drop_last(), offset);
        assert(keyword_spans(keywords).drop_last() =~= keyword_spans(keywords.drop_last()));
        assert(keyword_spans(keywords).last() == keywords.last().span);
    }
}

/// Whether a parameter takes a keyword argument of a name: it has the name, and is none that is
/// positional only or takes the positions left over.
pub open spec fn takes_name(arg: DisplayedView, name: Seq<char>) -> bool {
    &&& arg.name == name
    &&& arg.arg_type == ArgumentType::Arg || arg.arg_type == ArgumentType::KwordOnly
        || arg.arg_type == ArgumentType::Kwarg
}

/// A positional argument is that of the parameter at its position, unless that takes keywords alone.
pub proof fn positions_are_those_of_parameters(args: Seq<DisplayedView>, index: usize)
    requires
        index < args.len(),
        args[index as int].arg_type == ArgumentType::PosOnly || args[index as int].arg_type
            == ArgumentType::Arg || args[index as int].arg_type == ArgumentType::Vararg,
    ensures
        active_index(args, CursorView::Positional(index)) == Some(index as int),
{
}

/// A positional argument past the parameters, or at one that takes keywords alone, is that of the first
/// `*args`, and of nothing when there is none.
pub proof fn positions_past_the_parameters_are_of_varargs(args: Seq<DisplayedView>, index: usize)
    requires
        index >= args.len() || args[index as int].arg_type == ArgumentType::KwordOnly
            || args[index as int].arg_type == ArgumentType::Kwarg,
    ensures
        forall|v: int|
            0 <= v < args.len() && (#[trigger] args[v]).arg_type == ArgumentType::Vararg && (
            forall|j: int| 0 <= j < v ==> (#[trigger] args[j]).arg_type != ArgumentType::Vararg)
                ==> active_index(args, CursorView::Positional(index)) == Some(v),
        (forall|j: int| 0 <= j < args.len() ==> (#[trigger] args[j]).arg_type
            != ArgumentType::Vararg) ==> active_index(args, CursorView::Positional(index)) is None,
{
    lemma_first_of_type(args, ArgumentType::Vararg);
}

proof fn lemma_first_of_type(args: Seq<DisplayedView>, arg_type: ArgumentType)
    ensures
        forall|v: int|
            0 <= v < args.len() && (#[trigger] args[v]).arg_type == arg_type && (forall|j: int|
                0 <= j < v ==> (#[trigger] args[j]).arg_type != arg_type) ==> first_index(
                args,
                is_of_type(arg_type),
            ) == v,
        (forall|j: int| 0 <= j < args.len() ==> (#[trigger] args[j]).arg_type != arg_type)
            ==> first_index(args, is_of_type(arg_type)) == args.len(),
{
    let accepts = is_of_type(arg_type);
    assert forall|v: int|
        0 <= v < args.len() && (#[trigger] args[v]).arg_type == arg_type && (forall|j: int|
            0 <= j < v ==> (#[trigger] args[j]).arg_type != arg_type) implies first_index(
        args,
        accepts,
    ) == v by {
        lemma_is_first_index(args, accepts, v);
    }
    if forall|j: int| 0 <= j < args.len() ==> (#[trigger] args[j]).arg_type != arg_type {
        lemma_is_first_index(args, accepts, args.len() as int);
    }
}

/// A keyword argument is that of the first parameter that takes its name, wherever it stands; of the
/// first `**kwargs` when there is none; and of nothing when there is neither.
pub proof fn keywords_are_those_of_their_parameter(args: Seq<DisplayedView>, name: Seq<char>)
    ensures
        forall|p: int|
            0 <= p < args.len() && takes_name(#[trigger] args[p], name) && (forall|j: int|
                0 <= j < p ==> !takes_name(#[trigger] args[j], name)) ==> active_index(
                args,
                CursorView::Keyword(name),
            ) == Some(p),
        forall|v: int|
            0 <= v < args.len() && (#[trigger] args[v]).arg_type == ArgumentType::Kwarg && (forall|
                j: int,
            |
                0 <= j < v ==> (#[trigger] args[j]).arg_type != ArgumentType::Kwarg) && (forall|
                j: int,
            |
                0 <= j < args.len() ==> !takes_name(#[trigger] args[j], name)) ==> active_index(
                args,
                CursorView::Keyword(name),
            ) == Some(v),
        (forall|j: int|
            0 <= j < args.len() ==> (#[trigger] args[j]).arg_type != ArgumentType::Kwarg
                && !takes_name(args[j], name)) ==> active_index(
            args,
            CursorView::Keyword(name),
        ) is None,
{
    let accepts = takes_keyword(name);
    lemma_first_of_type(args, ArgumentType::Kwarg);
    assert forall|p: int|
        0 <= p < args.len() && takes_name(#[trigger] args[p], name) && (forall|j: int|
            0 <= j < p ==> !takes_name(#[trigger] args[j], name)) implies active_index(
        args,
        CursorView::Keyword(name),
    ) == Some(p) by {
        assert forall|j: int| 0 <= j < p implies !accepts(#[trigger] args[j]) by {
            assert(!takes_name(args[j], name));
        }
        lemma_is_first_index(args, accepts, p);
    }
    if forall|j: int| 0 <= j < args.len() ==> !takes_name(#[trigger] args[j], name) {
        assert forall|j: int| 0 <= j < args.len() implies !accepts(#[trigger] args[j]) by {
            assert(!takes_name(args[j], name));
        }
        lemma_is_first_index(args, accepts, args.len() as int);
    }
}

/// The cursor on a keyword argument highlights the parameter that takes its name.
pub proof fn keyword_under_the_cursor_is_highlighted(
    call: CallExpr,
    offset: u32,
    k: int,
    args: Seq<DisplayedView>,
    p: int,
)
    requires
        is_on_no_positional(call, offset),
        is_on_keyword(call, offset, k),
        call.keywords@[k].arg is Some,
        0 <= p < args.len(),
        p <= u32::MAX,
        takes_name(args[p], call.keywords@[k].arg->0@),
        forall|j: int| 0 <= j < p ==> !takes_name(#[trigger] args[j], call.keywords@[k].arg->0@),
    ensures
        answered(active_index(args, cursor_at(call, offset))) == Some(p as u32),
{
    cursor_on_a_keyword_is_on_its_name(call, offset, k);
    keywords_are_those_of_their_parameter(args, call.keywords@[k].arg->0@);
}

/// The cursor on a positional argument highlights the parameter at its position.
pub proof fn positional_under_the_cursor_is_highlighted(
    call: CallExpr,
    offset: u32,
    i: int,
    args: Seq<DisplayedView>,
)
    requires
        0 <= i < call.args@.len(),
        i <= u32::MAX,
        is_on_span(call.args@[i], offset),
        forall|j: int| 0 <= j < i ==> !is_on_span(#[trigger] call.args@[j], offset),
        i < args.len(),
        args[i].arg_type == ArgumentType::PosOnly || args[i].arg_type == ArgumentType::Arg
            || args[i].arg_type == ArgumentType::Vararg,
    ensures
        answered(active_index(args, cursor_at(call, offset))) == Some(i as u32),
{
    cursor_on_a_positional_is_at_its_position(call, offset, i);
    positions_are_those_of_parameters(args, i as usize);
}

/// The parameters of a function are displayed in order, each with the name of its symbol and its
/// presentation behind the stars of its kind. On an instance the first one is bound and left out, but
/// for a static function.
pub proof fn parameters_are_displayed_in_order(
    st: SymbolTable,
    function: FunctionSymbol,
    is_on_instance: bool,
    i: int,
)
    requires
        0 <= i < displayed_args(st, function, is_on_instance).len(),
    ensures
        ({
            let args = displayed_args(st, function, is_on_instance);
            let bound: int = if is_on_instance && !function.is_static && function.args@.len() > 0 {
                1
            } else {
                0
            };
            let arg = function.args@[i + bound];
            let shown = args[i];
            &&& args.len() + bound == function.args@.len()
            &&& shown.arg_type == arg.arg_type
            &&& is_there(st, arg.symbol) ==> shown.name
                == st.symbols@[arg.symbol.index as int]->0.name@
            &&& !is_there(st, arg.symbol) ==> shown.name.len() == 0
            &&& arg.arg_type == ArgumentType::Vararg ==> shown.label == seq!['*']
                + arg.presentation@
            &&& arg.arg_type == ArgumentType::Kwarg ==> shown.label == seq!['*', '*']
                + arg.presentation@
            &&& arg.arg_type != ArgumentType::Vararg && arg.arg_type != ArgumentType::Kwarg
                ==> shown.label == arg.presentation@
        }),
{
    reveal_strlit("*");
    reveal_strlit("**");
    assert("*"@ =~= seq!['*']);
    assert("**"@ =~= seq!['*', '*']);
}

/// A bound parameter alone is displayed as none.
pub proof fn bound_parameters_are_not_displayed(
    st: SymbolTable,
    function: FunctionSymbol,
    is_on_instance: bool,
)
    ensures
        is_on_instance && !function.is_static && function.args@.len() > 0 ==> displayed_args(
            st,
            function,
            is_on_instance,
        ).len() == function.args@.len() - 1,
        !is_on_instance || function.is_static ==> displayed_args(
            st,
            function,
            is_on_instance,
        ).len() == function.args@.len(),
{
}

/// Labels of parameters with a comma and a blank between them.
pub open spec fn listed(args: Seq<DisplayedView>) -> Seq<char>
    decreases args.len(),
{
    if args.len() == 0 {
        Seq::empty()
    } else if args.len() == 1 {
        args[0].label
    } else {
        args[0].label + seq![',', ' '] + listed(args.drop_first())
    }
}

proof fn lemma_listed_push(args: Seq<DisplayedView>, arg: DisplayedView)
    ensures
        args.len() == 0 ==> listed(args.push(arg)) == arg.label,
        args.len() > 0 ==> listed(args.push(arg)) == listed(args) + seq![',', ' '] + arg.label,
    decreases args.len(),
{
    if args.len() > 0 {
        let rest = args.drop_first();
        assert(args.push(arg).drop_first() =~= rest.push(arg));
        lemma_listed_push(rest, arg);
        if args.len() == 1 {
            assert(listed(args.push(arg)) =~= listed(args) + seq![',', ' '] + arg.label);
        } else {
            assert(listed(args.push(arg)) =~= listed(args) + seq![',', ' '] + arg.label);
        }
    }
}

proof fn lemma_label(name: Seq<char>, args: Seq<DisplayedView>, count: int)
    requires
        0 <= count <= args.len(),
    ensures
        label_with(name, args, count) == name + seq!['('] + listed(args.take(count)),
    decreases count,
{
    reveal_strlit("(");
    reveal_strlit(", ");
    assert("("@ =~= seq!['(']);
    assert(", "@ =~= seq![',', ' ']);
    if count == 0 {
        assert(name + seq!['('] + listed(args.take(0)) =~= name + seq!['(']);
    } else {
        let shorter = args.take(count - 1);
        lemma_label(name, args, count - 1);
        lemma_listed_push(shorter, args[count - 1]);
        assert(args.take(count) =~= shorter.push(args[count - 1]));
        assert(label_with(name, args, count) =~= name + seq!['('] + listed(args.take(count)));
    }
}

/// A signature reads `name(parameters) -> type`, its parameters with a comma between them, the type
/// being what the call returns or, for a value, its own. It has the doc string of the function, and
/// highlights the parameter under the cursor.
pub proof fn signatures_read_as_a_call(
    st: SymbolTable,
    name: Seq<char>,
    function: FunctionSymbol,
    inferred: TypeInfo,
    is_on_instance: bool,
    cursor: CursorView,
)
    ensures
        ({
            let args = displayed_args(st, function, is_on_instance);
            let signature = signature_of(st, name, function, inferred, is_on_instance, cursor);
            let returned = match inferred {
                TypeInfo::Callable { return_types } => return_types@,
                TypeInfo::Value(value) => value@,
            };
            &&& signature.label == name + seq!['('] + listed(args) + seq![')', ' ', '-', '>', ' ']
                + returned
            &&& function.doc_string matches Some(doc) ==> signature.documentation == Some(doc@)
            &&& function.doc_string is None ==> signature.documentation is None
            &&& signature.parameters.len() == args.len()
            &&& match active_index(args, cursor) {
                Some(index) => signature.active_parameter == Some(index as usize as u32),
                None => signature.active_parameter is None,
            }
        }),
{
    let args = displayed_args(st, function, is_on_instance);
    reveal_strlit(") -> ");
    assert(") -> "@ =~= seq![')', ' ', '-', '>', ' ']);
    lemma_label(name, args, args.len() as int);
    assert(args.take(args.len() as int) =~= args);
}

/// Whether offsets, in UTF-16 units, delimit a part of a label.
pub open spec fn delimit(label: Seq<char>, offsets: LabelOffsets, part: Seq<char>, start: int) -> bool {
    &&& 0 <= start
    &&& start + part.len() <= label.len()
    &&& label.subrange(start, start + part.len()) == part
    &&& utf16_units(label.take(start)) == offsets.start
    &&& utf16_units(label.take(start + part.len())) == offsets.end
}

/// The offsets of each parameter delimit its own label in that of the signature, after those of the
/// parameters before it.
pub proof fn parameters_are_delimited(
    st: SymbolTable,
    name: Seq<char>,
    function: FunctionSymbol,
    inferred: TypeInfo,
    is_on_instance: bool,
    cursor: CursorView,
    i: int,
)
    requires
        0 <= i < displayed_args(st, function, is_on_instance).len(),
        utf16_units(
            signature_of(st, name, function, inferred, is_on_instance, cursor).label,
        ) <= u32::MAX,
    ensures
        ({
            let args = displayed_args(st, function, is_on_instance);
            let signature = signature_of(st, name, function, inferred, is_on_instance, cursor);
            delimit(
                signature.label,
                signature.parameters[i],
                args[i].label,
                (name + seq!['('] + listed(args.take(i))).len() + if i == 0 {
                    0int
                } else {
                    2
                },
            )
        }),
{
    let args = displayed_args(st, function, is_on_instance);
    let signature = signature_of(st, name, function, inferred, is_on_instance, cursor);
    let whole = label_with(name, args, args.len() as int);
    let rest = signature.label.skip(whole.len() as int);
    assert(signature.label =~= whole + rest);
    offsets_delimit_parameters(name, args, rest, i);
    lemma_label(name, args, i);
    reveal_strlit(", ");
    assert(", "@.len() == 2);
    reveal_strlit("(");
    assert("("@ =~= seq!['(']);
    if i == 0 {
        assert(args.take(0).len() == 0);
        assert(listed(args.take(0)).len() == 0);
    }
}

/// A character takes one UTF-16 unit, or two beyond the first plane; a text as many as its characters.
pub proof fn units_of_characters(text: Seq<char>, c: char)
    ensures
        utf16_units(Seq::empty()) == 0,
        (c as u32) < 0x10000 ==> utf16_units(text.push(c)) == utf16_units(text) + 1,
        (c as u32) >= 0x10000 ==> utf16_units(text.push(c)) == utf16_units(text) + 2,
{
    assert(text.push(c).drop_last() =~= text);
}

/// Whether a member is a method named `__init__`.
pub open spec fn is_init(member: Member) -> bool {
    let name = member.name@;
    &&& member.kind == MemberKind::Method
    &&& name == seq!['_', '_', 'i', 'n', 'i', 't', '_', '_']
}

/// A callable that is a function runs that function, on an instance when it is an attribute of one. A
/// class runs, on an instance, the first symbol in sight of its first method named `__init__`, and
/// nothing when there is none. Nothing else runs anything.
pub proof fn callables_run_functions_and_constructors(
    st: SymbolTable,
    from_module: Option<ModuleKey>,
    symbol: EvaluationSymbolPtr,
)
    ensures
        symbol is Other ==> called_function(st, from_module, symbol) is None,
        symbol matches EvaluationSymbolPtr::Weak { weak, .. } ==> {
            &&& !is_there(st, weak) ==> called_function(st, from_module, symbol) is None
            &&& is_there(st, weak) && !(data_at(st, weak) is Function) && !(data_at(
                st,
                weak,
            ) is Class) ==> called_function(st, from_module, symbol) is None
        },
        symbol matches EvaluationSymbolPtr::Weak { weak, is_attr_of_instance, .. } ==> (is_there(
            st,
            weak,
        ) && data_at(st, weak) is Function ==> called_function(st, from_module, symbol) == Some(
            (weak, is_attr_of_instance == Some(true)),
        )),
        symbol matches EvaluationSymbolPtr::Weak { weak, .. } ==> (is_there(st, weak) && data_at(
            st,
            weak,
        ) is Class ==> {
            let members = data_at(st, weak)->Class_0.members@;
            &&& (forall|m: int| 0 <= m < members.len() ==> !is_init(#[trigger] members[m]))
                ==> called_function(st, from_module, symbol) is None
            &&& forall|m: int|
                0 <= m < members.len() && is_init(#[trigger] members[m]) && (forall|j: int|
                    0 <= j < m ==> !is_init(#[trigger] members[j])) ==> runs_first_in_sight(
                    st,
                    from_module,
                    members[m].symbols@,
                    called_function(st, from_module, symbol),
                )
        }),
{
    if let EvaluationSymbolPtr::Weak { weak, .. } = symbol {
        if is_there(st, weak) && data_at(st, weak) is Class {
            let members = data_at(st, weak)->Class_0.members@;
            let accepts = is_constructor();
            reveal_strlit("__init__");
            assert("__init__"@ =~= seq!['_', '_', 'i', 'n', 'i', 't', '_', '_']);
            assert forall|member: Member| #[trigger] accepts(member) == is_init(member) by {}
            if forall|m: int| 0 <= m < members.len() ==> !is_init(#[trigger] members[m]) {
                assert forall|j: int| 0 <= j < members.len() implies !accepts(
                    #[trigger] members[j],
                ) by {
                    assert(!is_init(members[j]));
                }
                lemma_is_first_index(members, accepts, members.len() as int);
            }
            assert forall|m: int|
                0 <= m < members.len() && is_init(#[trigger] members[m]) && (forall|j: int|
                    0 <= j < m ==> !is_init(#[trigger] members[j])) implies runs_first_in_sight(
                st,
                from_module,
                members[m].symbols@,
                called_function(st, from_module, symbol),
            ) by {
                assert forall|j: int| 0 <= j < m implies !accepts(#[trigger] members[j]) by {
                    assert(!is_init(members[j]));
                }
                lemma_is_first_index(members, accepts, m);
                lemma_first_in_sight(st, from_module, members[m].symbols@);
            }
        }
    }
}

/// Whether the first of the symbols that is in sight is run on an instance, or nothing when none is.
pub open spec fn runs_first_in_sight(
    st: SymbolTable,
    from_module: Option<ModuleKey>,
    keys: Seq<SymbolKey>,
    run: Option<(SymbolKey, bool)>,
) -> bool {
    match run {
        Some((key, is_on_instance)) => is_on_instance && exists|k: int|
            0 <= k < keys.len() && #[trigger] keys[k] == key && in_sight(st, key, from_module)
                && forall|j: int|
                0 <= j < k ==> !in_sight(st, #[trigger] keys[j], from_module),
        None => forall|k: int|
            0 <= k < keys.len() ==> !in_sight(st, #[trigger] keys[k], from_module),
    }
}

proof fn lemma_first_in_sight(
    st: SymbolTable,
    from_module: Option<ModuleKey>,
    keys: Seq<SymbolKey>,
)
    ensures
        ({
            let seen = st.visible_keys(keys, from_module);
            runs_first_in_sight(
                st,
                from_module,
                keys,
                if seen.len() > 0 {
                    Some((seen[0], true))
                } else {
                    None
                },
            )
        }),
{
    let seen = st.visible_keys(keys, from_module);
    let accepts = st.visibility(from_module);
    assert forall|key: SymbolKey| #[trigger] accepts(key) == in_sight(st, key, from_module) by {
        crate::lookup_laws::modules_see_their_dependencies(st, key, from_module);
    }
    lemma_first_index(keys, accepts);
    let k = first_index(keys, accepts) as int;
    assert forall|j: int| 0 <= j < k implies !in_sight(st, #[trigger] keys[j], from_module) by {
        assert(!accepts(keys[j]));
    }
    if k < keys.len() {
        lemma_filter_place(keys, accepts, k);
        assert forall|j: int| 0 <= j < keys.take(k).len() implies !accepts(
            #[trigger] keys.take(k)[j],
        ) by {
            assert(keys.take(k)[j] == keys[j]);
        }
        crate::seqs::lemma_filter_none(keys.take(k), accepts);
        assert(accepts(keys[k]));
        assert(seen[0] == keys[k]);
    } else {
        crate::seqs::lemma_filter_none(keys, accepts);
    }
}

/// A callable has a signature when what it runs is a function that is there: that of the function under
/// its own name, with what is inferred of the callable.
pub proof fn callables_have_the_signature_of_what_they_run(
    st: SymbolTable,
    from_module: Option<ModuleKey>,
    callable: Callable,
    cursor: CursorView,
)
    ensures
        called_function(st, from_module, callable.symbol) is None ==> callable_signature(
            st,
            from_module,
            callable,
            cursor,
        ) is None,
        called_function(st, from_module, callable.symbol) matches Some((key, is_on_instance)) ==> {
            &&& !is_there(st, key) || !(data_at(st, key) is Function) ==> callable_signature(
                st,
                from_module,
                callable,
                cursor,
            ) is None
            &&& is_there(st, key) && data_at(st, key) is Function ==> callable_signature(
                st,
                from_module,
                callable,
                cursor,
            ) == Some(
                signature_of(
                    st,
                    st.symbols@[key.index as int]->0.name@,
                    data_at(st, key)->Function_0,
                    callable.inferred,
                    is_on_instance,
                    cursor,
                ),
            )
        },
{
}

/// Signatures come in the order of the callables: more callables add theirs behind, and leave the
/// others as they are.
pub proof fn more_callables_add_signatures_behind(
    st: SymbolTable,
    from_module: Option<ModuleKey>,
    callables: Seq<Callable>,
    more: Seq<Callable>,
    cursor: CursorView,
)
    ensures
        signatures_of(st, from_module, callables, cursor).is_prefix_of(
            signatures_of(st, from_module, callables + more, cursor),
        ),
    decreases more.len(),
{
    let first = signatures_of(st, from_module, callables, cursor);
    let all = signatures_of(st, from_module, callables + more, cursor);
    if more.len() == 0 {
        assert(callables + more =~= callables);
        assert(first =~= all.take(first.len() as int));
    } else {
        let shorter = more.drop_last();
        more_callables_add_signatures_behind(st, from_module, callables, shorter, cursor);
        assert((callables + more).drop_last() =~= callables + shorter);
        let rest = signatures_of(st, from_module, callables + shorter, cursor);
        assert(first =~= rest.take(first.len() as int));
        assert(rest =~= all.take(rest.len() as int));
        assert(first =~= all.take(first.len() as int));
    }
}

/// Help is given when any callable has a signature; the first signature is the active one, and lends
/// its parameter to the whole.
pub proof fn help_activates_the_first_signature(
    st: SymbolTable,
    from_module: Option<ModuleKey>,
    call: CallExpr,
    offset: u32,
)
    ensures
        ({
            let signatures = signatures_of(
                st,
                from_module,
                call.callables@,
                cursor_at(call, offset),
            );
            match help_of(st, from_module, call, offset) {
                Some(help) => {
                    &&& help.signatures == signatures
                    &&& signatures.len() > 0
                    &&& help.active_signature == Some(0u32)
                    &&& help.active_parameter == signatures[0].active_parameter
                },
                None => signatures.len() == 0,
            }
        }),
{
}

} // verus!
