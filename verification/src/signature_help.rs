//! Signature help: the signatures of the call under the cursor, and the parameter the cursor is on.
use vstd::prelude::*;

use crate::seqs::{
    first_index, first_match, lemma_filter_step, lemma_first_index, lemma_is_first_index,
};
use crate::symbols::{
    Argument, ArgumentType, EvaluationSymbolPtr, FunctionSymbol, Member, MemberKind, ModuleKey,
    SessionInfo, SymbolData, SymbolKey, SymbolTable,
};
use crate::text::{lemma_utf16_concat, str_eq, utf16_len, utf16_units};
use crate::xml_lookup::opt_view;
use vstd::string::StringExecFns;

verus! {

/// Where an argument of a call stands in the source.
#[derive(Clone, Copy, PartialEq, Eq, Structural, Debug)]
pub struct ArgumentSpan {
    pub start: u32,
    pub end: u32,
}

/// A keyword argument of a call, without a name when it unpacks a dict.
#[derive(Debug)]
pub struct CallKeyword {
    pub span: ArgumentSpan,
    pub arg: Option<String>,
}

/// What is inferred of a callable: what a call returns, or its own type.
#[derive(Debug)]
pub enum TypeInfo {
    Callable { return_types: String },
    Value(String),
}

/// What the callee of a call evaluates to once references are followed, with what is inferred of it.
#[derive(Debug)]
pub struct Callable {
    pub symbol: EvaluationSymbolPtr,
    pub inferred: TypeInfo,
}

/// A call: its positional arguments, its keyword arguments, and what its callee evaluates to.
#[derive(Debug)]
pub struct CallExpr {
    pub args: Vec<ArgumentSpan>,
    pub keywords: Vec<CallKeyword>,
    pub callables: Vec<Callable>,
}

/// Which parameter of the call the cursor sits on, expressed in call terms.
#[derive(Debug)]
pub enum CallCursor {
    Positional(usize),
    Keyword(String),
}

/// A parameter as displayed in the signature label, matched against [`CallCursor`].
#[derive(Debug)]
pub struct DisplayedArg {
    pub name: String,
    pub arg_type: ArgumentType,
    pub label: String,
}

/// Where a parameter stands in the label of its signature, in UTF-16 code units.
#[derive(Clone, Copy, PartialEq, Eq, Structural, Debug)]
pub struct LabelOffsets {
    pub start: u32,
    pub end: u32,
}

/// A signature, the doc string of its function being markdown.
#[derive(Debug)]
pub struct SignatureInformation {
    pub label: String,
    pub documentation: Option<String>,
    pub parameters: Vec<LabelOffsets>,
    pub active_parameter: Option<u32>,
}

/// The signatures of a call.
#[derive(Debug)]
pub struct SignatureHelp {
    pub signatures: Vec<SignatureInformation>,
    pub active_signature: Option<u32>,
    pub active_parameter: Option<u32>,
}

/// Value of a [`CallCursor`].
pub ghost enum CursorView {
    Positional(usize),
    Keyword(Seq<char>),
}

/// Value of a [`DisplayedArg`].
pub ghost struct DisplayedView {
    pub name: Seq<char>,
    pub arg_type: ArgumentType,
    pub label: Seq<char>,
}

/// Value of a [`SignatureInformation`].
pub ghost struct SignatureView {
    pub label: Seq<char>,
    pub documentation: Option<Seq<char>>,
    pub parameters: Seq<LabelOffsets>,
    pub active_parameter: Option<u32>,
}

/// Value of a [`SignatureHelp`].
pub ghost struct HelpView {
    pub signatures: Seq<SignatureView>,
    pub active_signature: Option<u32>,
    pub active_parameter: Option<u32>,
}

impl View for CallCursor {
    type V = CursorView;

    open spec fn view(&self) -> CursorView {
        match self {
            CallCursor::Positional(index) => CursorView::Positional(*index),
            CallCursor::Keyword(name) => CursorView::Keyword(name@),
        }
    }
}

impl View for DisplayedArg {
    type V = DisplayedView;

    open spec fn view(&self) -> DisplayedView {
        DisplayedView { name: self.name@, arg_type: self.arg_type, label: self.label@ }
    }
}

impl View for SignatureInformation {
    type V = SignatureView;

    open spec fn view(&self) -> SignatureView {
        SignatureView {
            label: self.label@,
            documentation: opt_view(self.documentation),
            parameters: self.parameters@,
            active_parameter: self.active_parameter,
        }
    }
}

/// Values of a sequence of [`SignatureInformation`].
pub open spec fn signatures_view(signatures: Seq<SignatureInformation>) -> Seq<SignatureView> {
    signatures.map_values(|signature: SignatureInformation| signature@)
}

impl View for SignatureHelp {
    type V = HelpView;

    open spec fn view(&self) -> HelpView {
        HelpView {
            signatures: signatures_view(self.signatures@),
            active_signature: self.active_signature,
            active_parameter: self.active_parameter,
        }
    }
}

/// Values of a sequence of [`DisplayedArg`].
pub open spec fn displayed_view(args: Seq<DisplayedArg>) -> Seq<DisplayedView> {
    args.map_values(|arg: DisplayedArg| arg@)
}

impl CallExpr {
    /// Whether the arguments can be counted.
    pub open spec fn wf(self) -> bool {
        self.args@.len() + self.keywords@.len() <= usize::MAX
    }
}

/// Predicate of the arguments that the cursor is on.
pub open spec fn is_arg_at(offset: u32) -> spec_fn(ArgumentSpan) -> bool {
    |span: ArgumentSpan| span.start <= offset <= span.end
}

/// Predicate of the keyword arguments that the cursor is on.
pub open spec fn is_keyword_at(offset: u32) -> spec_fn(CallKeyword) -> bool {
    |keyword: CallKeyword| keyword.span.start <= offset <= keyword.span.end
}

/// Predicate of the arguments that end before the cursor.
pub open spec fn is_closed_before(offset: u32) -> spec_fn(ArgumentSpan) -> bool {
    |span: ArgumentSpan| span.end < offset
}

/// Where keyword arguments stand.
pub open spec fn keyword_spans(keywords: Seq<CallKeyword>) -> Seq<ArgumentSpan> {
    keywords.map_values(|keyword: CallKeyword| keyword.span)
}

/// The parameter the cursor is on, counting closed arguments when it is between two.
pub open spec fn cursor_at(call: CallExpr, offset: u32) -> CursorView {
    let arg = first_index(call.args@, is_arg_at(offset));
    let keyword = first_index(call.keywords@, is_keyword_at(offset));
    if arg < call.args@.len() {
        CursorView::Positional(arg as usize)
    } else if keyword < call.keywords@.len() {
        match opt_view(call.keywords@[keyword as int].arg) {
            Some(name) => CursorView::Keyword(name),
            None => CursorView::Positional(call.args@.len() as usize),
        }
    } else {
        CursorView::Positional(
            (call.args@.filter(is_closed_before(offset)).len() + keyword_spans(
                call.keywords@,
            ).filter(is_closed_before(offset)).len()) as usize,
        )
    }
}

/// `ruff_text_size::TextRange::contains_inclusive` of the range from `start` to `end`: whether
/// `offset` lies in it, both ends included. A range that ends before it starts cannot be made.
#[verifier::external_body]
fn contains_inclusive(start: u32, end: u32, offset: u32) -> (res: bool)
    requires
        start <= end,
    ensures
        res == (start <= offset && offset <= end),
{
    ruff_text_size::TextRange::new(
        ruff_text_size::TextSize::new(start),
        ruff_text_size::TextSize::new(end),
    ).contains_inclusive(ruff_text_size::TextSize::new(offset))
}

/// Signature help.
pub struct SignatureHelpFeature {}

impl SignatureHelpFeature {
    /// Finds the parameter the cursor is on, counting closed arguments when it is between two.
    pub fn locate_cursor(call_expr: &CallExpr, offset: u32) -> (res: CallCursor)
        requires
            call_expr.wf(),
        ensures
            res@ == cursor_at(*call_expr, offset),
    {
        let args = &call_expr.args;
        let keywords = &call_expr.keywords;
        let ghost on_arg = is_arg_at(offset);
        let ghost on_keyword = is_keyword_at(offset);
        let ghost closed = is_closed_before(offset);
        let ghost spans = keyword_spans(keywords@);
        let mut count: usize = 0;
        assert(args@.take(0).filter(closed) =~= Seq::empty()) by {
            reveal(Seq::filter);
        }
        let mut i: usize = 0;
        while i < args.len()
            invariant
                *args == call_expr.args,
                call_expr.wf(),
                i <= args.len(),
                on_arg == is_arg_at(offset),
                closed == is_closed_before(offset),
                forall|j: int| 0 <= j < i ==> !on_arg(#[trigger] args@[j]),
                count == args@.take(i as int).filter(closed).len(),
                count <= i,
            decreases args.len() - i,
        {
            let span = args[i];
            if span.start <= span.end && contains_inclusive(span.start, span.end, offset) {
                proof {
                    lemma_is_first_index(args@, on_arg, i as int);
                }
                return CallCursor::Positional(i);
            }
            proof {
                lemma_filter_step(args@, closed, i as int);
            }
            if span.end < offset {
                count = count + 1;
            }
            i = i + 1;
        }
        proof {
            lemma_is_first_index(args@, on_arg, i as int);
        }
        assert(args@.take(args@.len() as int) =~= args@);
        let ghost closed_args = count as int;
        assert(spans.take(0).filter(closed) =~= Seq::empty()) by {
            reveal(Seq::filter);
        }
        let mut k: usize = 0;
        while k < keywords.len()
            invariant
                *args == call_expr.args,
                *keywords == call_expr.keywords,
                call_expr.wf(),
                k <= keywords.len(),
                on_keyword == is_keyword_at(offset),
                closed == is_closed_before(offset),
                spans == keyword_spans(keywords@),
                first_index(args@, is_arg_at(offset)) == args@.len(),
                closed_args == args@.filter(closed).len(),
                closed_args <= args@.len(),
                forall|j: int| 0 <= j < k ==> !on_keyword(#[trigger] keywords@[j]),
                count == closed_args + spans.take(k as int).filter(closed).len(),
                count <= args@.len() + k,
            decreases keywords.len() - k,
        {
            let keyword = &keywords[k];
            assert(spans[k as int] == keyword.span);
            if keyword.span.start <= keyword.span.end && contains_inclusive(
                keyword.span.start,
                keyword.span.end,
                offset,
            ) {
                proof {
                    lemma_is_first_index(keywords@, on_keyword, k as int);
                }
                return match &keyword.arg {
                    Some(name) => CallCursor::Keyword(name.as_str().to_string()),
                    // dict unpacking, no name to match on
                    None => CallCursor::Positional(args.len()),
                };
            }
            proof {
                lemma_filter_step(spans, closed, k as int);
            }
            if keyword.span.end < offset {
                count = count + 1;
            }
            k = k + 1;
        }
        proof {
            lemma_is_first_index(keywords@, on_keyword, k as int);
        }
        assert(spans.take(spans.len() as int) =~= spans);
        CallCursor::Positional(count)
    }
}

/// Predicate of the displayed parameters of one kind.
pub open spec fn is_of_type(arg_type: ArgumentType) -> spec_fn(DisplayedView) -> bool {
    |arg: DisplayedView| arg.arg_type == arg_type
}

/// Predicate of the displayed parameters that a keyword argument of that name goes to.
pub open spec fn takes_keyword(name: Seq<char>) -> spec_fn(DisplayedView) -> bool {
    |arg: DisplayedView|
        arg.name == name && arg.arg_type != ArgumentType::Vararg && arg.arg_type
            != ArgumentType::PosOnly
}

/// Whether a displayed parameter takes a positional argument of its own.
pub open spec fn takes_position(arg: DisplayedView) -> bool {
    arg.arg_type != ArgumentType::KwordOnly && arg.arg_type != ArgumentType::Kwarg
}

/// An index that is one of a sequence of that length.
pub open spec fn index_in(index: int, len: nat) -> Option<int> {
    if index < len {
        Some(index)
    } else {
        None
    }
}

/// Index of the displayed parameter under the cursor, overflow landing on `*args`/`**kwargs`.
pub open spec fn active_index(args: Seq<DisplayedView>, cursor: CursorView) -> Option<int> {
    match cursor {
        CursorView::Keyword(name) => {
            let named = first_index(args, takes_keyword(name)) as int;
            if named < args.len() {
                Some(named)
            } else {
                index_in(
                    first_index(args, is_of_type(ArgumentType::Kwarg)) as int,
                    args.len(),
                )
            }
        },
        CursorView::Positional(index) => if index < args.len() && takes_position(
            args[index as int],
        ) {
            Some(index as int)
        } else {
            index_in(first_index(args, is_of_type(ArgumentType::Vararg)) as int, args.len())
        },
    }
}

/// Number that an index is answered as.
pub open spec fn answered(index: Option<int>) -> Option<u32> {
    match index {
        Some(index) => Some(index as usize as u32),
        None => None,
    }
}

/// A parameter as displayed.
pub open spec fn displayed(st: SymbolTable, arg: Argument) -> DisplayedView {
    DisplayedView {
        name: match st.symbol_at(arg.symbol) {
            Some(symbol) => symbol.name@,
            None => Seq::empty(),
        },
        arg_type: arg.arg_type,
        label: match arg.arg_type {
            ArgumentType::Vararg => "*"@ + arg.presentation@,
            ArgumentType::Kwarg => "**"@ + arg.presentation@,
            _ => arg.presentation@,
        },
    }
}

/// How many parameters a call leaves out: the bound one (self/cls) is not part of the call.
pub open spec fn skipped(function: FunctionSymbol, is_on_instance: bool) -> nat {
    if is_on_instance && !function.is_static && function.args@.len() > 0 {
        1
    } else {
        0
    }
}

/// The parameters of a function as displayed.
pub open spec fn displayed_args(
    st: SymbolTable,
    function: FunctionSymbol,
    is_on_instance: bool,
) -> Seq<DisplayedView> {
    function.args@.skip(skipped(function, is_on_instance) as int).map_values(
        |arg: Argument| displayed(st, arg),
    )
}

/// The label of a signature up to and with its first `count` parameters.
pub open spec fn label_with(name: Seq<char>, args: Seq<DisplayedView>, count: int) -> Seq<char>
    decreases count, 1int,
{
    if count <= 0 {
        name + "("@
    } else {
        label_before(name, args, count - 1) + args[count - 1].label
    }
}

/// The label of a signature before parameter `index`.
pub open spec fn label_before(name: Seq<char>, args: Seq<DisplayedView>, index: int) -> Seq<char>
    decreases index, 2int,
{
    if index <= 0 {
        name + "("@
    } else {
        label_with(name, args, index) + ", "@
    }
}

/// Where parameter `index` stands in the label of its signature.
pub open spec fn label_offsets(name: Seq<char>, args: Seq<DisplayedView>, index: int) -> LabelOffsets {
    LabelOffsets {
        start: utf16_units(label_before(name, args, index)) as usize as u32,
        end: utf16_units(label_with(name, args, index + 1)) as usize as u32,
    }
}

/// The type that a signature says a call returns. A class evaluates to itself, which is what its
/// `__init__` returns.
pub open spec fn return_type(inferred: TypeInfo) -> Seq<char> {
    match inferred {
        TypeInfo::Callable { return_types } => return_types@,
        TypeInfo::Value(value) => value@,
    }
}

/// The signature of a function.
pub open spec fn signature_of(
    st: SymbolTable,
    name: Seq<char>,
    function: FunctionSymbol,
    inferred: TypeInfo,
    is_on_instance: bool,
    cursor: CursorView,
) -> SignatureView {
    let args = displayed_args(st, function, is_on_instance);
    SignatureView {
        label: label_with(name, args, args.len() as int) + ") -> "@ + return_type(inferred),
        documentation: opt_view(function.doc_string),
        parameters: Seq::new(args.len(), |index: int| label_offsets(name, args, index)),
        active_parameter: answered(active_index(args, cursor)),
    }
}

impl SignatureHelpFeature {
    /// Index of the displayed parameter under the cursor, overflow landing on `*args`/`**kwargs`.
    pub fn active_parameter(args: &Vec<DisplayedArg>, cursor: &CallCursor) -> (res: Option<u32>)
        ensures
            res == answered(active_index(displayed_view(args@), cursor@)),
    {
        let index = match cursor {
            CallCursor::Keyword(name) => match SignatureHelpFeature::position_of_keyword(
                args,
                name.as_str(),
            ) {
                Some(index) => Some(index),
                None => SignatureHelpFeature::position_of(args, ArgumentType::Kwarg),
            },
            CallCursor::Positional(index) => {
                assert(*index < args@.len() ==> displayed_view(args@)[*index as int]
                    == args@[*index as int]@);
                if *index < args.len() && args[*index].arg_type != ArgumentType::KwordOnly
                    && args[*index].arg_type != ArgumentType::Kwarg {
                    Some(*index)
                } else {
                    SignatureHelpFeature::position_of(args, ArgumentType::Vararg)
                }
            },
        };
        match index {
            Some(index) => Some(
                #[verifier::truncate]
                (index as u32),
            ),
            None => None,
        }
    }

    /// Index of the first displayed parameter of a kind.
    fn position_of(args: &Vec<DisplayedArg>, arg_type: ArgumentType) -> (res: Option<usize>)
        ensures
            ({
                let views = displayed_view(args@);
                let found = index_in(
                    first_index(views, is_of_type(arg_type)) as int,
                    views.len(),
                );
                match res {
                    Some(index) => found == Some(index as int),
                    None => found is None,
                }
            }),
    {
        let ghost views = displayed_view(args@);
        let ghost accepts = is_of_type(arg_type);
        let mut i: usize = 0;
        while i < args.len()
            invariant
                i <= args.len(),
                views == displayed_view(args@),
                accepts == is_of_type(arg_type),
                forall|j: int| 0 <= j < i ==> !accepts(#[trigger] views[j]),
            decreases args.len() - i,
        {
            assert(views[i as int] == args@[i as int]@);
            if args[i].arg_type == arg_type {
                proof {
                    lemma_is_first_index(views, accepts, i as int);
                }
                return Some(i);
            }
            i = i + 1;
        }
        proof {
            lemma_is_first_index(views, accepts, i as int);
        }
        None
    }

    /// Index of the displayed parameter that a keyword argument goes to.
    fn position_of_keyword(args: &Vec<DisplayedArg>, name: &str) -> (res: Option<usize>)
        ensures
            ({
                let views = displayed_view(args@);
                let found = index_in(first_index(views, takes_keyword(name@)) as int, views.len());
                match res {
                    Some(index) => found == Some(index as int),
                    None => found is None,
                }
            }),
    {
        let ghost views = displayed_view(args@);
        let ghost accepts = takes_keyword(name@);
        let mut i: usize = 0;
        while i < args.len()
            invariant
                i <= args.len(),
                views == displayed_view(args@),
                accepts == takes_keyword(name@),
                forall|j: int| 0 <= j < i ==> !accepts(#[trigger] views[j]),
            decreases args.len() - i,
        {
            assert(views[i as int] == args@[i as int]@);
            if str_eq(args[i].name.as_str(), name) && args[i].arg_type != ArgumentType::Vararg
                && args[i].arg_type != ArgumentType::PosOnly {
                proof {
                    lemma_is_first_index(views, accepts, i as int);
                }
                return Some(i);
            }
            i = i + 1;
        }
        proof {
            lemma_is_first_index(views, accepts, i as int);
        }
        None
    }

    /// A parameter as displayed.
    pub fn displayed_arg(session: &SessionInfo, arg: &Argument) -> (res: DisplayedArg)
        ensures
            res@ == displayed(session.st, *arg),
    {
        let mut label = match arg.arg_type {
            ArgumentType::Vararg => "*".to_string(),
            ArgumentType::Kwarg => "**".to_string(),
            _ => String::new(),
        };
        label.append(arg.presentation.as_str());
        assert(Seq::<char>::empty() + arg.presentation@ =~= arg.presentation@);
        DisplayedArg {
            name: match session.st.get(arg.symbol) {
                Some(symbol) => symbol.name.as_str().to_string(),
                None => String::new(),
            },
            arg_type: arg.arg_type,
            label,
        }
    }

    /// The signature of a function.
    pub fn build_signature(
        session: &SessionInfo,
        name: &str,
        function: &FunctionSymbol,
        inferred: &TypeInfo,
        is_on_instance: bool,
        cursor: &CallCursor,
    ) -> (res: SignatureInformation)
        ensures
            res@ == signature_of(
                session.st,
                name@,
                *function,
                *inferred,
                is_on_instance,
                cursor@,
            ),
    {
        // The bound argument (self/cls) is not part of the call, hide it.
        let first: usize = if is_on_instance && !function.is_static && function.args.len() > 0 {
            1
        } else {
            0
        };
        let ghost views = displayed_args(session.st, *function, is_on_instance);
        let mut args: Vec<DisplayedArg> = Vec::new();
        let mut parameters: Vec<LabelOffsets> = Vec::new();
        let mut label = name.to_string();
        label.append("(");
        let mut i: usize = first;
        assert(displayed_view(args@) =~= views.take(0));
        while i < function.args.len()
            invariant
                first <= i <= function.args.len(),
                first == skipped(*function, is_on_instance),
                views == displayed_args(session.st, *function, is_on_instance),
                displayed_view(args@) == views.take(i - first),
                label@ == label_with(name@, views, i - first),
                parameters@ == Seq::new(
                    (i - first) as nat,
                    |index: int| label_offsets(name@, views, index),
                ),
            decreases function.args.len() - i,
        {
            let ghost index = i - first;
            let arg = SignatureHelpFeature::displayed_arg(session, &function.args[i]);
            assert(views[index] == arg@);
            if i > first {
                label.append(", ");
            }
            assert(label@ == label_before(name@, views, index));
            let start = utf16_len(label.as_str());
            label.append(arg.label.as_str());
            assert(label@ == label_with(name@, views, index + 1));
            let end = utf16_len(label.as_str());
            let offsets = LabelOffsets {
                start: #[verifier::truncate]
                (start as u32),
                end: #[verifier::truncate]
                (end as u32),
            };
            assert(offsets == label_offsets(name@, views, index));
            let ghost before = args@;
            parameters.push(offsets);
            args.push(arg);
            assert(displayed_view(args@) =~= displayed_view(before).push(arg@));
            assert(views.take(index + 1) =~= views.take(index).push(arg@));
            assert(parameters@ =~= Seq::new(
                (index + 1) as nat,
                |index: int| label_offsets(name@, views, index),
            ));
            i = i + 1;
        }
        assert(views.take(views.len() as int) =~= views);
        label.append(") -> ");
        match inferred {
            TypeInfo::Callable { return_types } => label.append(return_types.as_str()),
            TypeInfo::Value(value) => label.append(value.as_str()),
        }
        SignatureInformation {
            label,
            documentation: match &function.doc_string {
                Some(doc_string) => Some(doc_string.as_str().to_string()),
                None => None,
            },
            parameters,
            active_parameter: SignatureHelpFeature::active_parameter(&args, cursor),
        }
    }
}

/// Predicate of the members that construct an instance.
pub open spec fn is_constructor() -> spec_fn(Member) -> bool {
    |member: Member| member.name@ == "__init__"@ && member.kind == MemberKind::Method
}

/// The symbol that constructs an instance, among the members of a class.
pub open spec fn constructor_of(
    st: SymbolTable,
    from_module: Option<ModuleKey>,
    members: Seq<Member>,
) -> Option<SymbolKey> {
    match first_match(members, is_constructor()) {
        Some(member) => {
            let symbols = st.visible_keys(member.symbols@, from_module);
            if symbols.len() > 0 {
                Some(symbols[0])
            } else {
                None
            }
        },
        None => None,
    }
}

/// The function that a callable runs, and whether it runs on an instance: the constructor of a
/// class, or the function itself.
pub open spec fn called_function(
    st: SymbolTable,
    from_module: Option<ModuleKey>,
    symbol: EvaluationSymbolPtr,
) -> Option<(SymbolKey, bool)> {
    match symbol {
        EvaluationSymbolPtr::Weak { weak, is_attr_of_instance, .. } => match st.symbol_at(weak) {
            Some(callee) => match callee.data {
                SymbolData::Class(class) => match constructor_of(
                    st,
                    from_module,
                    class.members@,
                ) {
                    Some(key) => Some((key, true)),
                    None => None,
                },
                SymbolData::Function(_) => Some((weak, is_attr_of_instance == Some(true))),
                _ => None,
            },
            None => None,
        },
        EvaluationSymbolPtr::Other => None,
    }
}

/// The signature of a callable, if it has one.
pub open spec fn callable_signature(
    st: SymbolTable,
    from_module: Option<ModuleKey>,
    callable: Callable,
    cursor: CursorView,
) -> Option<SignatureView> {
    match called_function(st, from_module, callable.symbol) {
        Some((key, is_on_instance)) => match st.symbol_at(key) {
            Some(symbol) => match symbol.data {
                SymbolData::Function(function) => Some(
                    signature_of(
                        st,
                        symbol.name@,
                        function,
                        callable.inferred,
                        is_on_instance,
                        cursor,
                    ),
                ),
                _ => None,
            },
            None => None,
        },
        None => None,
    }
}

/// The signatures of callables in order, each once.
pub open spec fn signatures_of(
    st: SymbolTable,
    from_module: Option<ModuleKey>,
    callables: Seq<Callable>,
    cursor: CursorView,
) -> Seq<SignatureView>
    decreases callables.len(),
{
    if callables.len() == 0 {
        Seq::empty()
    } else {
        let rest = signatures_of(st, from_module, callables.drop_last(), cursor);
        match callable_signature(st, from_module, callables.last(), cursor) {
            Some(signature) => if rest.contains(signature) {
                rest
            } else {
                rest.push(signature)
            },
            None => rest,
        }
    }
}

/// The signature help of a call, the first signature being the active one.
pub open spec fn help_of(
    st: SymbolTable,
    from_module: Option<ModuleKey>,
    call: CallExpr,
    offset: u32,
) -> Option<HelpView> {
    let signatures = signatures_of(st, from_module, call.callables@, cursor_at(call, offset));
    if signatures.len() == 0 {
        None
    } else {
        Some(
            HelpView {
                active_parameter: signatures[0].active_parameter,
                signatures,
                active_signature: Some(0),
            },
        )
    }
}

/// Value of an optional [`SignatureHelp`].
pub open spec fn opt_help_view(help: Option<SignatureHelp>) -> Option<HelpView> {
    match help {
        Some(help) => Some(help@),
        None => None,
    }
}

/// Whether two optional texts are equal.
fn same_text(left: &Option<String>, right: &Option<String>) -> (res: bool)
    ensures
        res == (opt_view(*left) == opt_view(*right)),
{
    match (left, right) {
        (Some(left), Some(right)) => str_eq(left.as_str(), right.as_str()),
        (None, None) => true,
        _ => false,
    }
}

impl SignatureInformation {
    /// Whether two signatures are equal.
    pub fn same_as(&self, other: &SignatureInformation) -> (res: bool)
        ensures
            res == (self@ == other@),
    {
        if !str_eq(self.label.as_str(), other.label.as_str()) || !same_text(
            &self.documentation,
            &other.documentation,
        ) || self.active_parameter != other.active_parameter {
            return false;
        }
        if self.parameters.len() != other.parameters.len() {
            return false;
        }
        let mut i: usize = 0;
        while i < self.parameters.len()
            invariant
                i <= self.parameters.len(),
                self.parameters@.len() == other.parameters@.len(),
                forall|j: int| 0 <= j < i ==> self.parameters@[j] == other.parameters@[j],
            decreases self.parameters.len() - i,
        {
            if self.parameters[i] != other.parameters[i] {
                return false;
            }
            i = i + 1;
        }
        assert(self.parameters@ =~= other.parameters@);
        true
    }
}

impl SignatureHelpFeature {
    /// The symbol that constructs an instance, among the members of a class.
    fn find_constructor(
        st: &SymbolTable,
        from_module: Option<ModuleKey>,
        members: &Vec<Member>,
    ) -> (res: Option<SymbolKey>)
        ensures
            res == constructor_of(*st, from_module, members@),
    {
        let ghost accepts = is_constructor();
        let mut i: usize = 0;
        while i < members.len()
            invariant
                i <= members.len(),
                accepts == is_constructor(),
                forall|j: int| 0 <= j < i ==> !accepts(#[trigger] members@[j]),
            decreases members.len() - i,
        {
            if members[i].kind == MemberKind::Method && str_eq(
                members[i].name.as_str(),
                "__init__",
            ) {
                proof {
                    lemma_is_first_index(members@, accepts, i as int);
                }
                let symbols = st.filter_visible(&members[i].symbols, from_module);
                return if symbols.len() > 0 {
                    Some(symbols[0])
                } else {
                    None
                };
            }
            i = i + 1;
        }
        proof {
            lemma_is_first_index(members@, accepts, i as int);
        }
        None
    }

    /// The function that a callable runs, and whether it runs on an instance.
    fn find_function(
        st: &SymbolTable,
        from_module: Option<ModuleKey>,
        symbol: &EvaluationSymbolPtr,
    ) -> (res: Option<(SymbolKey, bool)>)
        ensures
            res == called_function(*st, from_module, *symbol),
    {
        match symbol {
            EvaluationSymbolPtr::Weak { weak, is_attr_of_instance, .. } => match st.get(*weak) {
                Some(callee) => match &callee.data {
                    SymbolData::Class(class) => match SignatureHelpFeature::find_constructor(
                        st,
                        from_module,
                        &class.members,
                    ) {
                        Some(key) => Some((key, true)),
                        None => None,
                    },
                    SymbolData::Function(_) => {
                        let on_instance = match is_attr_of_instance {
                            Some(on_instance) => *on_instance,
                            None => false,
                        };
                        Some((*weak, on_instance))
                    },
                    _ => None,
                },
                None => None,
            },
            EvaluationSymbolPtr::Other => None,
        }
    }

    /// The signature of a callable, if it has one.
    fn callable_signature(
        session: &SessionInfo,
        from_module: Option<ModuleKey>,
        callable: &Callable,
        cursor: &CallCursor,
    ) -> (res: Option<SignatureInformation>)
        ensures
            match res {
                Some(signature) => callable_signature(
                    session.st,
                    from_module,
                    *callable,
                    cursor@,
                ) == Some(signature@),
                None => callable_signature(session.st, from_module, *callable, cursor@) is None,
            },
    {
        match SignatureHelpFeature::find_function(&session.st, from_module, &callable.symbol) {
            Some((key, is_on_instance)) => match session.st.get(key) {
                Some(symbol) => match &symbol.data {
                    SymbolData::Function(function) => Some(
                        SignatureHelpFeature::build_signature(
                            session,
                            symbol.name.as_str(),
                            function,
                            &callable.inferred,
                            is_on_instance,
                            cursor,
                        ),
                    ),
                    _ => None,
                },
                None => None,
            },
            None => None,
        }
    }

    /// The signatures of callables in order, each once.
    pub fn build_signatures(
        session: &SessionInfo,
        from_module: Option<ModuleKey>,
        callables: &Vec<Callable>,
        cursor: &CallCursor,
    ) -> (res: Vec<SignatureInformation>)
        ensures
            signatures_view(res@) == signatures_of(
                session.st,
                from_module,
                callables@,
                cursor@,
            ),
    {
        let mut signatures: Vec<SignatureInformation> = Vec::new();
        let mut i: usize = 0;
        assert(signatures_view(signatures@) =~= Seq::empty());
        while i < callables.len()
            invariant
                i <= callables.len(),
                signatures_view(signatures@) == signatures_of(
                    session.st,
                    from_module,
                    callables@.take(i as int),
                    cursor@,
                ),
            decreases callables.len() - i,
        {
            assert(callables@.take(i + 1).drop_last() =~= callables@.take(i as int));
            if let Some(signature) = SignatureHelpFeature::callable_signature(
                session,
                from_module,
                &callables[i],
                cursor,
            ) {
                let ghost views = signatures_view(signatures@);
                let mut known = false;
                let mut j: usize = 0;
                while j < signatures.len() && !known
                    invariant
                        j <= signatures.len(),
                        views == signatures_view(signatures@),
                        known ==> views.contains(signature@),
                        !known ==> forall|k: int| 0 <= k < j ==> #[trigger] views[k] != signature@,
                    decreases signatures.len() - j,
                {
                    assert(views[j as int] == signatures@[j as int]@);
                    if signatures[j].same_as(&signature) {
                        known = true;
                    }
                    j = j + 1;
                }
                if !known {
                    assert(!views.contains(signature@));
                    let ghost before = signatures@;
                    signatures.push(signature);
                    assert(signatures_view(signatures@) =~= signatures_view(before).push(
                        signature@,
                    ));
                }
            }
            i = i + 1;
        }
        assert(callables@.take(callables@.len() as int) =~= callables@);
        signatures
    }

    /// The signature help of the call under the cursor, `None` outside of a call.
    pub fn signature_help_python(
        session: &SessionInfo,
        file_symbol: SymbolKey,
        call_expr: Option<&CallExpr>,
        offset: u32,
    ) -> (res: Option<SignatureHelp>)
        requires
            call_expr matches Some(call) ==> call.wf(),
        ensures
            opt_help_view(res) == match call_expr {
                Some(call) => help_of(
                    session.st,
                    session.st.module_of(file_symbol),
                    *call,
                    offset,
                ),
                None => None,
            },
    {
        let call = match call_expr {
            Some(call) => call,
            None => {
                return None;
            },
        };
        let cursor = SignatureHelpFeature::locate_cursor(call, offset);
        let from_module = session.st.find_module(file_symbol);
        let signatures = SignatureHelpFeature::build_signatures(
            session,
            from_module,
            &call.callables,
            &cursor,
        );
        assert(signatures_view(signatures@).len() == signatures@.len());
        if signatures.len() == 0 {
            return None;
        }
        assert(signatures_view(signatures@)[0] == signatures@[0]@);
        // Also set at the top level, for clients that do not read it on the signature itself.
        let active_parameter = signatures[0].active_parameter;
        Some(SignatureHelp { signatures, active_signature: Some(0), active_parameter })
    }
}

/// A parameter under the cursor is one that is displayed.
pub proof fn active_parameter_is_displayed(args: Seq<DisplayedView>, cursor: CursorView)
    ensures
        active_index(args, cursor) matches Some(index) ==> 0 <= index < args.len(),
{
}

/// A positional argument past the parameters that take one lands on `*args`, and on nothing when
/// there is none.
pub proof fn extra_positional_lands_on_vararg(args: Seq<DisplayedView>, index: usize)
    requires
        index >= args.len() || !takes_position(args[index as int]),
    ensures
        match active_index(args, CursorView::Positional(index)) {
            Some(active) => args[active].arg_type == ArgumentType::Vararg,
            None => forall|k: int|
                0 <= k < args.len() ==> (#[trigger] args[k]).arg_type != ArgumentType::Vararg,
        },
{
    let accepts = is_of_type(ArgumentType::Vararg);
    lemma_first_index(args, accepts);
    if first_index(args, accepts) >= args.len() {
        assert forall|k: int| 0 <= k < args.len() implies (#[trigger] args[k]).arg_type
            != ArgumentType::Vararg by {
            assert(!accepts(args[k]));
        }
    }
}

/// A keyword argument highlights a parameter of its own name whatever its position, else lands on
/// `**kwargs`, and on nothing when there is none.
pub proof fn keyword_lands_on_its_parameter(args: Seq<DisplayedView>, name: Seq<char>)
    ensures
        match active_index(args, CursorView::Keyword(name)) {
            Some(active) => {
                ||| args[active].name == name && args[active].arg_type != ArgumentType::Vararg
                    && args[active].arg_type != ArgumentType::PosOnly
                ||| args[active].arg_type == ArgumentType::Kwarg && forall|k: int|
                    0 <= k < args.len() ==> !takes_keyword(name)(#[trigger] args[k])
            },
            None => forall|k: int|
                0 <= k < args.len() ==> (#[trigger] args[k]).arg_type != ArgumentType::Kwarg
                    && !takes_keyword(name)(args[k]),
        },
{
    let accepts = takes_keyword(name);
    let rest = is_of_type(ArgumentType::Kwarg);
    lemma_first_index(args, accepts);
    lemma_first_index(args, rest);
    assert forall|k: int|
        0 <= k < args.len() && first_index(args, accepts) >= args.len() implies !takes_keyword(
        name,
    )(#[trigger] args[k]) by {
        assert(!accepts(args[k]));
    }
    assert forall|k: int|
        0 <= k < args.len() && first_index(args, rest) >= args.len() implies (
    #[trigger] args[k]).arg_type != ArgumentType::Kwarg by {
        assert(!rest(args[k]));
    }
}

/// The label before a parameter is a prefix of the label with it, and of the labels with more.
proof fn lemma_label_prefix(name: Seq<char>, args: Seq<DisplayedView>, index: int, count: int)
    requires
        0 <= index <= count <= args.len(),
    ensures
        label_with(name, args, index).is_prefix_of(label_with(name, args, count)),
    decreases count - index,
{
    if index < count {
        lemma_label_prefix(name, args, index, count - 1);
        let shorter = label_with(name, args, count - 1);
        let longer = label_with(name, args, count);
        assert(longer =~= label_before(name, args, count - 1) + args[count - 1].label);
        if count - 1 > 0 {
            assert(label_before(name, args, count - 1) =~= shorter + ", "@);
        }
        assert(shorter =~= longer.take(shorter.len() as int));
        assert(label_with(name, args, index) =~= longer.take(
            label_with(name, args, index).len() as int,
        ));
    }
}

/// The offsets of a parameter delimit its own label in the label of the signature: so many UTF-16
/// code units stand before it and up to its end.
pub proof fn offsets_delimit_parameters(
    name: Seq<char>,
    args: Seq<DisplayedView>,
    rest: Seq<char>,
    index: int,
)
    requires
        0 <= index < args.len(),
        utf16_units(label_with(name, args, args.len() as int) + rest) <= u32::MAX,
    ensures
        ({
            let label = label_with(name, args, args.len() as int) + rest;
            let start = label_before(name, args, index).len() as int;
            let end = start + args[index].label.len();
            let offsets = label_offsets(name, args, index);
            &&& end <= label.len()
            &&& label.subrange(start, end) == args[index].label
            &&& utf16_units(label.take(start)) == offsets.start
            &&& utf16_units(label.take(end)) == offsets.end
        }),
{
    let whole = label_with(name, args, args.len() as int);
    let label = whole + rest;
    let before = label_before(name, args, index);
    let with = label_with(name, args, index + 1);
    let start = before.len() as int;
    let end = start + args[index].label.len();
    assert(with =~= before + args[index].label);
    lemma_label_prefix(name, args, index + 1, args.len() as int);
    assert(with =~= whole.take(with.len() as int));
    assert(label.take(end) =~= with);
    assert(label.take(start) =~= before);
    assert(label.subrange(start, end) =~= label.take(end).skip(start));
    assert(with.skip(start) =~= args[index].label);
    lemma_utf16_concat(with, label.skip(end));
    assert(with + label.skip(end) =~= label);
    lemma_utf16_concat(before, args[index].label);
}

/// No two signatures of a call are equal, and each is that of one of its callables.
pub proof fn signatures_are_distinct(
    st: SymbolTable,
    from_module: Option<ModuleKey>,
    callables: Seq<Callable>,
    cursor: CursorView,
)
    ensures
        signatures_of(st, from_module, callables, cursor).no_duplicates(),
        forall|k: int|
            0 <= k < signatures_of(st, from_module, callables, cursor).len() ==> exists|i: int|
                0 <= i < callables.len() && callable_signature(
                    st,
                    from_module,
                    #[trigger] callables[i],
                    cursor,
                ) == Some(#[trigger] signatures_of(st, from_module, callables, cursor)[k]),
    decreases callables.len(),
{
    if callables.len() > 0 {
        let shorter = callables.drop_last();
        let rest = signatures_of(st, from_module, shorter, cursor);
        let all = signatures_of(st, from_module, callables, cursor);
        signatures_are_distinct(st, from_module, shorter, cursor);
        assert forall|k: int| 0 <= k < all.len() implies exists|i: int|
            0 <= i < callables.len() && callable_signature(
                st,
                from_module,
                #[trigger] callables[i],
                cursor,
            ) == Some(#[trigger] all[k]) by {
            if k < rest.len() {
                assert(all[k] == rest[k]);
                let i = choose|i: int|
                    0 <= i < shorter.len() && callable_signature(
                        st,
                        from_module,
                        #[trigger] shorter[i],
                        cursor,
                    ) == Some(rest[k]);
                assert(callables[i] == shorter[i]);
            } else {
                assert(callables[callables.len() - 1] == callables.last());
            }
        }
    }
}

/// Every callable that has a signature has it among those of the call.
pub proof fn no_signature_is_lost(
    st: SymbolTable,
    from_module: Option<ModuleKey>,
    callables: Seq<Callable>,
    cursor: CursorView,
    index: int,
)
    requires
        0 <= index < callables.len(),
        callable_signature(st, from_module, callables[index], cursor) is Some,
    ensures
        signatures_of(st, from_module, callables, cursor).contains(
            callable_signature(st, from_module, callables[index], cursor)->0,
        ),
    decreases callables.len(),
{
    let signature = callable_signature(st, from_module, callables[index], cursor)->0;
    let shorter = callables.drop_last();
    let rest = signatures_of(st, from_module, shorter, cursor);
    let all = signatures_of(st, from_module, callables, cursor);
    if index < shorter.len() {
        assert(shorter[index] == callables[index]);
        no_signature_is_lost(st, from_module, shorter, cursor, index);
        let k = rest.index_of(signature);
        assert(all[k] == signature);
    } else if !rest.contains(signature) {
        assert(all[all.len() - 1] == signature);
    }
}

} // verus!
