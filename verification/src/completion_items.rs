//! Completion items: model names, members of a model, xml ids.
use vstd::prelude::*;

use crate::seqs::{concat_map, lemma_concat_map_step, lemma_selected, selected};
use crate::sorting::{
    drop_repeats, keys_view, sort_indices, sorted_order, without_repeats, KeyView, SortKey,
};
use crate::symbols::{
    ClassSymbol, Evaluation, EvaluationSymbolPtr, Member, MemberKind, Model, ModuleKey,
    SessionInfo, SymbolData, SymbolKey, SymbolTable, XmlId, XmlIdEntry, XmlIdKind,
};
use crate::text::{char_vec, starts_with, str_eq};
use crate::xml_lookup::opt_view;
use crate::xml_spans::ByteSpan;
use vstd::string::StringExecFns;

verus! {

/// Items an XML completion answers with at most, past which the response is flagged incomplete.
pub const MAX_ITEMS: usize = 200;

/// What a completion item stands for.
#[derive(Clone, Copy, PartialEq, Eq, Structural, Debug)]
pub enum CompletionItemKind {
    /// A model.
    Class,
    /// A field of a model.
    Field,
    /// A method of a model. No callable kind, as a client would put parentheses behind it.
    Value,
    /// An xml id.
    Reference,
}

/// The bytes that an item replaces, and by what.
#[derive(Debug)]
pub struct TextEdit {
    pub span: ByteSpan,
    pub new_text: String,
}

/// A completion item, `description` being the note beside its label.
#[derive(Debug)]
pub struct CompletionItem {
    pub label: String,
    pub kind: CompletionItemKind,
    pub description: Option<String>,
    pub sort_text: Option<String>,
    pub text_edit: TextEdit,
}

/// Completion items, and whether the cap left some out.
#[derive(Debug)]
pub struct CompletionList {
    pub items: Vec<CompletionItem>,
    pub is_incomplete: bool,
}

/// Which xml ids a position accepts.
#[derive(Debug)]
pub enum XmlIdFilter {
    Any,
    /// Those of the records of a model.
    Model(String),
}

/// Value of a [`CompletionItem`].
pub ghost struct ItemView {
    pub label: Seq<char>,
    pub kind: CompletionItemKind,
    pub description: Option<Seq<char>>,
    pub sort_text: Option<Seq<char>>,
    pub span: ByteSpan,
    pub new_text: Seq<char>,
}

/// Value of a [`CompletionList`].
pub ghost struct ListView {
    pub items: Seq<ItemView>,
    pub is_incomplete: bool,
}

/// Value of an [`XmlIdFilter`].
pub ghost enum FilterView {
    Any,
    Model(Seq<char>),
}

impl View for CompletionItem {
    type V = ItemView;

    open spec fn view(&self) -> ItemView {
        ItemView {
            label: self.label@,
            kind: self.kind,
            description: opt_view(self.description),
            sort_text: opt_view(self.sort_text),
            span: self.text_edit.span,
            new_text: self.text_edit.new_text@,
        }
    }
}

/// Values of a sequence of [`CompletionItem`].
pub open spec fn items_view(items: Seq<CompletionItem>) -> Seq<ItemView> {
    items.map_values(|item: CompletionItem| item@)
}

impl View for CompletionList {
    type V = ListView;

    open spec fn view(&self) -> ListView {
        ListView { items: items_view(self.items@), is_incomplete: self.is_incomplete }
    }
}

impl View for XmlIdFilter {
    type V = FilterView;

    open spec fn view(&self) -> FilterView {
        match self {
            XmlIdFilter::Any => FilterView::Any,
            XmlIdFilter::Model(model) => FilterView::Model(model@),
        }
    }
}

/// An item that replaces a span by its label.
pub open spec fn item_view(
    label: Seq<char>,
    kind: CompletionItemKind,
    description: Option<Seq<char>>,
    sort_text: Option<Seq<char>>,
    span: ByteSpan,
) -> ItemView {
    ItemView { label, kind, description, sort_text, span, new_text: label }
}

/// An item that replaces a span by its label.
fn make_item(
    label: &str,
    kind: CompletionItemKind,
    description: Option<String>,
    sort_text: Option<String>,
    span: ByteSpan,
) -> (res: CompletionItem)
    ensures
        res@ == item_view(label@, kind, opt_view(description), opt_view(sort_text), span),
{
    CompletionItem {
        label: label.to_string(),
        kind,
        description,
        sort_text,
        text_edit: TextEdit { span, new_text: label.to_string() },
    }
}

/// Adding an item adds its value.
proof fn lemma_items_push(items: Seq<CompletionItem>, item: CompletionItem)
    ensures
        items_view(items.push(item)) == items_view(items).push(item@),
{
    assert(items_view(items.push(item)) =~= items_view(items).push(item@));
}

/// The first candidates in order, as many as an answer may hold.
pub open spec fn capped(order: Seq<usize>) -> Seq<usize> {
    if order.len() > MAX_ITEMS {
        order.take(MAX_ITEMS as int)
    } else {
        order
    }
}

/// Keeps as many candidates as an answer may hold, and tells whether that left some out.
fn cap_order(order: Vec<usize>) -> (res: (Vec<usize>, bool))
    ensures
        res.0@ == capped(order@),
        res.1 == (order@.len() > MAX_ITEMS),
{
    let mut order = order;
    if order.len() > MAX_ITEMS {
        order.truncate(MAX_ITEMS);
        (order, true)
    } else {
        (order, false)
    }
}

/// Key of a single name.
pub open spec fn name_key(name: Seq<char>) -> KeyView {
    KeyView { major: name, minor: Seq::empty() }
}

fn make_name_key(name: &str) -> (res: SortKey)
    ensures
        res@ == name_key(name@),
{
    SortKey { major: name.to_string(), minor: String::new() }
}

/// Texts one after the other with `separator` between them.
pub open spec fn joined(parts: Seq<Seq<char>>, separator: Seq<char>) -> Seq<char>
    decreases parts.len(),
{
    if parts.len() == 0 {
        Seq::empty()
    } else if parts.len() == 1 {
        parts[0]
    } else {
        joined(parts.drop_last(), separator) + separator + parts.last()
    }
}

/// The directories of the modules that symbols are declared in.
pub open spec fn module_dirs(st: SymbolTable, symbols: Seq<SymbolKey>) -> Seq<Seq<char>>
    decreases symbols.len(),
{
    if symbols.len() == 0 {
        Seq::empty()
    } else {
        let rest = module_dirs(st, symbols.drop_last());
        match st.module_of(symbols.last()) {
            Some(module) => rest.push(st.module_at(module)->0.dir_name@),
            None => rest,
        }
    }
}

/// Keys of single names.
pub open spec fn name_keys(names: Seq<Seq<char>>) -> Seq<KeyView> {
    names.map_values(|name: Seq<char>| name_key(name))
}

/// Distinct names in order.
pub open spec fn distinct_names(names: Seq<Seq<char>>) -> Seq<Seq<char>> {
    without_repeats(name_keys(names), sorted_order(name_keys(names))).map_values(
        |index: usize| names[index as int],
    )
}

/// The `require <module>` note carried by a candidate out of the current dependencies.
pub open spec fn require_note(st: SymbolTable, symbols: Seq<SymbolKey>) -> Option<Seq<char>> {
    let names = distinct_names(module_dirs(st, symbols));
    if names.len() == 0 {
        None
    } else {
        Some("require "@ + joined(names, ", "@))
    }
}

/// The `require <module>` note carried by a candidate out of the current dependencies.
pub fn require_details(session: &SessionInfo, symbols: &Vec<SymbolKey>) -> (res: Option<String>)
    ensures
        opt_view(res) == require_note(session.st, symbols@),
{
    let st = &session.st;
    let mut keys: Vec<SortKey> = Vec::new();
    let ghost names = module_dirs(*st, symbols@);
    let mut i: usize = 0;
    assert(keys_view(keys@) =~= name_keys(module_dirs(*st, symbols@.take(0))));
    while i < symbols.len()
        invariant
            i <= symbols.len(),
            keys_view(keys@) == name_keys(module_dirs(*st, symbols@.take(i as int))),
        decreases symbols.len() - i,
    {
        let ghost before = module_dirs(*st, symbols@.take(i as int));
        let ghost before_keys = keys@;
        assert(symbols@.take(i + 1).drop_last() =~= symbols@.take(i as int));
        if let Some(module_key) = st.find_module(symbols[i]) {
            if let Some(module) = st.module(module_key) {
                let key = make_name_key(module.dir_name.as_str());
                keys.push(key);
                assert(keys_view(keys@) =~= keys_view(before_keys).push(key@));
                assert(name_keys(before.push(module.dir_name@)) =~= name_keys(before).push(key@));
            }
        }
        i = i + 1;
    }
    assert(symbols@.take(symbols@.len() as int) =~= symbols@);
    let order = sort_indices(&keys);
    let kept = drop_repeats(&keys, &order);
    let ghost all = distinct_names(names);
    if kept.len() == 0 {
        return None;
    }
    proof {
        lemma_kept_below(keys_view(keys@), order@, keys@.len() as int);
    }
    let mut note = keys[kept[0]].major.as_str().to_string();
    let mut j: usize = 1;
    assert(keys_view(keys@)[kept@[0] as int] == keys@[kept@[0] as int]@);
    assert(note@ == joined(all.take(1), ", "@));
    while j < kept.len()
        invariant
            1 <= j <= kept.len(),
            keys_view(keys@) == name_keys(names),
            all == distinct_names(names),
            kept@ == without_repeats(name_keys(names), sorted_order(name_keys(names))),
            forall|a: int| 0 <= a < kept@.len() ==> (#[trigger] kept@[a]) < keys@.len(),
            note@ == joined(all.take(j as int), ", "@),
        decreases kept.len() - j,
    {
        let ghost index = kept@[j as int] as int;
        assert(keys_view(keys@)[index] == keys@[index]@);
        assert(all.take(j + 1).drop_last() =~= all.take(j as int));
        note.append(", ");
        note.append(keys[kept[j]].major.as_str());
        j = j + 1;
    }
    assert(all.take(all.len() as int) =~= all);
    let mut res = "require ".to_string();
    res.append(note.as_str());
    Some(res)
}

/// What is kept of items below `count` lies below it too.
pub proof fn lemma_kept_below(keys: Seq<KeyView>, order: Seq<usize>, count: int)
    requires
        forall|a: int| 0 <= a < order.len() ==> (#[trigger] order[a]) < count,
    ensures
        forall|a: int|
            0 <= a < without_repeats(keys, order).len() ==> (#[trigger] without_repeats(
                keys,
                order,
            )[a]) < count,
    decreases order.len(),
{
    if order.len() > 1 {
        let shorter = order.drop_last();
        assert forall|a: int| 0 <= a < shorter.len() implies (#[trigger] shorter[a]) < count by {
            assert(shorter[a] == order[a]);
        }
        lemma_kept_below(keys, shorter, count);
        let kept = without_repeats(keys, order);
        let rest = without_repeats(keys, shorter);
        assert forall|a: int| 0 <= a < kept.len() implies (#[trigger] kept[a]) < count by {
            if a < rest.len() {
                assert(kept[a] == rest[a]);
            } else {
                assert(kept[a] == order[order.len() - 1]);
            }
        }
    }
}

/// Predicate of the models that a typed text may become.
pub open spec fn is_model_offered(models: Seq<Model>, typed: Seq<char>) -> spec_fn(int) -> bool {
    |index: int|
        typed.is_prefix_of(models[index].name@) && models[index].name@ != "_unknown"@
}

/// The models that a typed text may become, by index.
pub open spec fn offered_models(models: Seq<Model>, typed: Seq<char>) -> Seq<usize> {
    selected(models.len() as int, is_model_offered(models, typed))
}

/// Names that models are ordered by.
pub open spec fn model_keys(models: Seq<Model>, offered: Seq<usize>) -> Seq<KeyView> {
    offered.map_values(|index: usize| name_key(models[index as int].name@))
}

/// The item of a model. A model without classes has none; one out of the dependencies of the module
/// has one when the configuration wants it, with a note.
pub open spec fn model_item(
    session: SessionInfo,
    from_module: Option<ModuleKey>,
    model: Model,
    span: ByteSpan,
) -> Seq<ItemView> {
    let st = session.st;
    if !model.any_symbol(st) {
        Seq::empty()
    } else {
        match from_module {
            Some(module) => if model.declared_in_deps(st, module) {
                seq![item_view(model.name@, CompletionItemKind::Class, None, None, span)]
            } else if session.ac_filter_model_names {
                seq![
                    item_view(
                        model.name@,
                        CompletionItemKind::Class,
                        require_note(st, st.visible_keys(model.main_symbols@, None)),
                        None,
                        span,
                    ),
                ]
            } else {
                Seq::empty()
            },
            None => seq![item_view(model.name@, CompletionItemKind::Class, None, None, span)],
        }
    }
}

/// Items of models, by their place among those offered.
pub open spec fn model_part(
    session: SessionInfo,
    from_module: Option<ModuleKey>,
    offered: Seq<usize>,
    span: ByteSpan,
) -> spec_fn(usize) -> Seq<ItemView> {
    |place: usize|
        model_item(session, from_module, session.models@[offered[place as int] as int], span)
}

/// The model names that a typed text may become.
pub open spec fn model_list(
    session: SessionInfo,
    from_module: Option<ModuleKey>,
    typed: Seq<char>,
    span: ByteSpan,
) -> ListView {
    let offered = offered_models(session.models@, typed);
    let order = sorted_order(model_keys(session.models@, offered));
    ListView {
        items: concat_map(capped(order), model_part(session, from_module, offered, span)),
        is_incomplete: order.len() > MAX_ITEMS,
    }
}

/// The item of a model, if it has one.
fn make_model_item(
    session: &SessionInfo,
    from_module: Option<ModuleKey>,
    model: &Model,
    span: ByteSpan,
) -> (res: Option<CompletionItem>)
    ensures
        match res {
            Some(item) => model_item(*session, from_module, *model, span) == seq![item@],
            None => model_item(*session, from_module, *model, span) == Seq::<ItemView>::empty(),
        },
{
    if !model.has_symbols(&session.st) {
        return None;
    }
    let mut description: Option<String> = None;
    if let Some(current_module) = from_module {
        if !model.model_in_deps(&session.st, current_module) {
            if !session.ac_filter_model_names {
                return None;
            }
            let symbols = model.get_main_symbols(&session.st, None);
            description = require_details(session, &symbols);
        }
    }
    Some(make_item(model.name.as_str(), CompletionItemKind::Class, description, None, span))
}

/// The model names that a typed text may become.
pub fn model_items(
    session: &SessionInfo,
    from_module: Option<ModuleKey>,
    typed: &str,
    span: ByteSpan,
) -> (res: CompletionList)
    ensures
        res@ == model_list(*session, from_module, typed@, span),
{
    let ghost models = session.models@;
    let ghost accepts = is_model_offered(models, typed@);
    let mut offered: Vec<usize> = Vec::new();
    let mut keys: Vec<SortKey> = Vec::new();
    let mut i: usize = 0;
    assert(keys_view(keys@) =~= model_keys(models, offered@));
    while i < session.models.len()
        invariant
            models == session.models@,
            accepts == is_model_offered(models, typed@),
            i <= session.models.len(),
            offered@ == selected(i as int, accepts),
            keys_view(keys@) == model_keys(models, offered@),
        decreases session.models.len() - i,
    {
        let name = session.models[i].name.as_str();
        if starts_with(name, typed) && !str_eq(name, "_unknown") {
            let key = make_name_key(name);
            let ghost before = keys@;
            let ghost before_offered = offered@;
            keys.push(key);
            offered.push(i);
            assert(keys_view(keys@) =~= keys_view(before).push(key@));
            assert(model_keys(models, offered@) =~= model_keys(models, before_offered).push(key@));
        }
        i = i + 1;
    }
    assert(keys@.len() == keys_view(keys@).len());
    let (order, is_incomplete) = cap_order(sort_indices(&keys));
    let ghost part = model_part(*session, from_module, offered@, span);
    let mut items: Vec<CompletionItem> = Vec::new();
    let mut j: usize = 0;
    proof {
        lemma_selected(models.len() as int, accepts);
    }
    assert(items_view(items@) =~= concat_map(order@.take(0), part));
    while j < order.len()
        invariant
            models == session.models@,
            j <= order.len(),
            part == model_part(*session, from_module, offered@, span),
            forall|a: int| 0 <= a < order@.len() ==> (#[trigger] order@[a]) < offered@.len(),
            forall|a: int| 0 <= a < offered@.len() ==> (#[trigger] offered@[a]) < models.len(),
            items_view(items@) == concat_map(order@.take(j as int), part),
        decreases order.len() - j,
    {
        proof {
            lemma_concat_map_step(order@, part, j as int);
        }
        let index = offered[order[j]];
        let ghost before = items_view(items@);
        if let Some(item) = make_model_item(session, from_module, &session.models[index], span) {
            proof {
                lemma_items_push(items@, item);
            }
            items.push(item);
        }
        assert(items_view(items@) =~= before + part(order@[j as int]));
        j = j + 1;
    }
    assert(order@.take(order@.len() as int) =~= order@);
    CompletionList { items, is_incomplete }
}

/// Whether a declaration of an xml id is one that a filter accepts and whose symbol is there.
pub open spec fn is_accepted_id(st: SymbolTable, filter: FilterView, id: XmlId) -> bool {
    &&& id.kind != XmlIdKind::Other
    &&& st.symbol_at(id.key) is Some
    &&& match filter {
        FilterView::Any => true,
        FilterView::Model(model) => id.model@ == model,
    }
}

/// Whether any declaration of an xml id is one that a filter accepts.
pub open spec fn has_accepted_id(st: SymbolTable, filter: FilterView, ids: Seq<XmlId>) -> bool {
    exists|i: int| 0 <= i < ids.len() && is_accepted_id(st, filter, #[trigger] ids[i])
}

/// An xml id with the name of its module.
pub open spec fn full_id(st: SymbolTable, entry: XmlIdEntry) -> Seq<char> {
    st.module_at(entry.module)->0.name@ + "."@ + entry.local_id@
}

/// Predicate of the xml ids that a typed text may become.
pub open spec fn is_xml_id_offered(session: SessionInfo, filter: FilterView, typed: Seq<char>) -> spec_fn(
    int,
) -> bool {
    |index: int|
        {
            let entry = session.xml_ids@[index];
            &&& session.st.module_at(entry.module) is Some
            &&& typed.is_prefix_of(full_id(session.st, entry))
            &&& has_accepted_id(session.st, filter, entry.ids@)
        }
}

/// The xml ids that a typed text may become, by index.
pub open spec fn offered_xml_ids(session: SessionInfo, filter: FilterView, typed: Seq<char>) -> Seq<
    usize,
> {
    selected(session.xml_ids@.len() as int, is_xml_id_offered(session, filter, typed))
}

/// What xml ids are ordered by: the directory of the module, then the id in it.
pub open spec fn xml_id_key(st: SymbolTable, entry: XmlIdEntry) -> KeyView {
    KeyView { major: st.module_at(entry.module)->0.dir_name@, minor: entry.local_id@ }
}

/// What xml ids are ordered by.
pub open spec fn xml_id_keys(session: SessionInfo, offered: Seq<usize>) -> Seq<KeyView> {
    offered.map_values(|index: usize| xml_id_key(session.st, session.xml_ids@[index as int]))
}

/// The item of an xml id, with a note when it is out of the dependencies of the module.
pub open spec fn xml_id_item(
    st: SymbolTable,
    from_module: Option<ModuleKey>,
    entry: XmlIdEntry,
    span: ByteSpan,
) -> ItemView {
    let module = st.module_at(entry.module)->0;
    let description = match from_module {
        Some(from) => if st.in_deps(from, module.name@) {
            None
        } else {
            Some("require "@ + module.dir_name@)
        },
        None => None,
    };
    item_view(full_id(st, entry), CompletionItemKind::Reference, description, None, span)
}

/// The xml ids that a typed text may become.
pub open spec fn xml_id_list(
    session: SessionInfo,
    from_module: Option<ModuleKey>,
    filter: FilterView,
    typed: Seq<char>,
    span: ByteSpan,
) -> ListView {
    let offered = offered_xml_ids(session, filter, typed);
    let order = sorted_order(xml_id_keys(session, offered));
    ListView {
        items: capped(order).map_values(
            |place: usize|
                xml_id_item(
                    session.st,
                    from_module,
                    session.xml_ids@[offered[place as int] as int],
                    span,
                ),
        ),
        is_incomplete: order.len() > MAX_ITEMS,
    }
}

/// Whether any declaration of an xml id is one that a filter accepts.
fn accepts_any_id(st: &SymbolTable, filter: &XmlIdFilter, ids: &Vec<XmlId>) -> (res: bool)
    ensures
        res == has_accepted_id(*st, filter@, ids@),
{
    let mut i: usize = 0;
    while i < ids.len()
        invariant
            i <= ids.len(),
            forall|j: int| 0 <= j < i ==> !is_accepted_id(*st, filter@, #[trigger] ids@[j]),
        decreases ids.len() - i,
    {
        let id = &ids[i];
        let of_model = match filter {
            XmlIdFilter::Any => true,
            XmlIdFilter::Model(model) => str_eq(id.model.as_str(), model.as_str()),
        };
        if of_model && id.kind != XmlIdKind::Other && st.get(id.key).is_some() {
            assert(is_accepted_id(*st, filter@, ids@[i as int]));
            return true;
        }
        i = i + 1;
    }
    false
}

/// An xml id with the name of its module.
fn make_full_id(module_name: &str, local_id: &str) -> (res: String)
    ensures
        res@ == module_name@ + "."@ + local_id@,
{
    let mut res = module_name.to_string();
    res.append(".");
    res.append(local_id);
    res
}

/// The xml ids that a typed text may become.
pub fn xml_id_items(
    session: &SessionInfo,
    from_module: Option<ModuleKey>,
    filter: &XmlIdFilter,
    typed: &str,
    span: ByteSpan,
) -> (res: CompletionList)
    ensures
        res@ == xml_id_list(*session, from_module, filter@, typed@, span),
{
    let st = &session.st;
    let ghost entries = session.xml_ids@;
    let ghost accepts = is_xml_id_offered(*session, filter@, typed@);
    let mut offered: Vec<usize> = Vec::new();
    let mut keys: Vec<SortKey> = Vec::new();
    let mut i: usize = 0;
    assert(keys_view(keys@) =~= xml_id_keys(*session, offered@));
    while i < session.xml_ids.len()
        invariant
            *st == session.st,
            entries == session.xml_ids@,
            accepts == is_xml_id_offered(*session, filter@, typed@),
            i <= session.xml_ids.len(),
            offered@ == selected(i as int, accepts),
            keys_view(keys@) == xml_id_keys(*session, offered@),
        decreases session.xml_ids.len() - i,
    {
        let entry = &session.xml_ids[i];
        if let Some(module) = st.module(entry.module) {
            let full = make_full_id(module.name.as_str(), entry.local_id.as_str());
            if starts_with(full.as_str(), typed) && accepts_any_id(st, filter, &entry.ids) {
                let key = SortKey {
                    major: module.dir_name.as_str().to_string(),
                    minor: entry.local_id.as_str().to_string(),
                };
                let ghost before = keys@;
                let ghost before_offered = offered@;
                keys.push(key);
                offered.push(i);
                assert(keys_view(keys@) =~= keys_view(before).push(key@));
                assert(xml_id_keys(*session, offered@) =~= xml_id_keys(
                    *session,
                    before_offered,
                ).push(key@));
            }
        }
        i = i + 1;
    }
    assert(keys@.len() == keys_view(keys@).len());
    let (order, is_incomplete) = cap_order(sort_indices(&keys));
    let ghost all = xml_id_list(*session, from_module, filter@, typed@, span).items;
    let mut items: Vec<CompletionItem> = Vec::new();
    let mut j: usize = 0;
    proof {
        lemma_selected(entries.len() as int, accepts);
    }
    assert(items_view(items@) =~= all.take(0));
    while j < order.len()
        invariant
            *st == session.st,
            entries == session.xml_ids@,
            accepts == is_xml_id_offered(*session, filter@, typed@),
            j <= order.len(),
            offered@ == offered_xml_ids(*session, filter@, typed@),
            order@ == capped(sorted_order(xml_id_keys(*session, offered@))),
            all == xml_id_list(*session, from_module, filter@, typed@, span).items,
            forall|a: int| 0 <= a < order@.len() ==> (#[trigger] order@[a]) < offered@.len(),
            forall|a: int|
                0 <= a < offered@.len() ==> (#[trigger] offered@[a]) < entries.len() && accepts(
                    offered@[a] as int,
                ),
            items_view(items@) == all.take(j as int),
        decreases order.len() - j,
    {
        let entry = &session.xml_ids[offered[order[j]]];
        if let Some(module) = st.module(entry.module) {
            let mut description: Option<String> = None;
            if let Some(from) = from_module {
                if !st.is_in_deps(from, module.name.as_str()) {
                    let mut note = "require ".to_string();
                    note.append(module.dir_name.as_str());
                    description = Some(note);
                }
            }
            let label = make_full_id(module.name.as_str(), entry.local_id.as_str());
            let item = make_item(
                label.as_str(),
                CompletionItemKind::Reference,
                description,
                None,
                span,
            );
            proof {
                lemma_items_push(items@, item);
            }
            assert(item@ == all[j as int]);
            items.push(item);
        }
        assert(all.take(j + 1) =~= all.take(j as int).push(all[j as int]));
        j = j + 1;
    }
    assert(all.take(order@.len() as int) =~= all);
    CompletionList { items, is_incomplete }
}

/// Type of a field as `Many2one(res.partner)` or `Char`.
pub open spec fn type_note(ttype: Seq<char>, comodel: Option<Seq<char>>) -> Seq<char> {
    match comodel {
        Some(comodel) => ttype + "("@ + comodel + ")"@,
        None => ttype,
    }
}

/// The class of a key, when it is one of a field.
pub open spec fn field_class_at(st: SymbolTable, key: SymbolKey) -> Option<ClassSymbol> {
    match st.symbol_at(key) {
        Some(symbol) => match symbol.data {
            SymbolData::Class(class) => if class.is_field_class {
                Some(class)
            } else {
                None
            },
            _ => None,
        },
        None => None,
    }
}

/// The first class of a field among symbols.
pub open spec fn first_field_class(st: SymbolTable, keys: Seq<SymbolKey>) -> Option<ClassSymbol>
    decreases keys.len(),
{
    if keys.len() == 0 {
        None
    } else {
        match field_class_at(st, keys[0]) {
            Some(class) => Some(class),
            None => first_field_class(st, keys.drop_first()),
        }
    }
}

/// The comodel that an evaluation names.
pub open spec fn evaluation_comodel(evaluation: Evaluation) -> Option<Seq<char>> {
    match evaluation.symbol {
        EvaluationSymbolPtr::Weak { comodel_name, .. } => opt_view(comodel_name),
        _ => None,
    }
}

/// Type of a field, from the first of its evaluations that leads to the class of a field.
pub open spec fn evaluations_note(st: SymbolTable, evaluations: Seq<Evaluation>) -> Option<
    Seq<char>,
>
    decreases evaluations.len(),
{
    if evaluations.len() == 0 {
        None
    } else {
        match first_field_class(st, evaluations[0].followed@) {
            Some(class) => if class.tree@.len() == 0 {
                None
            } else {
                Some(type_note(class.tree@.last()@, evaluation_comodel(evaluations[0])))
            },
            None => evaluations_note(st, evaluations.drop_first()),
        }
    }
}

/// Type of the field that a symbol is.
pub open spec fn field_note(st: SymbolTable, key: SymbolKey) -> Option<Seq<char>> {
    match st.symbol_at(key) {
        Some(symbol) => match symbol.data {
            SymbolData::Variable(variable) => evaluations_note(st, variable.evaluations@),
            SymbolData::XmlRecord(record) => match opt_view(record.ttype) {
                Some(ttype) => Some(type_note(ttype, opt_view(record.relation))),
                None => None,
            },
            _ => None,
        },
        None => None,
    }
}

fn make_type_note(ttype: &str, comodel: &Option<String>) -> (res: String)
    ensures
        res@ == type_note(ttype@, opt_view(*comodel)),
{
    let mut res = ttype.to_string();
    if let Some(comodel) = comodel {
        res.append("(");
        res.append(comodel.as_str());
        res.append(")");
    }
    res
}

/// The first class of a field among symbols.
fn find_field_class<'a>(st: &'a SymbolTable, keys: &Vec<SymbolKey>) -> (res: Option<
    &'a ClassSymbol,
>)
    ensures
        match res {
            Some(class) => first_field_class(*st, keys@) == Some(*class),
            None => first_field_class(*st, keys@) is None,
        },
{
    let mut i: usize = 0;
    assert(keys@.skip(0) =~= keys@);
    while i < keys.len()
        invariant
            i <= keys.len(),
            first_field_class(*st, keys@) == first_field_class(*st, keys@.skip(i as int)),
        decreases keys.len() - i,
    {
        assert(keys@.skip(i as int).drop_first() =~= keys@.skip(i + 1));
        if let Some(symbol) = st.get(keys[i]) {
            if let SymbolData::Class(class) = &symbol.data {
                if class.is_field_class {
                    return Some(class);
                }
            }
        }
        i = i + 1;
    }
    None
}

/// Type of a field as `Many2one(res.partner)` or `Char`, for the note beside its label.
pub fn field_details(session: &SessionInfo, symbol: SymbolKey) -> (res: Option<String>)
    ensures
        opt_view(res) == field_note(session.st, symbol),
{
    let st = &session.st;
    let data = match st.get(symbol) {
        Some(symbol) => &symbol.data,
        None => {
            return None;
        },
    };
    match data {
        SymbolData::Variable(variable) => {
            let evaluations = &variable.evaluations;
            let mut i: usize = 0;
            assert(evaluations@.skip(0) =~= evaluations@);
            while i < evaluations.len()
                invariant
                    i <= evaluations.len(),
                    *st == session.st,
                    field_note(*st, symbol) == evaluations_note(*st, evaluations@),
                    evaluations_note(*st, evaluations@) == evaluations_note(
                        *st,
                        evaluations@.skip(i as int),
                    ),
                decreases evaluations.len() - i,
            {
                assert(evaluations@.skip(i as int).drop_first() =~= evaluations@.skip(i + 1));
                if let Some(class) = find_field_class(st, &evaluations[i].followed) {
                    if class.tree.len() == 0 {
                        return None;
                    }
                    let ttype = class.tree[class.tree.len() - 1].as_str();
                    return Some(
                        match &evaluations[i].symbol {
                            EvaluationSymbolPtr::Weak { comodel_name, .. } => make_type_note(
                                ttype,
                                comodel_name,
                            ),
                            EvaluationSymbolPtr::Other => ttype.to_string(),
                        },
                    );
                }
                i = i + 1;
            }
            None
        },
        SymbolData::XmlRecord(record) => match &record.ttype {
            Some(ttype) => Some(make_type_note(ttype.as_str(), &record.relation)),
            None => None,
        },
        _ => None,
    }
}

/// A member of a model that may be offered.
struct Candidate {
    name: String,
    symbols: Vec<SymbolKey>,
}

/// Value of a member of a model that may be offered.
pub ghost struct CandidateView {
    pub name: Seq<char>,
    pub symbols: Seq<SymbolKey>,
}

impl View for Candidate {
    type V = CandidateView;

    closed spec fn view(&self) -> CandidateView {
        CandidateView { name: self.name@, symbols: self.symbols@ }
    }
}

/// Values of a sequence of candidates.
spec fn candidates_view(candidates: Seq<Candidate>) -> Seq<CandidateView> {
    candidates.map_values(|candidate: Candidate| candidate@)
}

/// Whether a name is one that the analyser made up, such as `<lambda>`: it cannot be typed in an
/// attribute.
pub open spec fn is_synthetic(name: Seq<char>) -> bool {
    name.len() > 0 && name[0] == '<' && name.last() == '>'
}

/// Whether a member is one that a typed text may become.
pub open spec fn is_member_offered(
    candidate: CandidateView,
    typed: Seq<char>,
    only_methods: bool,
) -> bool {
    &&& typed.is_prefix_of(candidate.name)
    &&& candidate.symbols.len() > 0
    &&& !(only_methods && is_synthetic(candidate.name))
}

/// The candidate that a member of a class is, if it is of the kind that is asked for.
pub open spec fn class_candidate(
    st: SymbolTable,
    from_module: Option<ModuleKey>,
    typed: Seq<char>,
    only_methods: bool,
) -> spec_fn(Member) -> Seq<CandidateView> {
    |member: Member|
        {
            let candidate = CandidateView {
                name: member.name@,
                symbols: st.visible_keys(member.symbols@, from_module),
            };
            let kind = if only_methods {
                MemberKind::Method
            } else {
                MemberKind::Field
            };
            if member.kind == kind && is_member_offered(candidate, typed, only_methods) {
                seq![candidate]
            } else {
                Seq::empty()
            }
        }
}

/// The candidate that an `ir.model.fields` record is, if it names a field.
pub open spec fn record_candidate(st: SymbolTable, typed: Seq<char>) -> spec_fn(SymbolKey) -> Seq<
    CandidateView,
> {
    |key: SymbolKey|
        match st.symbol_at(key) {
            Some(symbol) => match symbol.data {
                SymbolData::XmlRecord(record) => match opt_view(record.name) {
                    Some(name) => if typed.is_prefix_of(name) {
                        seq![CandidateView { name, symbols: seq![key] }]
                    } else {
                        Seq::empty()
                    },
                    None => Seq::empty(),
                },
                _ => Seq::empty(),
            },
            None => Seq::empty(),
        }
}

/// The members of the class that a key is.
pub open spec fn members_at(st: SymbolTable, key: SymbolKey) -> Seq<Member> {
    match st.symbol_at(key) {
        Some(symbol) => match symbol.data {
            SymbolData::Class(class) => class.members@,
            _ => Seq::empty(),
        },
        None => Seq::empty(),
    }
}

/// The members of a model that a typed text may become: those of the class that declares it, then
/// the fields that `ir.model.fields` records declare.
pub open spec fn model_candidates(
    st: SymbolTable,
    from_module: Option<ModuleKey>,
    model: Model,
    typed: Seq<char>,
    only_methods: bool,
) -> Seq<CandidateView> {
    let main = st.visible_keys(model.main_symbols@, from_module);
    let of_class = if main.len() > 0 {
        concat_map(
            members_at(st, main[0]),
            class_candidate(st, from_module, typed, only_methods),
        )
    } else {
        Seq::empty()
    };
    let of_records = if only_methods {
        Seq::empty()
    } else {
        concat_map(
            st.visible_keys(model.xml_fields@, from_module),
            record_candidate(st, typed),
        )
    };
    of_class + of_records
}

/// Names that members are ordered by.
pub open spec fn candidate_keys(candidates: Seq<CandidateView>) -> Seq<KeyView> {
    candidates.map_values(|candidate: CandidateView| name_key(candidate.name))
}

/// Whether a name starts and ends with two underscores.
pub open spec fn is_dunder(name: Seq<char>) -> bool {
    &&& name.len() >= 4
    &&& name[0] == '_' && name[1] == '_'
    &&& name[name.len() - 2] == '_' && name[name.len() - 1] == '_'
}

/// Rank of a method: public ones first, then private ones, then dunder ones.
pub open spec fn method_rank(name: Seq<char>) -> char {
    if is_dunder(name) {
        '2'
    } else if name.len() > 0 && name[0] == '_' {
        '1'
    } else {
        '0'
    }
}

/// The item of a member.
pub open spec fn member_item(
    st: SymbolTable,
    candidate: CandidateView,
    only_methods: bool,
    span: ByteSpan,
) -> ItemView {
    if only_methods {
        item_view(
            candidate.name,
            CompletionItemKind::Value,
            None,
            Some(seq![method_rank(candidate.name)] + candidate.name),
            span,
        )
    } else {
        item_view(
            candidate.name,
            CompletionItemKind::Field,
            field_note(st, candidate.symbols[0]),
            None,
            span,
        )
    }
}

/// The members of a model that a typed text may become.
pub open spec fn member_list(
    session: SessionInfo,
    from_module: Option<ModuleKey>,
    model_name: Seq<char>,
    typed: Seq<char>,
    only_methods: bool,
    span: ByteSpan,
) -> ListView {
    match session.model_named(model_name) {
        Some(model) => {
            let candidates = model_candidates(
                session.st,
                from_module,
                model,
                typed,
                only_methods,
            );
            let keys = candidate_keys(candidates);
            let order = without_repeats(keys, sorted_order(keys));
            ListView {
                items: capped(order).map_values(
                    |place: usize|
                        member_item(session.st, candidates[place as int], only_methods, span),
                ),
                is_incomplete: order.len() > MAX_ITEMS,
            }
        },
        None => ListView { items: Seq::empty(), is_incomplete: false },
    }
}

/// Whether the members that a typed text may become can be numbered.
pub open spec fn members_fit(
    session: SessionInfo,
    from_module: Option<ModuleKey>,
    model_name: Seq<char>,
    typed: Seq<char>,
    only_methods: bool,
) -> bool {
    session.model_named(model_name) matches Some(model) ==> model_candidates(
        session.st,
        from_module,
        model,
        typed,
        only_methods,
    ).len() <= usize::MAX
}

/// Adding a candidate adds its value.
proof fn lemma_candidates_push(candidates: Seq<Candidate>, candidate: Candidate)
    ensures
        candidates_view(candidates.push(candidate)) == candidates_view(candidates).push(candidate@),
{
    assert(candidates_view(candidates.push(candidate)) =~= candidates_view(candidates).push(
        candidate@,
    ));
}

/// Adds the candidates among the members of a class.
fn add_class_candidates(
    st: &SymbolTable,
    from_module: Option<ModuleKey>,
    members: &Vec<Member>,
    typed: &str,
    only_methods: bool,
    out: &mut Vec<Candidate>,
)
    ensures
        candidates_view(final(out)@) == candidates_view(old(out)@) + concat_map(
            members@,
            class_candidate(*st, from_module, typed@, only_methods),
        ),
{
    let ghost part = class_candidate(*st, from_module, typed@, only_methods);
    let ghost before = candidates_view(out@);
    let kind = if only_methods {
        MemberKind::Method
    } else {
        MemberKind::Field
    };
    let mut i: usize = 0;
    assert(candidates_view(out@) =~= before + concat_map(members@.take(0), part));
    while i < members.len()
        invariant
            i <= members.len(),
            kind == (if only_methods {
                MemberKind::Method
            } else {
                MemberKind::Field
            }),
            part == class_candidate(*st, from_module, typed@, only_methods),
            candidates_view(out@) == before + concat_map(members@.take(i as int), part),
        decreases members.len() - i,
    {
        proof {
            lemma_concat_map_step(members@, part, i as int);
        }
        let member = &members[i];
        let ghost done = candidates_view(out@);
        if member.kind == kind && starts_with(member.name.as_str(), typed) && !(only_methods
            && is_synthetic_name(member.name.as_str())) {
            let symbols = st.filter_visible(&member.symbols, from_module);
            if symbols.len() > 0 {
                let candidate = Candidate { name: member.name.as_str().to_string(), symbols };
                proof {
                    lemma_candidates_push(out@, candidate);
                }
                out.push(candidate);
            }
        }
        assert(candidates_view(out@) =~= done + part(*member));
        assert(candidates_view(out@) =~= before + concat_map(members@.take(i + 1), part));
        i = i + 1;
    }
    assert(members@.take(members@.len() as int) =~= members@);
}

/// Adds the candidates among `ir.model.fields` records.
fn add_record_candidates(
    st: &SymbolTable,
    records: &Vec<SymbolKey>,
    typed: &str,
    out: &mut Vec<Candidate>,
)
    ensures
        candidates_view(final(out)@) == candidates_view(old(out)@) + concat_map(
            records@,
            record_candidate(*st, typed@),
        ),
{
    let ghost part = record_candidate(*st, typed@);
    let ghost before = candidates_view(out@);
    let mut i: usize = 0;
    assert(candidates_view(out@) =~= before + concat_map(records@.take(0), part));
    while i < records.len()
        invariant
            i <= records.len(),
            part == record_candidate(*st, typed@),
            candidates_view(out@) == before + concat_map(records@.take(i as int), part),
        decreases records.len() - i,
    {
        proof {
            lemma_concat_map_step(records@, part, i as int);
        }
        let ghost done = candidates_view(out@);
        if let Some(symbol) = st.get(records[i]) {
            if let SymbolData::XmlRecord(record) = &symbol.data {
                if let Some(name) = &record.name {
                    if starts_with(name.as_str(), typed) {
                        let mut symbols: Vec<SymbolKey> = Vec::new();
                        symbols.push(records[i]);
                        let candidate = Candidate { name: name.as_str().to_string(), symbols };
                        assert(symbols@ =~= seq![records@[i as int]]);
                        proof {
                            lemma_candidates_push(out@, candidate);
                        }
                        out.push(candidate);
                    }
                }
            }
        }
        assert(candidates_view(out@) =~= done + part(records@[i as int]));
        assert(candidates_view(out@) =~= before + concat_map(records@.take(i + 1), part));
        i = i + 1;
    }
    assert(records@.take(records@.len() as int) =~= records@);
}

/// Whether a name is one that the analyser made up.
fn is_synthetic_name(name: &str) -> (res: bool)
    ensures
        res == is_synthetic(name@),
{
    let chars = char_vec(name);
    chars.len() > 0 && chars[0] == '<' && chars[chars.len() - 1] == '>'
}

/// Sort text of a method: its rank, then its name.
fn method_sort_text(name: &str) -> (res: String)
    ensures
        res@ == seq![method_rank(name@)] + name@,
{
    proof {
        reveal_strlit("0");
        reveal_strlit("1");
        reveal_strlit("2");
        assert("0"@ =~= seq!['0']);
        assert("1"@ =~= seq!['1']);
        assert("2"@ =~= seq!['2']);
    }
    let chars = char_vec(name);
    let count = chars.len();
    let rank = if count >= 4 && chars[0] == '_' && chars[1] == '_' && chars[count - 2] == '_'
        && chars[count - 1] == '_' {
        "2"
    } else if count > 0 && chars[0] == '_' {
        "1"
    } else {
        "0"
    };
    let mut res = rank.to_string();
    res.append(name);
    res
}

/// Every candidate is offered.
pub proof fn lemma_candidates_offered(
    st: SymbolTable,
    from_module: Option<ModuleKey>,
    model: Model,
    typed: Seq<char>,
    only_methods: bool,
)
    ensures
        forall|k: int|
            0 <= k < model_candidates(st, from_module, model, typed, only_methods).len()
                ==> is_member_offered(
                #[trigger] model_candidates(st, from_module, model, typed, only_methods)[k],
                typed,
                only_methods,
            ),
{
    let main = st.visible_keys(model.main_symbols@, from_module);
    if main.len() > 0 {
        lemma_offered_parts(
            members_at(st, main[0]),
            class_candidate(st, from_module, typed, only_methods),
            typed,
            only_methods,
        );
    }
    if !only_methods {
        lemma_offered_parts(
            st.visible_keys(model.xml_fields@, from_module),
            record_candidate(st, typed),
            typed,
            only_methods,
        );
    }
}

/// Parts whose candidates are offered are so together.
proof fn lemma_offered_parts<A>(
    items: Seq<A>,
    part: spec_fn(A) -> Seq<CandidateView>,
    typed: Seq<char>,
    only_methods: bool,
)
    requires
        forall|item: A, k: int|
            0 <= k < #[trigger] part(item).len() ==> is_member_offered(
                #[trigger] part(item)[k],
                typed,
                only_methods,
            ),
    ensures
        forall|k: int|
            0 <= k < concat_map(items, part).len() ==> is_member_offered(
                #[trigger] concat_map(items, part)[k],
                typed,
                only_methods,
            ),
    decreases items.len(),
{
    if items.len() > 0 {
        let rest = concat_map(items.drop_last(), part);
        let last = part(items.last());
        lemma_offered_parts(items.drop_last(), part, typed, only_methods);
        assert forall|k: int| 0 <= k < (rest + last).len() implies is_member_offered(
            #[trigger] (rest + last)[k],
            typed,
            only_methods,
        ) by {
            if k < rest.len() {
                assert((rest + last)[k] == rest[k]);
            } else {
                assert((rest + last)[k] == last[k - rest.len()]);
            }
        }
    }
}

/// The members of a model that a typed text may become.
pub fn member_items(
    session: &SessionInfo,
    from_module: Option<ModuleKey>,
    model_name: &str,
    typed: &str,
    only_methods: bool,
    span: ByteSpan,
) -> (res: CompletionList)
    ensures
        res@ == member_list(*session, from_module, model_name@, typed@, only_methods, span),
        members_fit(*session, from_module, model_name@, typed@, only_methods),
{
    let st = &session.st;
    let mut items: Vec<CompletionItem> = Vec::new();
    assert(items_view(items@) =~= Seq::empty());
    let model = match session.find_model(model_name) {
        Some(model) => model,
        None => {
            return CompletionList { items, is_incomplete: false };
        },
    };
    let ghost views = model_candidates(*st, from_module, *model, typed@, only_methods);
    let mut candidates: Vec<Candidate> = Vec::new();
    assert(candidates_view(candidates@) =~= Seq::empty());
    let main_symbols = model.get_main_symbols(st, from_module);
    if main_symbols.len() > 0 {
        if let Some(symbol) = st.get(main_symbols[0]) {
            if let SymbolData::Class(class) = &symbol.data {
                add_class_candidates(
                    st,
                    from_module,
                    &class.members,
                    typed,
                    only_methods,
                    &mut candidates,
                );
            }
        }
    }
    if !only_methods {
        // Fields declared as `ir.model.fields` records live outside of any python class.
        let records = model.get_xml_model_field_symbols(st, from_module);
        add_record_candidates(st, &records, typed, &mut candidates);
    }
    assert(candidates_view(candidates@) =~= views);
    proof {
        lemma_candidates_offered(*st, from_module, *model, typed@, only_methods);
    }
    let mut keys: Vec<SortKey> = Vec::new();
    let mut i: usize = 0;
    assert(keys_view(keys@) =~= candidate_keys(views).take(0));
    while i < candidates.len()
        invariant
            i <= candidates.len(),
            views == candidates_view(candidates@),
            keys_view(keys@) == candidate_keys(views).take(i as int),
        decreases candidates.len() - i,
    {
        assert(views[i as int] == candidates@[i as int]@);
        let key = make_name_key(candidates[i].name.as_str());
        let ghost before = keys@;
        keys.push(key);
        assert(keys_view(keys@) =~= keys_view(before).push(key@));
        assert(candidate_keys(views).take(i + 1) =~= candidate_keys(views).take(i as int).push(
            key@,
        ));
        i = i + 1;
    }
    assert(candidate_keys(views).take(views.len() as int) =~= candidate_keys(views));
    assert(keys@.len() == keys_view(keys@).len());
    let sorted = sort_indices(&keys);
    let distinct = drop_repeats(&keys, &sorted);
    proof {
        lemma_kept_below(keys_view(keys@), sorted@, keys@.len() as int);
    }
    let (order, is_incomplete) = cap_order(distinct);
    let ghost all = member_list(
        *session,
        from_module,
        model_name@,
        typed@,
        only_methods,
        span,
    ).items;
    let mut j: usize = 0;
    assert(all.take(0) =~= Seq::empty());
    while j < order.len()
        invariant
            *st == session.st,
            j <= order.len(),
            views == candidates_view(candidates@),
            session.model_named(model_name@) == Some(*model),
            views == model_candidates(*st, from_module, *model, typed@, only_methods),
            order@ == capped(
                without_repeats(candidate_keys(views), sorted_order(candidate_keys(views))),
            ),
            all == member_list(
                *session,
                from_module,
                model_name@,
                typed@,
                only_methods,
                span,
            ).items,
            forall|a: int| 0 <= a < order@.len() ==> (#[trigger] order@[a]) < candidates@.len(),
            forall|k: int|
                0 <= k < views.len() ==> is_member_offered(
                    #[trigger] views[k],
                    typed@,
                    only_methods,
                ),
            items_view(items@) == all.take(j as int),
        decreases order.len() - j,
    {
        let candidate = &candidates[order[j]];
        assert(views[order@[j as int] as int] == candidate@);
        let name = candidate.name.as_str();
        let item = if only_methods {
            make_item(name, CompletionItemKind::Value, None, Some(method_sort_text(name)), span)
        } else {
            make_item(
                name,
                CompletionItemKind::Field,
                field_details(session, candidate.symbols[0]),
                None,
                span,
            )
        };
        proof {
            lemma_items_push(items@, item);
        }
        assert(item@ == all[j as int]);
        items.push(item);
        assert(all.take(j + 1) =~= all.take(j as int).push(all[j as int]));
        j = j + 1;
    }
    assert(all.take(order@.len() as int) =~= all);
    CompletionList { items, is_incomplete }
}

} // verus!
