//! What holds of the completions of an XML document.
use vstd::prelude::*;

use crate::completion_items::{
    candidate_keys, capped, full_id, is_member_offered, is_model_offered, is_synthetic,
    is_xml_id_offered, lemma_candidates_offered, lemma_kept_below, member_list, members_fit,
    method_rank, model_candidates, model_item, model_keys, model_list, model_part, offered_models,
    offered_xml_ids, xml_id_keys, xml_id_list, FilterView, ItemView, ListView, MAX_ITEMS,
};
use crate::seqs::{
    concat_map, first_index, lemma_first_index, lemma_first_where, lemma_is_first_index,
    lemma_selected,
};
use crate::sorting::{
    is_strictly_sorted, key_is_kept, key_le, lemma_str_le_total, no_key_is_dropped,
    order_is_a_stable_sort, repeats_are_dropped, sorted_order, without_repeats, KeyView,
};
use crate::symbols::{is_model, is_module, is_xml_id, xml_id_parts, Model, ModuleKey, SessionInfo};
use crate::text::{str_le, utf8};
use crate::xml_completion::{
    attribute_place, attribute_span, candidates_fit, empty_content_place, is_element_at, is_empty_content_at,
    is_text_at, is_value_at, position_at, target_list, text_place, typed_group, TargetView,
};
use crate::xml_document::{AttributeView, DocumentView};
use crate::xml_spans::{
    is_typed_lead, last_byte, lemma_last_byte, lemma_next_byte, lemma_skip_space,
    lemma_skip_space_back, lemma_skip_typed_lead, ByteSpan,
};

verus! {

/// Whether an item continues what is typed, replacing a span by its label.
pub open spec fn continues_typed(item: ItemView, typed: Seq<char>, span: ByteSpan) -> bool {
    &&& typed.is_prefix_of(item.label)
    &&& item.new_text == item.label
    &&& item.span == span
}

/// Whether all items of a list continue what is typed.
pub open spec fn list_continues_typed(list: ListView, typed: Seq<char>, span: ByteSpan) -> bool {
    forall|k: int|
        0 <= k < list.items.len() ==> continues_typed(#[trigger] list.items[k], typed, span)
}

/// Places in an order of `count` candidates lie below `count`.
proof fn lemma_capped_below(keys: Seq<KeyView>, order: Seq<usize>)
    requires
        forall|a: int| 0 <= a < order.len() ==> (#[trigger] order[a]) < keys.len(),
    ensures
        forall|a: int| 0 <= a < capped(order).len() ==> (#[trigger] capped(order)[a]) < keys.len(),
        capped(order).len() <= MAX_ITEMS,
{
    assert forall|a: int| 0 <= a < capped(order).len() implies (#[trigger] capped(order)[a])
        < keys.len() by {
        assert(capped(order)[a] == order[a]);
    }
}

/// The items of models continue what is typed, and are no more than the models.
proof fn lemma_model_parts(
    session: SessionInfo,
    from_module: Option<ModuleKey>,
    typed: Seq<char>,
    span: ByteSpan,
    places: Seq<usize>,
)
    requires
        forall|a: int|
            0 <= a < places.len() ==> (#[trigger] places[a]) < offered_models(
                session.models@,
                typed,
            ).len(),
    ensures
        ({
            let part = model_part(
                session,
                from_module,
                offered_models(session.models@, typed),
                span,
            );
            let items = concat_map(places, part);
            &&& items.len() <= places.len()
            &&& forall|k: int|
                0 <= k < items.len() ==> continues_typed(#[trigger] items[k], typed, span)
        }),
    decreases places.len(),
{
    let models = session.models@;
    let offered = offered_models(models, typed);
    let part = model_part(session, from_module, offered, span);
    if places.len() > 0 {
        let shorter = places.drop_last();
        assert forall|a: int| 0 <= a < shorter.len() implies (#[trigger] shorter[a])
            < offered.len() by {
            assert(shorter[a] == places[a]);
        }
        lemma_model_parts(session, from_module, typed, span, shorter);
        assert(session.models.len() == models.len());
        lemma_selected(models.len() as int, is_model_offered(models, typed));
        let place = places[places.len() - 1];
        assert(is_model_offered(models, typed)(offered[place as int] as int));
        let rest = concat_map(shorter, part);
        let items = concat_map(places, part);
        assert(items =~= rest + part(place));
        assert forall|k: int| 0 <= k < items.len() implies continues_typed(
            #[trigger] items[k],
            typed,
            span,
        ) by {
            if k < rest.len() {
                assert(items[k] == rest[k]);
            } else {
                assert(items[k] == part(place)[k - rest.len()]);
            }
        }
    }
}

/// A completion offers no more items than its cap, and each continues what is typed before the
/// cursor.
pub proof fn completions_continue_what_is_typed(
    session: SessionInfo,
    from_module: Option<ModuleKey>,
    target: TargetView,
    typed: Seq<char>,
    span: ByteSpan,
)
    requires
        candidates_fit(session, from_module, target, typed),
    ensures
        target_list(session, from_module, target, typed, span).items.len() <= MAX_ITEMS,
        list_continues_typed(
            target_list(session, from_module, target, typed, span),
            typed,
            span,
        ),
{
    match target {
        TargetView::Model => {
            let models = session.models@;
            let offered = offered_models(models, typed);
            let keys = model_keys(models, offered);
            assert(session.models.len() == models.len());
            lemma_selected(models.len() as int, is_model_offered(models, typed));
            order_is_a_stable_sort(keys, keys.len() as int);
            lemma_capped_below(keys, sorted_order(keys));
            lemma_model_parts(session, from_module, typed, span, capped(sorted_order(keys)));
        },
        TargetView::Field(model) => {
            lemma_member_list(session, from_module, model, typed, false, span);
        },
        TargetView::Method(model) => {
            lemma_member_list(session, from_module, model, typed, true, span);
        },
        TargetView::XmlId(filter) => {
            let offered = offered_xml_ids(session, filter, typed);
            let keys = xml_id_keys(session, offered);
            let accepts = is_xml_id_offered(session, filter, typed);
            assert(session.xml_ids.len() == session.xml_ids@.len());
            lemma_selected(session.xml_ids@.len() as int, accepts);
            order_is_a_stable_sort(keys, keys.len() as int);
            lemma_capped_below(keys, sorted_order(keys));
            let places = capped(sorted_order(keys));
            let items = xml_id_list(session, from_module, filter, typed, span).items;
            assert forall|k: int| 0 <= k < items.len() implies continues_typed(
                #[trigger] items[k],
                typed,
                span,
            ) by {
                assert(places[k] < offered.len());
                assert(accepts(offered[places[k] as int] as int));
            }
        },
    }
}

/// The members of a model continue what is typed, within the cap; their labels ascend.
proof fn lemma_member_list(
    session: SessionInfo,
    from_module: Option<ModuleKey>,
    model_name: Seq<char>,
    typed: Seq<char>,
    only_methods: bool,
    span: ByteSpan,
)
    requires
        members_fit(session, from_module, model_name, typed, only_methods),
    ensures
        ({
            let list = member_list(session, from_module, model_name, typed, only_methods, span);
            &&& list.items.len() <= MAX_ITEMS
            &&& list_continues_typed(list, typed, span)
            &&& labels_ascend(list.items)
        }),
{
    if let Some(model) = session.model_named(model_name) {
        let candidates = model_candidates(session.st, from_module, model, typed, only_methods);
        let keys = candidate_keys(candidates);
        let sorted = sorted_order(keys);
        let order = without_repeats(keys, sorted);
        let places = capped(order);
        let items = member_list(
            session,
            from_module,
            model_name,
            typed,
            only_methods,
            span,
        ).items;
        assert(forall|a: int| 0 <= a < places.len() ==> (#[trigger] places[a]) < keys.len()) by {
            order_is_a_stable_sort(keys, keys.len() as int);
            lemma_kept_below(keys, sorted, keys.len() as int);
            lemma_capped_below(keys, order);
        }
        assert(places.len() <= MAX_ITEMS);
        assert forall|k: int| 0 <= k < items.len() implies continues_typed(
            #[trigger] items[k],
            typed,
            span,
        ) by {
            lemma_candidates_offered(session.st, from_module, model, typed, only_methods);
            assert(places[k] < keys.len());
            assert(is_member_offered(candidates[places[k] as int], typed, only_methods));
        }
        assert(is_strictly_sorted(keys, order)) by {
            order_is_a_stable_sort(keys, keys.len() as int);
            repeats_are_dropped(keys, sorted);
        }
        assert forall|a: int, b: int| 0 <= a < b < items.len() implies str_le(
            (#[trigger] items[a]).label,
            (#[trigger] items[b]).label,
        ) && items[a].label != items[b].label by {
            assert(places[a] == order[a] && places[b] == order[b]);
            assert(places[a] < keys.len() && places[b] < keys.len());
            assert(key_le(keys[order[a] as int], keys[order[b] as int]));
            assert(keys[order[a] as int] != keys[order[b] as int]);
        }
    }
}

/// Whether labels are distinct and in ascending order.
pub open spec fn labels_ascend(items: Seq<ItemView>) -> bool {
    forall|a: int, b: int|
        0 <= a < b < items.len() ==> str_le((#[trigger] items[a]).label, (#[trigger] items[b]).label)
            && items[a].label != items[b].label
}

/// The members of a model are offered by name, each name once, in ascending order.
pub proof fn member_labels_ascend(
    session: SessionInfo,
    from_module: Option<ModuleKey>,
    model_name: Seq<char>,
    typed: Seq<char>,
    only_methods: bool,
    span: ByteSpan,
)
    requires
        members_fit(session, from_module, model_name, typed, only_methods),
    ensures
        labels_ascend(
            member_list(session, from_module, model_name, typed, only_methods, span).items,
        ),
{
    lemma_member_list(session, from_module, model_name, typed, only_methods, span);
}

/// Whether models at places come by ascending name, each name once.
spec fn names_ascend(models: Seq<Model>, offered: Seq<usize>, places: Seq<usize>) -> bool {
    forall|a: int, b: int|
        0 <= a < b < places.len() ==> {
            let left = models[offered[#[trigger] places[a] as int] as int].name@;
            let right = models[offered[#[trigger] places[b] as int] as int].name@;
            str_le(left, right) && left != right
        }
}

/// Items of models whose names ascend ascend.
proof fn lemma_model_parts_ascend(
    session: SessionInfo,
    from_module: Option<ModuleKey>,
    offered: Seq<usize>,
    span: ByteSpan,
    places: Seq<usize>,
)
    requires
        names_ascend(session.models@, offered, places),
    ensures
        labels_ascend(concat_map(places, model_part(session, from_module, offered, span))),
    decreases places.len(),
{
    let models = session.models@;
    let part = model_part(session, from_module, offered, span);
    if places.len() > 0 {
        let shorter = places.drop_last();
        let last = places.len() - 1;
        assert forall|a: int, b: int| 0 <= a < b < shorter.len() implies {
            let left = models[offered[#[trigger] shorter[a] as int] as int].name@;
            let right = models[offered[#[trigger] shorter[b] as int] as int].name@;
            str_le(left, right) && left != right
        } by {
            assert(shorter[a] == places[a] && shorter[b] == places[b]);
        }
        lemma_model_parts_ascend(session, from_module, offered, span, shorter);
        let rest = concat_map(shorter, part);
        let added = part(places[last]);
        let items = concat_map(places, part);
        assert(items =~= rest + added);
        assert forall|i: int, k: int| 0 <= i < k < items.len() implies str_le(
            (#[trigger] items[i]).label,
            (#[trigger] items[k]).label,
        ) && items[i].label != items[k].label by {
            assert(items[i] == rest[i]);
            if k < rest.len() {
                assert(items[k] == rest[k]);
            } else {
                assert(items[k] == added[k - rest.len()]);
                lemma_model_origin(session, from_module, offered, span, shorter, i);
                let a = choose|a: int|
                    0 <= a < shorter.len() && rest[i].label
                        == models[offered[#[trigger] shorter[a] as int] as int].name@;
                assert(places[a] == shorter[a]);
                assert(str_le(
                    models[offered[places[a] as int] as int].name@,
                    models[offered[places[last] as int] as int].name@,
                ));
            }
        }
    }
}

/// Models are offered by name, each name once, in ascending order.
pub proof fn model_labels_ascend(
    session: SessionInfo,
    from_module: Option<ModuleKey>,
    typed: Seq<char>,
    span: ByteSpan,
)
    requires
        session.wf(),
    ensures
        labels_ascend(model_list(session, from_module, typed, span).items),
{
    let models = session.models@;
    let offered = offered_models(models, typed);
    let keys = model_keys(models, offered);
    assert(session.models.len() == models.len());
    lemma_selected(models.len() as int, is_model_offered(models, typed));
    order_is_a_stable_sort(keys, keys.len() as int);
    let order = sorted_order(keys);
    lemma_capped_below(keys, order);
    let places = capped(order);
    assert forall|a: int, b: int| 0 <= a < b < places.len() implies {
        let left = models[offered[#[trigger] places[a] as int] as int].name@;
        let right = models[offered[#[trigger] places[b] as int] as int].name@;
        str_le(left, right) && left != right
    } by {
        let (x, y) = (places[a] as int, places[b] as int);
        assert(places[a] == order[a] && places[b] == order[b]);
        assert(x < keys.len() && y < keys.len() && x != y);
        assert(key_le(keys[x], keys[y]));
        lemma_str_le_total(keys[x].major, keys[y].major);
        assert(offered[x] < models.len() && offered[y] < models.len());
        assert(offered[x] != offered[y]);
        let (i, j) = (offered[x] as int, offered[y] as int);
        if i < j {
            assert(models[i].name@ != models[j].name@);
        } else {
            assert(models[j].name@ != models[i].name@);
        }
    }
    lemma_model_parts_ascend(session, from_module, offered, span, places);
}

/// The edit of an attribute covers the cursor and stays inside the value.
pub proof fn attribute_edit_covers_cursor(text: Seq<char>, attribute: AttributeView, offset: usize)
    requires
        attribute.start <= offset <= attribute.end <= utf8(text).len(),
    ensures
        attribute_span(text, attribute, offset) matches Some(span) ==> attribute.start <= span.start
            <= offset <= span.end <= attribute.end,
{
    let (bytes, start, end) = (utf8(text), attribute.start as int, attribute.end as int);
    lemma_typed_group(bytes, start, offset as int, end);
}

proof fn lemma_typed_group(bytes: Seq<u8>, start: int, offset: int, end: int)
    requires
        0 <= start <= offset <= end <= bytes.len(),
        end <= usize::MAX,
    ensures
        ({
            let span = typed_group(bytes, start, offset, end);
            &&& start <= span.start <= offset <= span.end <= end
            &&& forall|j: int| span.start <= j < span.end ==> bytes[j] != 0x2c
            &&& span.start < offset ==> !is_typed_lead(bytes[span.start as int])
            &&& span.end < end ==> bytes[span.end as int] == 0x2c
        }),
{
    lemma_last_byte(bytes, start, offset, 0x2c);
    let from = match last_byte(bytes, start, offset, 0x2c) {
        Some(comma) => comma + 1,
        None => start,
    };
    lemma_next_byte(bytes, from, end, 0x2c);
    lemma_skip_typed_lead(bytes, from, offset);
}

/// In a `groups` list the edit replaces the one segment that the cursor sits in: no comma in it, and
/// neither a blank nor the `!` before what is typed.
pub proof fn group_edit_is_one_segment(text: Seq<char>, attribute: AttributeView, offset: usize)
    requires
        attribute.start <= offset <= attribute.end <= utf8(text).len(),
        attribute.name == "groups"@,
    ensures
        attribute_span(text, attribute, offset) matches Some(span) ==> {
            &&& forall|j: int| span.start <= j < span.end ==> utf8(text)[j] != 0x2c
            &&& span.start < offset ==> !is_typed_lead(utf8(text)[span.start as int])
            &&& span.end < attribute.end ==> utf8(text)[span.end as int] == 0x2c
        },
{
    lemma_typed_group(
        utf8(text),
        attribute.start as int,
        offset as int,
        attribute.end as int,
    );
}

/// Private methods sort after public ones, dunder ones after both.
pub proof fn methods_are_ranked(left: Seq<char>, right: Seq<char>)
    requires
        method_rank(left) < method_rank(right),
    ensures
        str_le(seq![method_rank(left)] + left, seq![method_rank(right)] + right),
        seq![method_rank(left)] + left != seq![method_rank(right)] + right,
{
    let (first, second) = (seq![method_rank(left)] + left, seq![method_rank(right)] + right);
    assert(first[0] == method_rank(left) && second[0] == method_rank(right));
}

/// The parts of an xml id with its module name are the module name and the local id.
proof fn lemma_full_id_parts(name: Seq<char>, local_id: Seq<char>)
    requires
        !name.contains('.'),
        !local_id.contains('.'),
    ensures
        xml_id_parts(name + "."@ + local_id) == Some((Some(name), local_id)),
{
    reveal_strlit(".");
    let full = name + "."@ + local_id;
    let dot = name.len() as int;
    assert("."@ =~= seq!['.']);
    assert(full[dot] == '.');
    full.index_of_first_ensures('.');
    let first = full.index_of_first('.')->0;
    if first < dot {
        assert(name[first] == full[first]);
    }
    assert(full.take(dot) =~= name);
    assert(full.skip(dot + 1) =~= local_id);
}

/// An xml id that is offered resolves, from any module, to the declarations it was offered for,
/// unless a dot in the module name or in the id makes it another one.
pub proof fn offered_xml_id_resolves(session: SessionInfo, file_module: ModuleKey, index: int)
    requires
        session.wf(),
        0 <= index < session.xml_ids@.len(),
        session.st.module_at(session.xml_ids@[index].module) matches Some(module)
            && !module.name@.contains('.'),
        !session.xml_ids@[index].local_id@.contains('.'),
    ensures
        session.xml_ids_of(file_module, full_id(session.st, session.xml_ids@[index]))
            == session.xml_ids@[index].ids@,
{
    let entry = session.xml_ids@[index];
    let modules = session.st.modules@;
    let at = entry.module.index as int;
    let name = modules[at].name@;
    lemma_full_id_parts(name, entry.local_id@);
    assert forall|j: int| 0 <= j < at implies !is_module(name)(#[trigger] modules[j]) by {
        assert(modules[j].name@ != modules[at].name@);
    }
    lemma_is_first_index(modules, is_module(name), at);
    let accepts = is_xml_id(entry.module, entry.local_id@);
    assert forall|j: int| 0 <= j < index implies !accepts(#[trigger] session.xml_ids@[j]) by {
        assert(session.xml_ids@[j].module != session.xml_ids@[index].module
            || session.xml_ids@[j].local_id@ != session.xml_ids@[index].local_id@);
    }
    lemma_is_first_index(session.xml_ids@, accepts, index);
}

/// What a completion replaces covers the cursor.
pub proof fn edit_covers_cursor(
    session: SessionInfo,
    from_module: Option<ModuleKey>,
    doc: DocumentView,
    offset: usize,
)
    requires
        doc.wf(),
    ensures
        position_at(session, from_module, doc, offset) matches Some((_, span)) ==> span.start
            <= offset <= span.end && span.end <= utf8(doc.text).len(),
{
    let count = doc.nodes.len() as int;
    lemma_first_where(0, count, is_element_at(doc, offset));
    lemma_first_where(0, count, is_text_at(doc, offset));
    lemma_first_where(0, count, is_empty_content_at(doc, offset));
    if let Some((index, k)) = attribute_place(doc, offset) {
        let attributes = doc.nodes[index].attributes;
        assert(is_element_at(doc, offset)(index));
        assert(doc.node_wf(index));
        lemma_first_index(attributes, is_value_at(offset));
        attribute_edit_covers_cursor(doc.text, attributes[k], offset);
    } else if let Some(index) = text_place(doc, offset) {
        assert(is_text_at(doc, offset)(index));
        assert(doc.node_wf(index));
        let node = doc.nodes[index];
        lemma_skip_space(utf8(doc.text), node.start as int, offset as int);
        lemma_skip_space_back(utf8(doc.text), offset as int, node.end as int);
    } else if let Some(index) = empty_content_place(doc, offset) {
        assert(is_empty_content_at(doc, offset)(index));
        assert(doc.node_wf(index));
        let node = doc.nodes[index];
        lemma_last_byte(utf8(doc.text), node.start as int, node.end as int, 0x3c);
    }
}

/// Every model that is offered is one that its label names.
pub proof fn offered_models_resolve(
    session: SessionInfo,
    from_module: Option<ModuleKey>,
    typed: Seq<char>,
    span: ByteSpan,
    k: int,
)
    requires
        0 <= k < model_list(session, from_module, typed, span).items.len(),
    ensures
        session.model_named(
            model_list(session, from_module, typed, span).items[k].label,
        ) is Some,
{
    let models = session.models@;
    let offered = offered_models(models, typed);
    let keys = model_keys(models, offered);
    assert(session.models.len() == models.len());
    lemma_selected(models.len() as int, is_model_offered(models, typed));
    order_is_a_stable_sort(keys, keys.len() as int);
    lemma_capped_below(keys, sorted_order(keys));
    let places = capped(sorted_order(keys));
    lemma_model_origin(session, from_module, offered, span, places, k);
    let label = model_list(session, from_module, typed, span).items[k].label;
    let a = choose|a: int|
        0 <= a < places.len() && label
            == models[offered[#[trigger] places[a] as int] as int].name@;
    assert(places[a] < offered.len());
    let index = offered[places[a] as int] as int;
    assert(index < models.len());
    lemma_first_index(models, is_model(label));
    if first_index(models, is_model(label)) >= models.len() {
        assert(!is_model(label)(models[index]));
    }
}

/// Every item of models is that of one of them.
proof fn lemma_model_origin(
    session: SessionInfo,
    from_module: Option<ModuleKey>,
    offered: Seq<usize>,
    span: ByteSpan,
    places: Seq<usize>,
    k: int,
)
    requires
        0 <= k < concat_map(places, model_part(session, from_module, offered, span)).len(),
    ensures
        exists|a: int|
            0 <= a < places.len() && concat_map(
                places,
                model_part(session, from_module, offered, span),
            )[k].label == session.models@[offered[#[trigger] places[a] as int] as int].name@,
    decreases places.len(),
{
    let part = model_part(session, from_module, offered, span);
    if places.len() > 0 {
        let shorter = places.drop_last();
        let last = places.len() - 1;
        let rest = concat_map(shorter, part);
        let items = concat_map(places, part);
        assert(items =~= rest + part(places[last]));
        if k < rest.len() {
            lemma_model_origin(session, from_module, offered, span, shorter, k);
            let a = choose|a: int|
                0 <= a < shorter.len() && rest[k].label
                    == session.models@[offered[#[trigger] shorter[a] as int] as int].name@;
            assert(places[a] == shorter[a]);
        } else {
            assert(items[k].label == session.models@[offered[places[last] as int] as int].name@);
        }
    }
}

/// Whether some item of a list has a label.
pub open spec fn offers(list: ListView, label: Seq<char>) -> bool {
    exists|k: int| 0 <= k < list.items.len() && (#[trigger] list.items[k]).label == label
}

/// A list of members that is not flagged incomplete offers every member that the typed text may
/// become.
pub proof fn complete_member_list_leaves_out_nothing(
    session: SessionInfo,
    from_module: Option<ModuleKey>,
    model: Model,
    model_name: Seq<char>,
    typed: Seq<char>,
    only_methods: bool,
    span: ByteSpan,
    index: int,
)
    requires
        session.model_named(model_name) == Some(model),
        members_fit(session, from_module, model_name, typed, only_methods),
        0 <= index < model_candidates(session.st, from_module, model, typed, only_methods).len(),
        !member_list(
            session,
            from_module,
            model_name,
            typed,
            only_methods,
            span,
        ).is_incomplete,
    ensures
        offers(
            member_list(session, from_module, model_name, typed, only_methods, span),
            model_candidates(session.st, from_module, model, typed, only_methods)[index].name,
        ),
{
    let candidates = model_candidates(session.st, from_module, model, typed, only_methods);
    let keys = candidate_keys(candidates);
    let sorted = sorted_order(keys);
    let order = without_repeats(keys, sorted);
    let list = member_list(session, from_module, model_name, typed, only_methods, span);
    assert(key_is_kept(keys, order, index as usize)) by {
        order_is_a_stable_sort(keys, keys.len() as int);
        no_key_is_dropped(keys, sorted);
        assert(sorted.contains(index as usize));
        assert(key_is_kept(keys, order, sorted[sorted.index_of(index as usize)]));
    }
    let b = choose|b: int|
        0 <= b < order.len() && keys[order[b] as int] == keys[index as usize as int]
            && #[trigger] order[b] <= index as usize;
    assert(order[b] < keys.len()) by {
        order_is_a_stable_sort(keys, keys.len() as int);
        lemma_kept_below(keys, sorted, keys.len() as int);
    }
    assert(order[b] < keys.len());
    assert(list.items[b].label == candidates[index].name);
}

/// A list of xml ids that is not flagged incomplete offers every one that the typed text may become.
pub proof fn complete_xml_id_list_leaves_out_nothing(
    session: SessionInfo,
    from_module: Option<ModuleKey>,
    filter: FilterView,
    typed: Seq<char>,
    span: ByteSpan,
    index: int,
)
    requires
        0 <= index < offered_xml_ids(session, filter, typed).len(),
        !xml_id_list(session, from_module, filter, typed, span).is_incomplete,
    ensures
        offers(
            xml_id_list(session, from_module, filter, typed, span),
            full_id(
                session.st,
                session.xml_ids@[offered_xml_ids(session, filter, typed)[index] as int],
            ),
        ),
{
    let offered = offered_xml_ids(session, filter, typed);
    let keys = xml_id_keys(session, offered);
    let order = sorted_order(keys);
    let list = xml_id_list(session, from_module, filter, typed, span);
    assert(session.xml_ids.len() == session.xml_ids@.len());
    lemma_selected(
        session.xml_ids@.len() as int,
        is_xml_id_offered(session, filter, typed),
    );
    order_is_a_stable_sort(keys, keys.len() as int);
    assert(order.contains(index as usize));
    let k = order.index_of(index as usize);
    assert(list.items[k].label == full_id(
        session.st,
        session.xml_ids@[offered[index] as int],
    ));
}

/// A list of models that is not flagged incomplete offers every model that the typed text may become
/// and that has an item.
pub proof fn complete_model_list_leaves_out_nothing(
    session: SessionInfo,
    from_module: Option<ModuleKey>,
    typed: Seq<char>,
    span: ByteSpan,
    index: int,
)
    requires
        0 <= index < offered_models(session.models@, typed).len(),
        model_item(
            session,
            from_module,
            session.models@[offered_models(session.models@, typed)[index] as int],
            span,
        ).len() > 0,
        !model_list(session, from_module, typed, span).is_incomplete,
    ensures
        offers(
            model_list(session, from_module, typed, span),
            session.models@[offered_models(session.models@, typed)[index] as int].name@,
        ),
{
    let models = session.models@;
    let offered = offered_models(models, typed);
    let keys = model_keys(models, offered);
    let order = sorted_order(keys);
    let part = model_part(session, from_module, offered, span);
    assert(session.models.len() == models.len());
    lemma_selected(models.len() as int, is_model_offered(models, typed));
    order_is_a_stable_sort(keys, keys.len() as int);
    assert(order.contains(index as usize));
    let a = order.index_of(index as usize);
    lemma_part_is_there(order, part, a);
    let k = choose|k: int|
        0 <= k < concat_map(order, part).len() && #[trigger] concat_map(order, part)[k] == part(
            order[a],
        )[0];
    assert(model_list(session, from_module, typed, span).items[k].label
        == models[offered[index] as int].name@);
}

/// What a part holds is there among all parts.
proof fn lemma_part_is_there(
    places: Seq<usize>,
    part: spec_fn(usize) -> Seq<ItemView>,
    a: int,
)
    requires
        0 <= a < places.len(),
        part(places[a]).len() > 0,
    ensures
        exists|k: int|
            0 <= k < concat_map(places, part).len() && #[trigger] concat_map(places, part)[k]
                == part(places[a])[0],
    decreases places.len(),
{
    let shorter = places.drop_last();
    let rest = concat_map(shorter, part);
    let all = concat_map(places, part);
    assert(all =~= rest + part(places.last()));
    if a < shorter.len() {
        assert(shorter[a] == places[a]);
        lemma_part_is_there(shorter, part, a);
        let k = choose|k: int| 0 <= k < rest.len() && #[trigger] rest[k] == part(shorter[a])[0];
        assert(all[k] == rest[k]);
    } else {
        assert(all[rest.len() as int] == part(places[a])[0]);
    }
}

/// No method is offered whose name stands in angle brackets, as the analyser names lambdas.
pub proof fn synthetic_methods_are_not_offered(
    session: SessionInfo,
    from_module: Option<ModuleKey>,
    model_name: Seq<char>,
    typed: Seq<char>,
    span: ByteSpan,
    k: int,
)
    requires
        members_fit(session, from_module, model_name, typed, true),
        0 <= k < member_list(session, from_module, model_name, typed, true, span).items.len(),
    ensures
        !is_synthetic(
            member_list(session, from_module, model_name, typed, true, span).items[k].label,
        ),
{
    let model = session.model_named(model_name)->0;
    let candidates = model_candidates(session.st, from_module, model, typed, true);
    let keys = candidate_keys(candidates);
    let sorted = sorted_order(keys);
    let order = without_repeats(keys, sorted);
    lemma_candidates_offered(session.st, from_module, model, typed, true);
    order_is_a_stable_sort(keys, keys.len() as int);
    lemma_kept_below(keys, sorted, keys.len() as int);
    lemma_capped_below(keys, order);
    assert(capped(order)[k] < keys.len());
    assert(is_member_offered(candidates[capped(order)[k] as int], typed, true));
}

} // verus!
