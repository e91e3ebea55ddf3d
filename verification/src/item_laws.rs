//! What holds of the completion of models and xml ids, and of the notes beside the labels of items.
use vstd::prelude::*;

use crate::completion_items::{
    capped, distinct_names, evaluations_note, field_note, first_field_class, is_model_offered,
    is_xml_id_offered, joined, model_item, model_keys, model_list, model_part, module_dirs,
    name_key, name_keys, offered_models, offered_xml_ids, require_note, xml_id_item,
    xml_id_keys, xml_id_list, CompletionItemKind, FilterView, ItemView,
};
use crate::completion_laws::offers;
use crate::lookup_laws::{
    data_at, in_sight, is_of_module, is_there, known_comodel, lemma_seen_iff,
    symbols_are_of_their_module,
};
use crate::seqs::{
    concat_map, lemma_part_origin, lemma_part_place, lemma_selected, lemma_stands_contains,
    selected,
};
use crate::sorting::{
    is_strictly_sorted, key_is_kept, key_le, lemma_str_le_total, no_key_is_dropped,
    order_is_a_stable_sort, repeats_are_dropped, sorted_order, without_repeats,
};
use crate::symbols::{
    Evaluation, Model, ModuleKey, SessionInfo, SymbolData, SymbolKey, SymbolTable, XmlId,
    XmlIdEntry, XmlIdKind,
};
use crate::text::str_le;
use crate::xml_spans::ByteSpan;

verus! {

/// Texts are ordered by their first character that differs, one that the other starts with first.
pub proof fn texts_are_ordered_by_their_first_difference(
    left: Seq<char>,
    right: Seq<char>,
    i: int,
)
    requires
        0 <= i <= left.len(),
        i <= right.len(),
        left.take(i) == right.take(i),
        i == left.len() || i == right.len() || left[i] != right[i],
    ensures
        i == left.len() ==> str_le(left, right),
        i < left.len() && i == right.len() ==> !str_le(left, right),
        i < left.len() && i < right.len() ==> (str_le(left, right) <==> left[i] < right[i]),
    decreases i,
{
    if i > 0 {
        assert(left[0] == left.take(i)[0] && right[0] == right.take(i)[0]);
        let (l, r) = (left.drop_first(), right.drop_first());
        assert(l.take(i - 1) =~= left.take(i).drop_first());
        assert(r.take(i - 1) =~= right.take(i).drop_first());
        texts_are_ordered_by_their_first_difference(l, r, i - 1);
    }
}

/// Whether key `j` is the first of the keys that is the class of a field.
pub open spec fn is_first_field_class(st: SymbolTable, keys: Seq<SymbolKey>, j: int) -> bool {
    &&& 0 <= j < keys.len()
    &&& is_field_class(st, keys[j])
    &&& forall|i: int| 0 <= i < j ==> !is_field_class(st, #[trigger] keys[i])
}

/// Whether a key is that of the class of a field.
pub open spec fn is_field_class(st: SymbolTable, key: SymbolKey) -> bool {
    &&& is_there(st, key)
    &&& data_at(st, key) matches SymbolData::Class(class)
    &&& class.is_field_class
}

/// A type with the model that it relates to, in round brackets.
pub open spec fn typed_as(ttype: Seq<char>, comodel: Option<Seq<char>>) -> Seq<char> {
    match comodel {
        Some(comodel) => ttype + seq!['('] + comodel + seq![')'],
        None => ttype,
    }
}

proof fn lemma_typed_as(ttype: Seq<char>, comodel: Option<Seq<char>>)
    ensures
        crate::completion_items::type_note(ttype, comodel) == typed_as(ttype, comodel),
{
    reveal_strlit("(");
    reveal_strlit(")");
    assert("("@ =~= seq!['(']);
    assert(")"@ =~= seq![')']);
}

proof fn lemma_first_class(st: SymbolTable, keys: Seq<SymbolKey>)
    ensures
        forall|j: int| #[trigger]
            is_first_field_class(st, keys, j) ==> first_field_class(st, keys) == Some(
                data_at(st, keys[j])->Class_0,
            ),
        (forall|j: int| 0 <= j < keys.len() ==> !is_field_class(st, #[trigger] keys[j]))
            ==> first_field_class(st, keys) is None,
    decreases keys.len(),
{
    if keys.len() > 0 {
        let rest = keys.drop_first();
        lemma_first_class(st, rest);
        assert forall|j: int| #[trigger]
            is_first_field_class(st, keys, j) implies first_field_class(st, keys) == Some(
            data_at(st, keys[j])->Class_0,
        ) by {
            if j > 0 {
                assert(!is_field_class(st, keys[0]));
                assert forall|i: int| 0 <= i < j - 1 implies !is_field_class(
                    st,
                    #[trigger] rest[i],
                ) by {
                    assert(rest[i] == keys[i + 1]);
                }
                assert(rest[j - 1] == keys[j]);
                assert(is_first_field_class(st, rest, j - 1));
            }
        }
        if forall|j: int| 0 <= j < keys.len() ==> !is_field_class(st, #[trigger] keys[j]) {
            assert(!is_field_class(st, keys[0]));
            assert forall|j: int| 0 <= j < rest.len() implies !is_field_class(
                st,
                #[trigger] rest[j],
            ) by {
                assert(rest[j] == keys[j + 1]);
            }
        }
    }
}

/// Whether no symbol that an evaluation leads to is the class of a field.
pub open spec fn leads_to_no_field_class(st: SymbolTable, evaluation: Evaluation) -> bool {
    forall|j: int|
        0 <= j < evaluation.followed@.len() ==> !is_field_class(
            st,
            #[trigger] evaluation.followed@[j],
        )
}

proof fn lemma_evaluation_note(st: SymbolTable, evaluations: Seq<Evaluation>, e: int, j: int)
    requires
        0 <= e < evaluations.len(),
        is_first_field_class(st, evaluations[e].followed@, j),
        forall|i: int| 0 <= i < e ==> leads_to_no_field_class(st, #[trigger] evaluations[i]),
    ensures
        ({
            let tree = data_at(st, evaluations[e].followed@[j])->Class_0.tree@;
            &&& tree.len() == 0 ==> evaluations_note(st, evaluations) is None
            &&& tree.len() > 0 ==> evaluations_note(st, evaluations) == Some(
                typed_as(tree.last()@, known_comodel(evaluations[e])),
            )
        }),
    decreases e,
{
    lemma_first_class(st, evaluations[0].followed@);
    if e == 0 {
        let tree = data_at(st, evaluations[e].followed@[j])->Class_0.tree@;
        if tree.len() > 0 {
            lemma_typed_as(tree.last()@, known_comodel(evaluations[0]));
        }
    } else {
        let rest = evaluations.drop_first();
        assert(leads_to_no_field_class(st, evaluations[0]));
        assert forall|i: int| 0 <= i < e - 1 implies leads_to_no_field_class(
            st,
            #[trigger] rest[i],
        ) by {
            assert(rest[i] == evaluations[i + 1]);
        }
        assert(rest[e - 1] == evaluations[e]);
        lemma_evaluation_note(st, rest, e - 1, j);
    }
}

proof fn lemma_no_evaluation_note(st: SymbolTable, evaluations: Seq<Evaluation>)
    requires
        forall|i: int|
            0 <= i < evaluations.len() ==> leads_to_no_field_class(st, #[trigger] evaluations[i]),
    ensures
        evaluations_note(st, evaluations) is None,
    decreases evaluations.len(),
{
    if evaluations.len() > 0 {
        let rest = evaluations.drop_first();
        assert(leads_to_no_field_class(st, evaluations[0]));
        lemma_first_class(st, evaluations[0].followed@);
        assert forall|i: int| 0 <= i < rest.len() implies leads_to_no_field_class(
            st,
            #[trigger] rest[i],
        ) by {
            assert(rest[i] == evaluations[i + 1]);
        }
        lemma_no_evaluation_note(st, rest);
    }
}

/// The type of a variable is the name of the class of a field that the first of its evaluations leads
/// to which leads to one, with the comodel that this evaluation knows in brackets; there is none when no
/// evaluation does.
pub proof fn variables_are_typed_by_their_class(
    st: SymbolTable,
    key: SymbolKey,
    e: int,
    j: int,
)
    requires
        is_there(st, key),
        data_at(st, key) is Variable,
    ensures
        ({
            let evaluations = data_at(st, key)->Variable_0.evaluations@;
            &&& 0 <= e < evaluations.len() && is_first_field_class(
                st,
                evaluations[e].followed@,
                j,
            ) && (forall|i: int|
                0 <= i < e ==> leads_to_no_field_class(st, #[trigger] evaluations[i])) ==> {
                let tree = data_at(st, evaluations[e].followed@[j])->Class_0.tree@;
                &&& tree.len() == 0 ==> field_note(st, key) is None
                &&& tree.len() > 0 ==> field_note(st, key) == Some(
                    typed_as(tree.last()@, known_comodel(evaluations[e])),
                )
            }
            &&& (forall|i: int|
                0 <= i < evaluations.len() ==> leads_to_no_field_class(
                    st,
                    #[trigger] evaluations[i],
                )) ==> field_note(st, key) is None
        }),
{
    let evaluations = data_at(st, key)->Variable_0.evaluations@;
    if 0 <= e < evaluations.len() && is_first_field_class(st, evaluations[e].followed@, j) && (
    forall|i: int| 0 <= i < e ==> leads_to_no_field_class(st, #[trigger] evaluations[i])) {
        lemma_evaluation_note(st, evaluations, e, j);
    }
    if forall|i: int|
        0 <= i < evaluations.len() ==> leads_to_no_field_class(st, #[trigger] evaluations[i]) {
        lemma_no_evaluation_note(st, evaluations);
    }
}

/// The type of a field that a record declares is the one that it says, with its relation in brackets;
/// what is neither a variable nor a record has none.
pub proof fn records_are_typed_by_what_they_say(st: SymbolTable, key: SymbolKey)
    ensures
        !is_there(st, key) ==> field_note(st, key) is None,
        is_there(st, key) && (data_at(st, key) is Class || data_at(st, key) is Function || data_at(
            st,
            key,
        ) is Other) ==> field_note(st, key) is None,
        is_there(st, key) && data_at(st, key) is XmlRecord ==> {
            let record = data_at(st, key)->XmlRecord_0;
            &&& record.ttype is None ==> field_note(st, key) is None
            &&& record.ttype is Some && record.relation is None ==> field_note(st, key) == Some(
                record.ttype->0@,
            )
            &&& record.ttype is Some && record.relation is Some ==> field_note(st, key) == Some(
                record.ttype->0@ + seq!['('] + record.relation->0@ + seq![')'],
            )
        },
{
    if is_there(st, key) && data_at(st, key) is XmlRecord {
        let record = data_at(st, key)->XmlRecord_0;
        if record.ttype is Some && record.relation is Some {
            lemma_typed_as(record.ttype->0@, Some(record.relation->0@));
        }
    }
}

/// What is selected holds every accepted index.
proof fn lemma_selected_holds(count: int, accepts: spec_fn(int) -> bool, index: int) -> (at: int)
    requires
        0 <= index < count <= usize::MAX,
        accepts(index),
    ensures
        0 <= at < selected(count, accepts).len(),
        selected(count, accepts)[at] == index,
    decreases count,
{
    if index == count - 1 {
        selected(count - 1, accepts).len() as int
    } else {
        lemma_selected_holds(count - 1, accepts, index)
    }
}

/// Whether more than `limit` indices below `count` are accepted: so many distinct ones can be named.
pub open spec fn more_than(limit: nat, count: int, accepts: spec_fn(int) -> bool) -> bool {
    exists|some: Seq<int>| #[trigger] are_distinct_of(some, limit + 1, count, accepts)
}

/// Whether indices are distinct, below `count`, accepted, and so many.
pub open spec fn are_distinct_of(
    some: Seq<int>,
    size: nat,
    count: int,
    accepts: spec_fn(int) -> bool,
) -> bool {
    &&& some.len() == size
    &&& some.no_duplicates()
    &&& forall|k: int| 0 <= k < some.len() ==> 0 <= (#[trigger] some[k]) < count && accepts(some[k])
}

proof fn lemma_more_than(limit: nat, count: int, accepts: spec_fn(int) -> bool)
    requires
        0 <= count <= usize::MAX,
    ensures
        selected(count, accepts).len() > limit <==> more_than(limit, count, accepts),
{
    let all = selected(count, accepts);
    lemma_selected(count, accepts);
    let indices = all.map_values(|index: usize| index as int);
    assert(indices.no_duplicates()) by {
        assert forall|i: int, j: int| 0 <= i < indices.len() && 0 <= j < indices.len() && i
            != j implies indices[i] != indices[j] by {
            if i < j {
                assert(all[i] < all[j]);
            } else {
                assert(all[j] < all[i]);
            }
        }
    }
    if all.len() > limit {
        let some = indices.take(limit as int + 1);
        assert forall|k: int| 0 <= k < some.len() implies 0 <= (#[trigger] some[k]) < count
            && accepts(some[k]) by {
            assert(all[k] < count && accepts(all[k] as int));
        }
        assert(are_distinct_of(some, limit + 1, count, accepts));
    }
    if more_than(limit, count, accepts) {
        let some = choose|some: Seq<int>| #[trigger]
            are_distinct_of(some, limit + 1, count, accepts);
        some.unique_seq_to_set();
        indices.unique_seq_to_set();
        assert(some.to_set().subset_of(indices.to_set())) by {
            assert forall|index: int| some.to_set().contains(index) implies indices.to_set().contains(
                index,
            ) by {
                let k = some.index_of(index);
                assert(some[k] == index);
                let at = lemma_selected_holds(count, accepts, index);
                assert(indices[at] == index);
            }
        }
        vstd::set_lib::lemma_len_subset(some.to_set(), indices.to_set());
    }
}

/// Predicate of the models whose name continues what is typed. `_unknown` is none.
pub open spec fn continues_to(session: SessionInfo, typed: Seq<char>) -> spec_fn(int) -> bool {
    |m: int|
        typed.is_prefix_of(session.models@[m].name@) && session.models@[m].name@ != seq![
            '_',
            'u',
            'n',
            'k',
            'n',
            'o',
            'w',
            'n',
        ]
}

/// Whether a class of a model is left.
pub open spec fn has_a_class(st: SymbolTable, model: Model) -> bool {
    exists|c: int| 0 <= c < model.symbols@.len() && is_there(st, #[trigger] model.symbols@[c])
}

/// Whether a class that declares a model is in sight.
pub open spec fn is_declared_in_sight(st: SymbolTable, model: Model, from: Option<ModuleKey>) -> bool {
    exists|c: int|
        0 <= c < model.main_symbols@.len() && in_sight(
            st,
            #[trigger] model.main_symbols@[c],
            from,
        )
}

/// Whether a model is one that a document of a module may be offered: a class of it is left, and it is
/// declared in sight of the module, or the configuration wants the others too.
pub open spec fn is_shown(session: SessionInfo, from: Option<ModuleKey>, model: Model) -> bool {
    &&& has_a_class(session.st, model)
    &&& from is None || is_declared_in_sight(session.st, model, from)
        || session.ac_filter_model_names
}

proof fn lemma_model_offered(session: SessionInfo, typed: Seq<char>)
    ensures
        forall|m: int| #[trigger]
            is_model_offered(session.models@, typed)(m) == continues_to(session, typed)(m),
{
    reveal_strlit("_unknown");
    assert("_unknown"@ =~= seq!['_', 'u', 'n', 'k', 'n', 'o', 'w', 'n']);
}

/// A model has an item of its own name when it is shown; it has a note when it is declared out of sight.
proof fn lemma_model_item(
    session: SessionInfo,
    from: Option<ModuleKey>,
    model: Model,
    span: ByteSpan,
)
    ensures
        ({
            let items = model_item(session, from, model, span);
            &&& is_shown(session, from, model) ==> items.len() == 1
            &&& !is_shown(session, from, model) ==> items.len() == 0
            &&& items.len() > 0 ==> is_item_of_model(session, from, model, items[0])
        }),
{
    let st = session.st;
    lemma_seen_iff(st, model.symbols@, None);
    lemma_seen_iff(st, model.main_symbols@, from);
    let seen = st.visible_keys(model.symbols@, None);
    if seen.len() > 0 {
        assert(seen.contains(seen[0]));
        let c = model.symbols@.index_of(seen[0]);
        assert(is_there(st, model.symbols@[c]));
    }
    if has_a_class(st, model) {
        let c = choose|c: int|
            0 <= c < model.symbols@.len() && is_there(st, #[trigger] model.symbols@[c]);
        assert(model.symbols@.contains(model.symbols@[c]));
        assert(in_sight(st, model.symbols@[c], None));
        assert(seen.contains(model.symbols@[c]));
    }
    let main = st.visible_keys(model.main_symbols@, from);
    if main.len() > 0 {
        assert(main.contains(main[0]));
        let c = model.main_symbols@.index_of(main[0]);
        assert(in_sight(st, model.main_symbols@[c], from));
    }
    if is_declared_in_sight(st, model, from) {
        let c = choose|c: int|
            0 <= c < model.main_symbols@.len() && in_sight(
                st,
                #[trigger] model.main_symbols@[c],
                from,
            );
        assert(model.main_symbols@.contains(model.main_symbols@[c]));
        assert(main.contains(model.main_symbols@[c]));
    }
}

/// Whether an item is that of a model: a class under its name, with a note on the modules that declare
/// it when none of them is in sight.
pub open spec fn is_item_of_model(
    session: SessionInfo,
    from: Option<ModuleKey>,
    model: Model,
    item: ItemView,
) -> bool {
    &&& item.label == model.name@
    &&& item.kind == CompletionItemKind::Class
    &&& item.sort_text is None
    &&& from is None || is_declared_in_sight(session.st, model, from) ==> item.description is None
    &&& from is Some && !is_declared_in_sight(session.st, model, from) ==> item.description
        == require_note(session.st, session.st.visible_keys(model.main_symbols@, None))
}

/// Every model that is offered is one whose name continues what is typed and that is shown, as a class
/// with its note.
pub proof fn offered_models_are_shown(
    session: SessionInfo,
    from: Option<ModuleKey>,
    typed: Seq<char>,
    span: ByteSpan,
    k: int,
) -> (m: int)
    requires
        0 <= k < model_list(session, from, typed, span).items.len(),
    ensures
        0 <= m < session.models@.len(),
        continues_to(session, typed)(m),
        is_shown(session, from, session.models@[m]),
        is_item_of_model(
            session,
            from,
            session.models@[m],
            model_list(session, from, typed, span).items[k],
        ),
{
    let models = session.models@;
    let accepts = is_model_offered(models, typed);
    let offered = offered_models(models, typed);
    let keys = model_keys(models, offered);
    assert(session.models.len() == models.len());
    lemma_selected(models.len() as int, accepts);
    lemma_model_offered(session, typed);
    order_is_a_stable_sort(keys, keys.len() as int);
    let places = capped(sorted_order(keys));
    let part = model_part(session, from, offered, span);
    let (a, j) = lemma_part_origin(places, part, k);
    assert(places[a] == sorted_order(keys)[a]);
    let m = offered[places[a] as int] as int;
    assert(accepts(m));
    lemma_model_item(session, from, models[m], span);
    m
}

/// A list of models that is not flagged incomplete offers every model that is shown and whose name
/// continues what is typed; it is flagged when more than two hundred names continue what is typed.
pub proof fn models_are_left_out_by_the_cap_alone(
    session: SessionInfo,
    from: Option<ModuleKey>,
    typed: Seq<char>,
    span: ByteSpan,
)
    ensures
        ({
            let list = model_list(session, from, typed, span);
            &&& list.is_incomplete <==> more_than(
                200,
                session.models@.len() as int,
                continues_to(session, typed),
            )
            &&& !list.is_incomplete ==> forall|m: int|
                0 <= m < session.models@.len() && #[trigger] continues_to(session, typed)(m)
                    && is_shown(session, from, session.models@[m]) ==> offers(
                    list,
                    session.models@[m].name@,
                )
        }),
{
    let models = session.models@;
    let accepts = is_model_offered(models, typed);
    let offered = offered_models(models, typed);
    let keys = model_keys(models, offered);
    let list = model_list(session, from, typed, span);
    let count = models.len() as int;
    assert(session.models.len() == models.len());
    lemma_selected(count, accepts);
    lemma_model_offered(session, typed);
    order_is_a_stable_sort(keys, keys.len() as int);
    lemma_more_than(200, count, accepts);
    let same = continues_to(session, typed);
    assert(more_than(200, count, accepts) <==> more_than(200, count, same)) by {
        assert forall|some: Seq<int>| #[trigger]
            are_distinct_of(some, 201, count, accepts) == are_distinct_of(
                some,
                201,
                count,
                same,
            ) by {
            assert forall|k: int| 0 <= k < some.len() implies accepts(#[trigger] some[k]) == same(
                some[k],
            ) by {}
        }
        if more_than(200, count, accepts) {
            let some = choose|some: Seq<int>| #[trigger]
                are_distinct_of(some, 201, count, accepts);
            assert(are_distinct_of(some, 201, count, same));
        }
        if more_than(200, count, same) {
            let some = choose|some: Seq<int>| #[trigger] are_distinct_of(some, 201, count, same);
            assert(are_distinct_of(some, 201, count, accepts) == are_distinct_of(
                some,
                201,
                count,
                same,
            ));
        }
    }
    if !list.is_incomplete {
        assert forall|m: int|
            0 <= m < models.len() && #[trigger] same(m) && is_shown(
                session,
                from,
                models[m],
            ) implies offers(list, models[m].name@) by {
            assert(accepts(m));
            let at = lemma_selected_holds(count, accepts, m);
            let order = sorted_order(keys);
            assert(order.contains(at as usize));
            let a = order.index_of(at as usize);
            let part = model_part(session, from, offered, span);
            lemma_model_item(session, from, models[m], span);
            lemma_part_place(order, part, a);
            let start = concat_map(order.take(a), part).len() as int;
            assert(part(order[a]) == model_item(session, from, models[m], span));
            lemma_stands_contains(concat_map(order, part), part(order[a]), start, 0);
            assert(list.items[start].label == models[m].name@);
        }
    }
}

/// Whether a declaration is one of an xml id that a position accepts: that of a record, a python class,
/// a menu or a template that is there, of the model that is wanted, if any.
pub open spec fn is_accepted(st: SymbolTable, filter: FilterView, id: XmlId) -> bool {
    &&& id.kind == XmlIdKind::XmlRecord || id.kind == XmlIdKind::PythonClass || id.kind
        == XmlIdKind::MenuItem || id.kind == XmlIdKind::Template
    &&& is_there(st, id.key)
    &&& filter matches FilterView::Model(model) ==> id.model@ == model
}

/// An xml id with the name of its module before a dot.
pub open spec fn qualified(st: SymbolTable, entry: XmlIdEntry) -> Seq<char> {
    st.modules@[entry.module.index as int].name@ + seq!['.'] + entry.local_id@
}

/// Predicate of the xml ids that continue what is typed and that a position accepts.
pub open spec fn continues_to_id(
    session: SessionInfo,
    filter: FilterView,
    typed: Seq<char>,
) -> spec_fn(int) -> bool {
    |x: int|
        {
            let entry = session.xml_ids@[x];
            &&& entry.module.index < session.st.modules@.len()
            &&& typed.is_prefix_of(qualified(session.st, entry))
            &&& exists|i: int|
                0 <= i < entry.ids@.len() && is_accepted(
                    session.st,
                    filter,
                    #[trigger] entry.ids@[i],
                )
        }
}

proof fn lemma_id_offered(session: SessionInfo, filter: FilterView, typed: Seq<char>)
    ensures
        forall|x: int| #[trigger]
            is_xml_id_offered(session, filter, typed)(x) == continues_to_id(session, filter, typed)(
                x,
            ),
        forall|x: int|
            (#[trigger] session.xml_ids@[x]).module.index < session.st.modules@.len()
                ==> crate::completion_items::full_id(session.st, session.xml_ids@[x]) == qualified(
                session.st,
                session.xml_ids@[x],
            ),
{
    reveal_strlit(".");
    assert("."@ =~= seq!['.']);
    let st = session.st;
    assert forall|x: int| #[trigger]
        is_xml_id_offered(session, filter, typed)(x) == continues_to_id(session, filter, typed)(
            x,
        ) by {
        let ids = session.xml_ids@[x].ids@;
        if exists|i: int| 0 <= i < ids.len() && is_accepted(st, filter, #[trigger] ids[i]) {
            let i = choose|i: int|
                0 <= i < ids.len() && is_accepted(st, filter, #[trigger] ids[i]);
            assert(crate::completion_items::is_accepted_id(st, filter, ids[i]));
        }
        if crate::completion_items::has_accepted_id(st, filter, ids) {
            let i = choose|i: int|
                0 <= i < ids.len() && crate::completion_items::is_accepted_id(
                    st,
                    filter,
                    #[trigger] ids[i],
                );
            assert(is_accepted(st, filter, ids[i]));
        }
    }
}

/// Whether a module is, by name, another one or one of its dependencies.
pub open spec fn is_dependency(st: SymbolTable, from: ModuleKey, name: Seq<char>) -> bool {
    &&& from.index < st.modules@.len()
    &&& {
        ||| st.modules@[from.index as int].name@ == name
        ||| exists|i: int|
            0 <= i < st.modules@[from.index as int].all_depends@.len()
                && #[trigger] st.modules@[from.index as int].all_depends@[i]@ == name
    }
}

/// Whether an item is that of an xml id: a reference under its qualified name, with a note on its
/// module when the document does not depend on it.
pub open spec fn is_item_of_id(
    session: SessionInfo,
    from: Option<ModuleKey>,
    entry: XmlIdEntry,
    item: ItemView,
) -> bool {
    let module = session.st.modules@[entry.module.index as int];
    &&& item.label == qualified(session.st, entry)
    &&& item.kind == CompletionItemKind::Reference
    &&& item.sort_text is None
    &&& from is None || is_dependency(session.st, from->0, module.name@) ==> item.description is None
    &&& from is Some && !is_dependency(session.st, from->0, module.name@) ==> item.description
        == Some(seq!['r', 'e', 'q', 'u', 'i', 'r', 'e', ' '] + module.dir_name@)
}

proof fn lemma_xml_id_item(
    session: SessionInfo,
    from: Option<ModuleKey>,
    x: int,
    span: ByteSpan,
)
    requires
        session.xml_ids@[x].module.index < session.st.modules@.len(),
    ensures
        is_item_of_id(
            session,
            from,
            session.xml_ids@[x],
            xml_id_item(session.st, from, session.xml_ids@[x], span),
        ),
{
    lemma_id_offered(session, FilterView::Any, Seq::empty());
    reveal_strlit("require ");
    assert("require "@ =~= seq!['r', 'e', 'q', 'u', 'i', 'r', 'e', ' ']);
    let st = session.st;
    let name = st.modules@[session.xml_ids@[x].module.index as int].name@;
    if let Some(from) = from {
        if from.index < st.modules@.len() {
            let found = st.modules@[from.index as int];
            if st.in_deps(from, name) && found.name@ != name {
                let i = choose|i: int|
                    0 <= i < found.all_depends@.len() && #[trigger] found.all_depends@[i]@ == name;
                assert(st.modules@[from.index as int].all_depends@[i]@ == name);
            }
            if is_dependency(st, from, name) && found.name@ != name {
                let i = choose|i: int|
                    0 <= i < st.modules@[from.index as int].all_depends@.len()
                        && #[trigger] st.modules@[from.index as int].all_depends@[i]@ == name;
                assert(found.all_depends@[i]@ == name);
            }
        }
    }
}

/// The places of the items of xml ids.
proof fn lemma_id_places(
    session: SessionInfo,
    from: Option<ModuleKey>,
    filter: FilterView,
    typed: Seq<char>,
    span: ByteSpan,
    k: int,
) -> (x: int)
    requires
        0 <= k < xml_id_list(session, from, filter, typed, span).items.len(),
    ensures
        0 <= x < session.xml_ids@.len(),
        continues_to_id(session, filter, typed)(x),
        xml_id_list(session, from, filter, typed, span).items[k] == xml_id_item(
            session.st,
            from,
            session.xml_ids@[x],
            span,
        ),
        ({
            let offered = offered_xml_ids(session, filter, typed);
            let order = sorted_order(xml_id_keys(session, offered));
            k < order.len() && order[k] < offered.len() && x == offered[order[k] as int]
        }),
{
    let accepts = is_xml_id_offered(session, filter, typed);
    let offered = offered_xml_ids(session, filter, typed);
    let keys = xml_id_keys(session, offered);
    assert(session.xml_ids.len() == session.xml_ids@.len());
    lemma_selected(session.xml_ids@.len() as int, accepts);
    lemma_id_offered(session, filter, typed);
    order_is_a_stable_sort(keys, keys.len() as int);
    let order = sorted_order(keys);
    assert(capped(order)[k] == order[k]);
    let x = offered[order[k] as int] as int;
    assert(accepts(x));
    x
}

/// Every xml id that is offered is one that the position accepts and that continues what is typed, as a
/// reference with its note.
pub proof fn offered_xml_ids_are_accepted(
    session: SessionInfo,
    from: Option<ModuleKey>,
    filter: FilterView,
    typed: Seq<char>,
    span: ByteSpan,
    k: int,
) -> (x: int)
    requires
        0 <= k < xml_id_list(session, from, filter, typed, span).items.len(),
    ensures
        0 <= x < session.xml_ids@.len(),
        continues_to_id(session, filter, typed)(x),
        is_item_of_id(
            session,
            from,
            session.xml_ids@[x],
            xml_id_list(session, from, filter, typed, span).items[k],
        ),
{
    let x = lemma_id_places(session, from, filter, typed, span, k);
    lemma_xml_id_item(session, from, x, span);
    x
}

/// Whether an xml id comes at or before another: by the directory of its module, then by what stands
/// behind the dot.
pub open spec fn comes_before(st: SymbolTable, left: XmlIdEntry, right: XmlIdEntry) -> bool {
    let (l, r) = (
        st.modules@[left.module.index as int].dir_name@,
        st.modules@[right.module.index as int].dir_name@,
    );
    if l == r {
        str_le(left.local_id@, right.local_id@)
    } else {
        str_le(l, r)
    }
}

/// Xml ids are offered by the directories of their modules, those of one module by their local ids.
pub proof fn xml_ids_are_offered_in_order(
    session: SessionInfo,
    from: Option<ModuleKey>,
    filter: FilterView,
    typed: Seq<char>,
    span: ByteSpan,
    a: int,
    b: int,
) -> (at: (int, int))
    requires
        0 <= a < b < xml_id_list(session, from, filter, typed, span).items.len(),
    ensures
        0 <= at.0 < session.xml_ids@.len(),
        0 <= at.1 < session.xml_ids@.len(),
        at.0 != at.1,
        is_item_of_id(
            session,
            from,
            session.xml_ids@[at.0],
            xml_id_list(session, from, filter, typed, span).items[a],
        ),
        is_item_of_id(
            session,
            from,
            session.xml_ids@[at.1],
            xml_id_list(session, from, filter, typed, span).items[b],
        ),
        comes_before(session.st, session.xml_ids@[at.0], session.xml_ids@[at.1]),
{
    let x = lemma_id_places(session, from, filter, typed, span, a);
    let y = lemma_id_places(session, from, filter, typed, span, b);
    lemma_xml_id_item(session, from, x, span);
    lemma_xml_id_item(session, from, y, span);
    let accepts = is_xml_id_offered(session, filter, typed);
    let offered = offered_xml_ids(session, filter, typed);
    let keys = xml_id_keys(session, offered);
    let order = sorted_order(keys);
    assert(session.xml_ids.len() == session.xml_ids@.len());
    lemma_selected(session.xml_ids@.len() as int, accepts);
    order_is_a_stable_sort(keys, keys.len() as int);
    assert(key_le(keys[order[a] as int], keys[order[b] as int]));
    assert(order[a] != order[b]);
    if order[a] < order[b] {
        assert(offered[order[a] as int] < offered[order[b] as int]);
    } else {
        assert(offered[order[b] as int] < offered[order[a] as int]);
    }
    (x, y)
}

/// A list of xml ids that is not flagged incomplete offers every one that the position accepts and that
/// continues what is typed; it is flagged when there are more than two hundred of them.
pub proof fn xml_ids_are_left_out_by_the_cap_alone(
    session: SessionInfo,
    from: Option<ModuleKey>,
    filter: FilterView,
    typed: Seq<char>,
    span: ByteSpan,
)
    ensures
        ({
            let list = xml_id_list(session, from, filter, typed, span);
            &&& list.items.len() <= 200
            &&& list.is_incomplete <==> more_than(
                200,
                session.xml_ids@.len() as int,
                continues_to_id(session, filter, typed),
            )
            &&& list.is_incomplete ==> list.items.len() == 200
            &&& !list.is_incomplete ==> forall|x: int|
                0 <= x < session.xml_ids@.len() && #[trigger] continues_to_id(
                    session,
                    filter,
                    typed,
                )(x) ==> offers(list, qualified(session.st, session.xml_ids@[x]))
        }),
{
    let accepts = is_xml_id_offered(session, filter, typed);
    let offered = offered_xml_ids(session, filter, typed);
    let keys = xml_id_keys(session, offered);
    let list = xml_id_list(session, from, filter, typed, span);
    let count = session.xml_ids@.len() as int;
    assert(session.xml_ids.len() == count);
    lemma_selected(count, accepts);
    lemma_id_offered(session, filter, typed);
    order_is_a_stable_sort(keys, keys.len() as int);
    lemma_more_than(200, count, accepts);
    let same = continues_to_id(session, filter, typed);
    assert(more_than(200, count, accepts) <==> more_than(200, count, same)) by {
        if more_than(200, count, accepts) {
            let some = choose|some: Seq<int>| #[trigger]
                are_distinct_of(some, 201, count, accepts);
            assert forall|k: int| 0 <= k < some.len() implies 0 <= (#[trigger] some[k]) < count
                && same(some[k]) by {
                assert(accepts(some[k]));
            }
            assert(are_distinct_of(some, 201, count, same));
        }
        if more_than(200, count, same) {
            let some = choose|some: Seq<int>| #[trigger] are_distinct_of(some, 201, count, same);
            assert forall|k: int| 0 <= k < some.len() implies 0 <= (#[trigger] some[k]) < count
                && accepts(some[k]) by {
                assert(same(some[k]));
                assert(accepts(some[k]) == same(some[k]));
            }
            assert(are_distinct_of(some, 201, count, accepts));
        }
    }
    if !list.is_incomplete {
        assert forall|x: int| 0 <= x < count && #[trigger] same(x) implies offers(
            list,
            qualified(session.st, session.xml_ids@[x]),
        ) by {
            assert(accepts(x) == same(x));
            let at = lemma_selected_holds(count, accepts, x);
            let order = sorted_order(keys);
            assert(order.contains(at as usize));
            let k = order.index_of(at as usize);
            lemma_xml_id_item(session, from, x, span);
            assert(list.items[k] == xml_id_item(session.st, from, session.xml_ids@[x], span));
        }
    }
}

/// Names one after the other with a comma and a blank between them.
pub open spec fn named_in_a_row(names: Seq<Seq<char>>) -> Seq<char>
    decreases names.len(),
{
    if names.len() == 0 {
        Seq::empty()
    } else if names.len() == 1 {
        names[0]
    } else {
        names[0] + seq![',', ' '] + named_in_a_row(names.drop_first())
    }
}

proof fn lemma_row_push(names: Seq<Seq<char>>, name: Seq<char>)
    ensures
        names.len() == 0 ==> named_in_a_row(names.push(name)) == name,
        names.len() > 0 ==> named_in_a_row(names.push(name)) == named_in_a_row(names) + seq![
            ',',
            ' ',
        ] + name,
    decreases names.len(),
{
    if names.len() > 0 {
        let rest = names.drop_first();
        assert(names.push(name).drop_first() =~= rest.push(name));
        lemma_row_push(rest, name);
        assert(named_in_a_row(names.push(name)) =~= named_in_a_row(names) + seq![',', ' '] + name);
    }
}

proof fn lemma_joined(names: Seq<Seq<char>>)
    ensures
        joined(names, ", "@) == named_in_a_row(names),
    decreases names.len(),
{
    reveal_strlit(", ");
    assert(", "@ =~= seq![',', ' ']);
    if names.len() > 1 {
        lemma_joined(names.drop_last());
        lemma_row_push(names.drop_last(), names.last());
        assert(names.drop_last().push(names.last()) =~= names);
    }
}

/// Whether a directory is that of the module of one of the symbols.
pub open spec fn is_dir_of(st: SymbolTable, symbols: Seq<SymbolKey>, dir: Seq<char>) -> bool {
    exists|k: int, module: ModuleKey|
        0 <= k < symbols.len() && #[trigger] is_of_module(st, symbols[k], module)
            && st.modules@[module.index as int].dir_name@ == dir
}

proof fn lemma_dirs(st: SymbolTable, symbols: Seq<SymbolKey>)
    ensures
        forall|dir: Seq<char>| #[trigger]
            module_dirs(st, symbols).contains(dir) <==> is_dir_of(st, symbols, dir),
        module_dirs(st, symbols).len() <= symbols.len(),
    decreases symbols.len(),
{
    let dirs = module_dirs(st, symbols);
    if symbols.len() > 0 {
        let shorter = symbols.drop_last();
        let last = symbols.last();
        let rest = module_dirs(st, shorter);
        lemma_dirs(st, shorter);
        assert forall|dir: Seq<char>| #[trigger] dirs.contains(dir) <==> is_dir_of(
            st,
            symbols,
            dir,
        ) by {
            if dirs.contains(dir) {
                let at = dirs.index_of(dir);
                if at < rest.len() {
                    assert(rest[at] == dir);
                    assert(rest.contains(dir));
                    let (k, module) = choose|k: int, module: ModuleKey|
                        0 <= k < shorter.len() && #[trigger] is_of_module(st, shorter[k], module)
                            && st.modules@[module.index as int].dir_name@ == dir;
                    assert(symbols[k] == shorter[k]);
                    assert(is_of_module(st, symbols[k], module));
                } else {
                    let module = st.module_of(last)->0;
                    symbols_are_of_their_module(st, last, module);
                    assert(is_of_module(st, symbols[symbols.len() - 1], module));
                }
            }
            if is_dir_of(st, symbols, dir) {
                let (k, module) = choose|k: int, module: ModuleKey|
                    0 <= k < symbols.len() && #[trigger] is_of_module(st, symbols[k], module)
                        && st.modules@[module.index as int].dir_name@ == dir;
                if k < shorter.len() {
                    assert(symbols[k] == shorter[k]);
                    assert(is_of_module(st, shorter[k], module));
                    assert(rest.contains(dir));
                    let at = rest.index_of(dir);
                    assert(dirs[at] == dir);
                } else {
                    symbols_are_of_their_module(st, last, module);
                    assert(dirs[rest.len() as int] == dir);
                }
            }
        }
    } else {
        assert forall|dir: Seq<char>| !is_dir_of(st, symbols, dir) by {
            if is_dir_of(st, symbols, dir) {
                let (k, module) = choose|k: int, module: ModuleKey|
                    0 <= k < symbols.len() && #[trigger] is_of_module(st, symbols[k], module)
                        && st.modules@[module.index as int].dir_name@ == dir;
            }
        }
    }
}

/// Whether names are the directories of the modules of symbols, each once, in ascending order.
pub open spec fn are_dirs_of(
    st: SymbolTable,
    symbols: Seq<SymbolKey>,
    names: Seq<Seq<char>>,
) -> bool {
    &&& forall|name: Seq<char>| #[trigger] names.contains(name) <==> is_dir_of(st, symbols, name)
    &&& forall|a: int, b: int|
        0 <= a < b < names.len() ==> str_le(#[trigger] names[a], #[trigger] names[b]) && names[a]
            != names[b]
}

/// The note on what symbols require is `require` and the directories of their modules, each once and in
/// ascending order with commas between them; symbols of no module require nothing.
pub proof fn notes_name_each_module_once(st: SymbolTable, symbols: Seq<SymbolKey>)
    requires
        symbols.len() <= usize::MAX,
    ensures
        match require_note(st, symbols) {
            Some(note) => exists|names: Seq<Seq<char>>| #[trigger]
                are_dirs_of(st, symbols, names) && names.len() > 0 && note == seq![
                    'r',
                    'e',
                    'q',
                    'u',
                    'i',
                    'r',
                    'e',
                    ' ',
                ] + named_in_a_row(names),
            None => forall|dir: Seq<char>| !#[trigger] is_dir_of(st, symbols, dir),
        },
{
    let dirs = module_dirs(st, symbols);
    let keys = name_keys(dirs);
    let sorted = sorted_order(keys);
    let kept = without_repeats(keys, sorted);
    let names = distinct_names(dirs);
    lemma_dirs(st, symbols);
    reveal_strlit("require ");
    assert("require "@ =~= seq!['r', 'e', 'q', 'u', 'i', 'r', 'e', ' ']);
    lemma_joined(names);
    assert(forall|a: int| 0 <= a < kept.len() ==> (#[trigger] kept[a]) < dirs.len()) by {
        order_is_a_stable_sort(keys, keys.len() as int);
        crate::completion_items::lemma_kept_below(keys, sorted, keys.len() as int);
    }
    assert(is_strictly_sorted(keys, kept)) by {
        order_is_a_stable_sort(keys, keys.len() as int);
        repeats_are_dropped(keys, sorted);
    }
    assert forall|a: int, b: int| 0 <= a < b < names.len() implies str_le(
        #[trigger] names[a],
        #[trigger] names[b],
    ) && names[a] != names[b] by {
        let (x, y) = (kept[a] as int, kept[b] as int);
        assert(key_le(keys[x], keys[y]) && keys[x] != keys[y]);
        assert(keys[x] == name_key(dirs[x]) && keys[y] == name_key(dirs[y]));
        assert(names[a] == dirs[x] && names[b] == dirs[y]);
    }
    assert forall|name: Seq<char>| #[trigger] names.contains(name) <==> is_dir_of(
        st,
        symbols,
        name,
    ) by {
        if names.contains(name) {
            let a = names.index_of(name);
            assert(names[a] == dirs[kept[a] as int]);
            assert(kept[a] < dirs.len());
            assert(dirs.contains(name));
        }
        if is_dir_of(st, symbols, name) {
            assert(dirs.contains(name));
            let y = dirs.index_of(name);
            assert(key_is_kept(keys, kept, y as usize)) by {
                order_is_a_stable_sort(keys, keys.len() as int);
                no_key_is_dropped(keys, sorted);
                assert(sorted.contains(y as usize));
                assert(key_is_kept(keys, kept, sorted[sorted.index_of(y as usize)]));
            }
            let b = choose|b: int|
                0 <= b < kept.len() && keys[kept[b] as int] == keys[y as usize as int]
                    && #[trigger] kept[b] <= y as usize;
            assert(keys[kept[b] as int].major == keys[y].major);
            assert(names[b] == dirs[kept[b] as int]);
            assert(names[b] == name);
        }
    }
    if names.len() > 0 {
        assert(are_dirs_of(st, symbols, names));
    } else {
        assert forall|dir: Seq<char>| !#[trigger] is_dir_of(st, symbols, dir) by {
            if is_dir_of(st, symbols, dir) {
                assert(names.contains(dir));
            }
        }
    }
}

/// What the cap leaves out of a list of models sorts behind all that the list offers.
pub proof fn models_left_out_sort_behind(
    session: SessionInfo,
    from: Option<ModuleKey>,
    typed: Seq<char>,
    span: ByteSpan,
    m: int,
    k: int,
)
    requires
        0 <= m < session.models@.len(),
        continues_to(session, typed)(m),
        is_shown(session, from, session.models@[m]),
        !offers(model_list(session, from, typed, span), session.models@[m].name@),
        0 <= k < model_list(session, from, typed, span).items.len(),
    ensures
        str_le(
            model_list(session, from, typed, span).items[k].label,
            session.models@[m].name@,
        ),
{
    let models = session.models@;
    let accepts = is_model_offered(models, typed);
    let offered = offered_models(models, typed);
    let keys = model_keys(models, offered);
    let list = model_list(session, from, typed, span);
    let count = models.len() as int;
    assert(session.models.len() == models.len());
    lemma_selected(count, accepts);
    lemma_model_offered(session, typed);
    order_is_a_stable_sort(keys, keys.len() as int);
    let order = sorted_order(keys);
    let places = capped(order);
    let part = model_part(session, from, offered, span);
    assert(accepts(m) == continues_to(session, typed)(m));
    let at = lemma_selected_holds(count, accepts, m);
    assert(order.contains(at as usize));
    let b = order.index_of(at as usize);
    lemma_model_item(session, from, models[m], span);
    if b < places.len() {
        assert(places[b] == order[b]);
        lemma_part_place(places, part, b);
        let start = concat_map(places.take(b), part).len() as int;
        assert(part(places[b]) == model_item(session, from, models[m], span));
        lemma_stands_contains(concat_map(places, part), part(places[b]), start, 0);
        assert(list.items[start].label == models[m].name@);
    }
    let (a, j) = lemma_part_origin(places, part, k);
    assert(places[a] == order[a]);
    let other = offered[places[a] as int] as int;
    lemma_model_item(session, from, models[other], span);
    assert(list.items[k].label == models[other].name@);
    assert(a < b);
    assert(key_le(keys[order[a] as int], keys[order[b] as int]));
    lemma_str_le_total(models[m].name@, models[m].name@);
    lemma_str_le_total(Seq::empty(), Seq::empty());
    assert(keys[order[a] as int] == name_key(models[other].name@));
    assert(keys[order[b] as int] == name_key(models[m].name@));
}

/// What the cap leaves out of a list of xml ids comes behind all that the list offers.
pub proof fn xml_ids_left_out_come_behind(
    session: SessionInfo,
    from: Option<ModuleKey>,
    filter: FilterView,
    typed: Seq<char>,
    span: ByteSpan,
    x: int,
    k: int,
) -> (y: int)
    requires
        0 <= x < session.xml_ids@.len(),
        continues_to_id(session, filter, typed)(x),
        !offers(
            xml_id_list(session, from, filter, typed, span),
            qualified(session.st, session.xml_ids@[x]),
        ),
        0 <= k < xml_id_list(session, from, filter, typed, span).items.len(),
    ensures
        0 <= y < session.xml_ids@.len(),
        is_item_of_id(
            session,
            from,
            session.xml_ids@[y],
            xml_id_list(session, from, filter, typed, span).items[k],
        ),
        comes_before(session.st, session.xml_ids@[y], session.xml_ids@[x]),
{
    let accepts = is_xml_id_offered(session, filter, typed);
    let offered = offered_xml_ids(session, filter, typed);
    let keys = xml_id_keys(session, offered);
    let list = xml_id_list(session, from, filter, typed, span);
    let count = session.xml_ids@.len() as int;
    assert(session.xml_ids.len() == count);
    lemma_selected(count, accepts);
    lemma_id_offered(session, filter, typed);
    order_is_a_stable_sort(keys, keys.len() as int);
    let order = sorted_order(keys);
    assert(accepts(x) == continues_to_id(session, filter, typed)(x));
    let at = lemma_selected_holds(count, accepts, x);
    assert(order.contains(at as usize));
    let b = order.index_of(at as usize);
    lemma_xml_id_item(session, from, x, span);
    if b < list.items.len() {
        assert(capped(order)[b] == order[b]);
        assert(list.items[b] == xml_id_item(session.st, from, session.xml_ids@[x], span));
    }
    let y = lemma_id_places(session, from, filter, typed, span, k);
    lemma_xml_id_item(session, from, y, span);
    assert(k < b);
    assert(key_le(keys[order[k] as int], keys[order[b] as int]));
    y
}

} // verus!
