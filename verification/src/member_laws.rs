//! What holds of the completion of members: which fields and methods of a model are offered, and how.
use vstd::prelude::*;

use crate::completion_items::{
    candidate_keys, class_candidate, field_note, lemma_candidates_offered, lemma_kept_below,
    member_item, member_list, members_at, members_fit, model_candidates, model_list,
    record_candidate, xml_id_list, CandidateView, CompletionItemKind, FilterView,
};
use crate::completion_laws::offers;
use crate::lookup_laws::{
    data_at, in_sight, is_field_record, is_first_in_sight, is_there, lemma_first_seen,
    lemma_some_is_first, models_are_found_by_name, modules_see_their_dependencies,
};
use crate::seqs::{
    concat_map, lemma_filter_origin, lemma_part_origin, lemma_part_place, lemma_stands_contains,
};
use crate::sorting::{
    is_strictly_sorted, key_is_kept, key_le, no_key_is_dropped, order_is_a_stable_sort,
    repeats_are_dropped, sorted_order, without_repeats,
};
use crate::symbols::{MemberKind, Model, ModuleKey, SessionInfo, SymbolKey, SymbolTable};
use crate::text::str_le;
use crate::xml_completion::{target_list, TargetView};
use crate::xml_spans::ByteSpan;

verus! {

/// Whether the class of a key declares member `i`: a method or a field, of that name.
pub open spec fn has_member(
    st: SymbolTable,
    class_key: SymbolKey,
    i: int,
    name: Seq<char>,
    is_method: bool,
) -> bool {
    &&& is_there(st, class_key)
    &&& data_at(st, class_key) is Class
    &&& 0 <= i < data_at(st, class_key)->Class_0.members@.len()
    &&& data_at(st, class_key)->Class_0.members@[i].name@ == name
    &&& is_method ==> data_at(st, class_key)->Class_0.members@[i].kind == MemberKind::Method
    &&& !is_method ==> data_at(st, class_key)->Class_0.members@[i].kind == MemberKind::Field
}

/// The symbols of member `i` of the class of a key.
pub open spec fn member_symbols_at(st: SymbolTable, class_key: SymbolKey, i: int) -> Seq<SymbolKey> {
    data_at(st, class_key)->Class_0.members@[i].symbols@
}

/// Whether member `i` of the first class in sight that declares a model, class `c`, has that name, its
/// symbol `s` being the first in sight.
pub open spec fn is_class_member_of(
    st: SymbolTable,
    from: Option<ModuleKey>,
    model: Model,
    name: Seq<char>,
    is_method: bool,
    c: int,
    i: int,
    s: int,
) -> bool {
    &&& is_first_in_sight(st, model.main_symbols@, from, c)
    &&& has_member(st, model.main_symbols@[c], i, name, is_method)
    &&& is_first_in_sight(st, member_symbols_at(st, model.main_symbols@[c], i), from, s)
}

/// Whether record `r` of a model is in sight and declares the field of that name.
pub open spec fn is_record_of(
    st: SymbolTable,
    from: Option<ModuleKey>,
    model: Model,
    name: Seq<char>,
    r: int,
) -> bool {
    &&& 0 <= r < model.xml_fields@.len()
    &&& in_sight(st, model.xml_fields@[r], from)
    &&& is_field_record(st, model.xml_fields@[r], name)
}

/// Whether a document of a module may name a member of a model: the class that declares the model has
/// it with a symbol in sight or, of fields, a record in sight declares it.
pub open spec fn may_be_named(
    st: SymbolTable,
    from: Option<ModuleKey>,
    model: Model,
    name: Seq<char>,
    is_method: bool,
) -> bool {
    ||| exists|c: int, i: int, s: int| #[trigger]
        is_class_member_of(st, from, model, name, is_method, c, i, s)
    ||| !is_method && exists|r: int| #[trigger] is_record_of(st, from, model, name, r)
}

/// Whether the name of a method stands in angle brackets.
pub open spec fn is_bracketed(name: Seq<char>) -> bool {
    name.len() > 0 && name[0] == '<' && name[name.len() - 1] == '>'
}

/// Whether a candidate is what a class member is.
spec fn is_of_member(
    st: SymbolTable,
    from: Option<ModuleKey>,
    model: Model,
    is_method: bool,
    candidate: CandidateView,
    c: int,
    i: int,
    s: int,
) -> bool {
    &&& is_class_member_of(st, from, model, candidate.name, is_method, c, i, s)
    &&& candidate.symbols.len() > 0
    &&& candidate.symbols[0] == member_symbols_at(st, model.main_symbols@[c], i)[s]
}

/// Whether a candidate is what a record is.
spec fn is_of_record(
    st: SymbolTable,
    from: Option<ModuleKey>,
    model: Model,
    candidate: CandidateView,
    r: int,
) -> bool {
    &&& is_record_of(st, from, model, candidate.name, r)
    &&& candidate.symbols.len() > 0
    &&& candidate.symbols[0] == model.xml_fields@[r]
}

/// The candidates of the class that declares a model.
spec fn class_part(
    st: SymbolTable,
    from: Option<ModuleKey>,
    model: Model,
    typed: Seq<char>,
    is_method: bool,
) -> Seq<CandidateView> {
    let main = st.visible_keys(model.main_symbols@, from);
    if main.len() > 0 {
        concat_map(members_at(st, main[0]), class_candidate(st, from, typed, is_method))
    } else {
        Seq::empty()
    }
}

/// A candidate among those of the members before `bound` is that of one of them.
proof fn lemma_class_candidate(
    st: SymbolTable,
    from: Option<ModuleKey>,
    model: Model,
    typed: Seq<char>,
    is_method: bool,
    c: int,
    bound: int,
    k: int,
) -> (at: (int, int))
    requires
        is_first_in_sight(st, model.main_symbols@, from, c),
        0 <= bound <= members_at(st, model.main_symbols@[c]).len(),
        0 <= k < concat_map(
            members_at(st, model.main_symbols@[c]).take(bound),
            class_candidate(st, from, typed, is_method),
        ).len(),
    ensures
        0 <= at.0 < bound,
        is_of_member(
            st,
            from,
            model,
            is_method,
            concat_map(
                members_at(st, model.main_symbols@[c]).take(bound),
                class_candidate(st, from, typed, is_method),
            )[k],
            c,
            at.0,
            at.1,
        ),
{
    let members = members_at(st, model.main_symbols@[c]);
    let part = class_candidate(st, from, typed, is_method);
    let (i, j) = lemma_part_origin(members.take(bound), part, k);
    assert(members.take(bound)[i] == members[i]);
    let keys = members[i].symbols@;
    let s = lemma_some_is_first(st, keys, from);
    (i, s)
}

/// Every candidate is that of a class member or of a record.
proof fn lemma_candidate_origin(
    st: SymbolTable,
    from: Option<ModuleKey>,
    model: Model,
    typed: Seq<char>,
    is_method: bool,
    k: int,
)
    requires
        0 <= k < model_candidates(st, from, model, typed, is_method).len(),
    ensures
        may_be_named(
            st,
            from,
            model,
            model_candidates(st, from, model, typed, is_method)[k].name,
            is_method,
        ),
{
    let all = model_candidates(st, from, model, typed, is_method);
    let of_class = class_part(st, from, model, typed, is_method);
    if k < of_class.len() {
        assert(all[k] == of_class[k]);
        let c = lemma_some_is_first(st, model.main_symbols@, from);
        let members = members_at(st, model.main_symbols@[c]);
        assert(members.take(members.len() as int) =~= members);
        let (i, s) = lemma_class_candidate(
            st,
            from,
            model,
            typed,
            is_method,
            c,
            members.len() as int,
            k,
        );
        assert(is_class_member_of(st, from, model, all[k].name, is_method, c, i, s));
    } else {
        assert(model.xml_fields@.take(model.xml_fields@.len() as int) =~= model.xml_fields@);
        let r = lemma_record_candidate(
            st,
            from,
            model,
            typed,
            model.xml_fields@.len() as int,
            k - of_class.len(),
        );
        assert(is_record_of(st, from, model, all[k].name, r));
    }
}

/// A candidate among those of the records before `bound` is that of one of them.
proof fn lemma_record_candidate(
    st: SymbolTable,
    from: Option<ModuleKey>,
    model: Model,
    typed: Seq<char>,
    bound: int,
    k: int,
) -> (r: int)
    requires
        0 <= bound <= model.xml_fields@.len(),
        0 <= k < concat_map(
            st.visible_keys(model.xml_fields@.take(bound), from),
            record_candidate(st, typed),
        ).len(),
    ensures
        0 <= r < bound,
        is_of_record(
            st,
            from,
            model,
            concat_map(
                st.visible_keys(model.xml_fields@.take(bound), from),
                record_candidate(st, typed),
            )[k],
            r,
        ),
        bound == model.xml_fields@.len() ==> is_of_record(
            st,
            from,
            model,
            concat_map(
                st.visible_keys(model.xml_fields@, from),
                record_candidate(st, typed),
            )[k],
            r,
        ),
{
    let keys = model.xml_fields@.take(bound);
    let seen = st.visible_keys(keys, from);
    let (at, j) = lemma_part_origin(seen, record_candidate(st, typed), k);
    let r = lemma_filter_origin(keys, st.visibility(from), at);
    modules_see_their_dependencies(st, keys[r], from);
    assert(keys[r] == model.xml_fields@[r]);
    if bound == model.xml_fields@.len() {
        assert(keys =~= model.xml_fields@);
    }
    r
}

/// The place of the candidate of a class member.
proof fn lemma_member_place(
    st: SymbolTable,
    from: Option<ModuleKey>,
    model: Model,
    typed: Seq<char>,
    name: Seq<char>,
    is_method: bool,
    c: int,
    i: int,
    s: int,
) -> (k: int)
    requires
        is_class_member_of(st, from, model, name, is_method, c, i, s),
        typed.is_prefix_of(name),
        !(is_method && is_bracketed(name)),
    ensures
        0 <= k < model_candidates(st, from, model, typed, is_method).len(),
        model_candidates(st, from, model, typed, is_method)[k].name == name,
        model_candidates(st, from, model, typed, is_method)[k].symbols[0] == member_symbols_at(
            st,
            model.main_symbols@[c],
            i,
        )[s],
        k == concat_map(
            members_at(st, model.main_symbols@[c]).take(i),
            class_candidate(st, from, typed, is_method),
        ).len(),
        k < class_part(st, from, model, typed, is_method).len(),
{
    let members = members_at(st, model.main_symbols@[c]);
    let part = class_candidate(st, from, typed, is_method);
    lemma_first_seen(st, model.main_symbols@, from, c);
    lemma_first_seen(st, members[i].symbols@, from, s);
    let k = concat_map(members.take(i), part).len() as int;
    lemma_part_place(members, part, i);
    let of_class = class_part(st, from, model, typed, is_method);
    assert(part(members[i]).len() == 1);
    lemma_stands_contains(of_class, part(members[i]), k, 0);
    assert(model_candidates(st, from, model, typed, is_method)[k] == of_class[k]);
    k
}

/// The place of the candidate of a record.
proof fn lemma_record_place(
    st: SymbolTable,
    from: Option<ModuleKey>,
    model: Model,
    typed: Seq<char>,
    name: Seq<char>,
    r: int,
) -> (k: int)
    requires
        is_record_of(st, from, model, name, r),
        typed.is_prefix_of(name),
    ensures
        0 <= k < model_candidates(st, from, model, typed, false).len(),
        model_candidates(st, from, model, typed, false)[k].name == name,
        model_candidates(st, from, model, typed, false)[k].symbols[0] == model.xml_fields@[r],
        k == class_part(st, from, model, typed, false).len() + concat_map(
            st.visible_keys(model.xml_fields@.take(r), from),
            record_candidate(st, typed),
        ).len(),
{
    let keys = model.xml_fields@;
    let accepts = st.visibility(from);
    let seen = st.visible_keys(keys, from);
    let part = record_candidate(st, typed);
    modules_see_their_dependencies(st, keys[r], from);
    crate::seqs::lemma_filter_place(keys, accepts, r);
    let at = keys.take(r).filter(accepts).len() as int;
    lemma_part_place(seen, part, at);
    let start = concat_map(seen.take(at), part).len() as int;
    assert(seen.take(at) =~= st.visible_keys(keys.take(r), from)) by {
        assert(keys =~= keys.take(r) + keys.skip(r));
        Seq::filter_distributes_over_add(keys.take(r), keys.skip(r), accepts);
    }
    let of_records = concat_map(seen, part);
    assert(part(seen[at]).len() == 1);
    lemma_stands_contains(of_records, part(seen[at]), start, 0);
    let of_class = class_part(st, from, model, typed, false);
    let k = of_class.len() + start;
    assert(model_candidates(st, from, model, typed, false)[k] == of_records[start]);
    k
}

/// What items are made of: distinct candidates, each the first of its name.
proof fn lemma_items_of_candidates(
    session: SessionInfo,
    from: Option<ModuleKey>,
    m: int,
    typed: Seq<char>,
    is_method: bool,
    span: ByteSpan,
)
    requires
        session.wf(),
        0 <= m < session.models@.len(),
        members_fit(session, from, session.models@[m].name@, typed, is_method),
    ensures
        ({
            let model = session.models@[m];
            let candidates = model_candidates(session.st, from, model, typed, is_method);
            let keys = candidate_keys(candidates);
            let order = without_repeats(keys, sorted_order(keys));
            let list = member_list(session, from, model.name@, typed, is_method, span);
            &&& candidates.len() <= usize::MAX
            &&& forall|a: int| 0 <= a < order.len() ==> (#[trigger] order[a]) < candidates.len()
            &&& list.items.len() == if order.len() > 200 {
                200
            } else {
                order.len()
            }
            &&& list.is_incomplete == (order.len() > 200)
            &&& forall|k: int|
                0 <= k < list.items.len() ==> #[trigger] list.items[k] == member_item(
                    session.st,
                    candidates[order[k] as int],
                    is_method,
                    span,
                )
            &&& forall|y: int|
                0 <= y < candidates.len() ==> key_is_kept(keys, order, #[trigger] (y as usize))
            &&& is_strictly_sorted(keys, order)
        }),
{
    let model = session.models@[m];
    models_are_found_by_name(session, model.name@);
    let candidates = model_candidates(session.st, from, model, typed, is_method);
    let keys = candidate_keys(candidates);
    let sorted = sorted_order(keys);
    let order = without_repeats(keys, sorted);
    assert(forall|a: int| 0 <= a < order.len() ==> (#[trigger] order[a]) < candidates.len()) by {
        order_is_a_stable_sort(keys, keys.len() as int);
        lemma_kept_below(keys, sorted, keys.len() as int);
    }
    assert(is_strictly_sorted(keys, order)) by {
        order_is_a_stable_sort(keys, keys.len() as int);
        repeats_are_dropped(keys, sorted);
    }
    assert forall|y: int| 0 <= y < candidates.len() implies key_is_kept(
        keys,
        order,
        #[trigger] (y as usize),
    ) by {
        order_is_a_stable_sort(keys, keys.len() as int);
        no_key_is_dropped(keys, sorted);
        assert(sorted.contains(y as usize));
        assert(key_is_kept(keys, order, sorted[sorted.index_of(y as usize)]));
    }
}

/// The candidate of an item is the first of its name.
proof fn lemma_item_is_first(
    session: SessionInfo,
    from: Option<ModuleKey>,
    m: int,
    typed: Seq<char>,
    is_method: bool,
    span: ByteSpan,
    k: int,
    y: int,
)
    requires
        session.wf(),
        0 <= m < session.models@.len(),
        members_fit(session, from, session.models@[m].name@, typed, is_method),
        0 <= k < member_list(
            session,
            from,
            session.models@[m].name@,
            typed,
            is_method,
            span,
        ).items.len(),
        0 <= y < model_candidates(
            session.st,
            from,
            session.models@[m],
            typed,
            is_method,
        ).len(),
        model_candidates(session.st, from, session.models@[m], typed, is_method)[y].name
            == member_list(
            session,
            from,
            session.models@[m].name@,
            typed,
            is_method,
            span,
        ).items[k].label,
    ensures
        ({
            let candidates = model_candidates(
                session.st,
                from,
                session.models@[m],
                typed,
                is_method,
            );
            let keys = candidate_keys(candidates);
            without_repeats(keys, sorted_order(keys))[k] <= y
        }),
{
    let model = session.models@[m];
    lemma_items_of_candidates(session, from, m, typed, is_method, span);
    let candidates = model_candidates(session.st, from, model, typed, is_method);
    let keys = candidate_keys(candidates);
    let order = without_repeats(keys, sorted_order(keys));
    let list = member_list(session, from, model.name@, typed, is_method, span);
    assert(list.items[k] == member_item(
        session.st,
        candidates[order[k] as int],
        is_method,
        span,
    ));
    assert(order[k] < candidates.len());
    assert(key_is_kept(keys, order, y as usize));
    let b = choose|b: int|
        0 <= b < order.len() && keys[order[b] as int] == keys[y as usize as int]
            && #[trigger] order[b] <= y as usize;
    assert(order[b] < candidates.len());
    assert(keys[order[b] as int] == keys[order[k] as int]);
    if b < k {
        assert(keys[order[b] as int] != keys[order[k] as int]);
    } else if k < b {
        assert(keys[order[k] as int] != keys[order[b] as int]);
    }
}

/// Every member that is offered in a document of a module is one that the document may name: it has a
/// symbol in sight of the module, be it a member of the class that declares the model or a record. It
/// continues what is typed, and no method offered stands in angle brackets.
pub proof fn offered_members_are_in_sight(
    session: SessionInfo,
    from: Option<ModuleKey>,
    m: int,
    typed: Seq<char>,
    is_method: bool,
    span: ByteSpan,
    k: int,
)
    requires
        session.wf(),
        0 <= m < session.models@.len(),
        members_fit(session, from, session.models@[m].name@, typed, is_method),
        0 <= k < member_list(
            session,
            from,
            session.models@[m].name@,
            typed,
            is_method,
            span,
        ).items.len(),
    ensures
        ({
            let item = member_list(
                session,
                from,
                session.models@[m].name@,
                typed,
                is_method,
                span,
            ).items[k];
            &&& may_be_named(session.st, from, session.models@[m], item.label, is_method)
            &&& typed.is_prefix_of(item.label)
            &&& !(is_method && is_bracketed(item.label))
        }),
{
    let model = session.models@[m];
    lemma_items_of_candidates(session, from, m, typed, is_method, span);
    let candidates = model_candidates(session.st, from, model, typed, is_method);
    let keys = candidate_keys(candidates);
    let order = without_repeats(keys, sorted_order(keys));
    let list = member_list(session, from, model.name@, typed, is_method, span);
    assert(list.items[k].label == candidates[order[k] as int].name);
    assert(order[k] < candidates.len());
    lemma_candidate_origin(session.st, from, model, typed, is_method, order[k] as int);
    lemma_candidates_offered(session.st, from, model, typed, is_method);
    assert(crate::completion_items::is_member_offered(
        candidates[order[k] as int],
        typed,
        is_method,
    ));
}

/// Whether a member may be named and continues what is typed.
pub open spec fn continues(
    st: SymbolTable,
    from: Option<ModuleKey>,
    model: Model,
    typed: Seq<char>,
    is_method: bool,
    name: Seq<char>,
) -> bool {
    &&& may_be_named(st, from, model, name, is_method)
    &&& typed.is_prefix_of(name)
    &&& !(is_method && is_bracketed(name))
}

/// The place of a candidate that may be named.
proof fn lemma_named_place(
    st: SymbolTable,
    from: Option<ModuleKey>,
    model: Model,
    typed: Seq<char>,
    is_method: bool,
    name: Seq<char>,
) -> (y: int)
    requires
        continues(st, from, model, typed, is_method, name),
    ensures
        0 <= y < model_candidates(st, from, model, typed, is_method).len(),
        model_candidates(st, from, model, typed, is_method)[y].name == name,
{
    if exists|c: int, i: int, s: int| #[trigger]
        is_class_member_of(st, from, model, name, is_method, c, i, s) {
        let (c, i, s) = choose|c: int, i: int, s: int| #[trigger]
            is_class_member_of(st, from, model, name, is_method, c, i, s);
        lemma_member_place(st, from, model, typed, name, is_method, c, i, s)
    } else {
        let r = choose|r: int| #[trigger] is_record_of(st, from, model, name, r);
        lemma_record_place(st, from, model, typed, name, r)
    }
}

/// A list of members that is not flagged incomplete offers every member that continues what is typed
/// and that the document may name; one that is flagged offers two hundred and leaves some out.
pub proof fn members_are_left_out_by_the_cap_alone(
    session: SessionInfo,
    from: Option<ModuleKey>,
    m: int,
    typed: Seq<char>,
    is_method: bool,
    span: ByteSpan,
)
    requires
        session.wf(),
        0 <= m < session.models@.len(),
        members_fit(session, from, session.models@[m].name@, typed, is_method),
    ensures
        ({
            let model = session.models@[m];
            let list = member_list(session, from, model.name@, typed, is_method, span);
            &&& list.items.len() <= 200
            &&& !list.is_incomplete ==> forall|name: Seq<char>| #[trigger]
                continues(session.st, from, model, typed, is_method, name) ==> offers(list, name)
            &&& list.is_incomplete ==> list.items.len() == 200 && exists|name: Seq<char>| #[trigger]
                continues(session.st, from, model, typed, is_method, name) && !offers(list, name)
        }),
{
    let model = session.models@[m];
    lemma_items_of_candidates(session, from, m, typed, is_method, span);
    let candidates = model_candidates(session.st, from, model, typed, is_method);
    let keys = candidate_keys(candidates);
    let order = without_repeats(keys, sorted_order(keys));
    let list = member_list(session, from, model.name@, typed, is_method, span);
    if !list.is_incomplete {
        assert forall|name: Seq<char>| #[trigger]
            continues(session.st, from, model, typed, is_method, name) implies offers(
            list,
            name,
        ) by {
            let y = lemma_named_place(session.st, from, model, typed, is_method, name);
            assert(key_is_kept(keys, order, y as usize));
            let b = choose|b: int|
                0 <= b < order.len() && keys[order[b] as int] == keys[y as usize as int]
                    && #[trigger] order[b] <= y as usize;
            assert(order[b] < candidates.len());
            assert(list.items[b].label == candidates[order[b] as int].name);
            assert(keys[order[b] as int].major == keys[y].major);
        }
    } else {
        let x = order[200] as int;
        assert(order[200] < candidates.len());
        let name = candidates[x].name;
        lemma_candidate_origin(session.st, from, model, typed, is_method, x);
        lemma_candidates_offered(session.st, from, model, typed, is_method);
        assert(crate::completion_items::is_member_offered(candidates[x], typed, is_method));
        assert(continues(session.st, from, model, typed, is_method, name));
        assert(!offers(list, name)) by {
            if offers(list, name) {
                let k = choose|k: int|
                    0 <= k < list.items.len() && (#[trigger] list.items[k]).label == name;
                assert(list.items[k].label == candidates[order[k] as int].name);
                assert(order[k] < candidates.len());
                assert(keys[order[k] as int] != keys[order[200] as int]);
                assert(keys[order[k] as int].major == keys[x].major);
                assert(keys[order[k] as int] == keys[x]);
            }
        }
    }
}

/// A name that is no model has no members to offer.
pub proof fn unknown_models_offer_nothing(
    session: SessionInfo,
    from: Option<ModuleKey>,
    name: Seq<char>,
    typed: Seq<char>,
    is_method: bool,
    span: ByteSpan,
)
    requires
        session.wf(),
        forall|m: int| 0 <= m < session.models@.len() ==> (#[trigger] session.models@[m]).name@
            != name,
    ensures
        member_list(session, from, name, typed, is_method, span).items.len() == 0,
        !member_list(session, from, name, typed, is_method, span).is_incomplete,
{
    models_are_found_by_name(session, name);
}

/// Rank of a method: `0` of a public one, `1` of one that starts with an underscore, `2` of one that
/// both starts and ends with two.
pub open spec fn rank_of(name: Seq<char>, rank: char) -> bool {
    let count = name.len() as int;
    if count >= 4 && name[0] == '_' && name[1] == '_' && name[count - 1] == '_' && name[count - 2]
        == '_' {
        rank == '2'
    } else if count >= 1 && name[0] == '_' {
        rank == '1'
    } else {
        rank == '0'
    }
}

/// Fields are offered as fields, in the order of their labels; methods as values, ranked by their
/// underscores, without a note.
pub proof fn members_are_offered_by_kind(
    session: SessionInfo,
    from: Option<ModuleKey>,
    m: int,
    typed: Seq<char>,
    is_method: bool,
    span: ByteSpan,
    k: int,
)
    requires
        session.wf(),
        0 <= m < session.models@.len(),
        members_fit(session, from, session.models@[m].name@, typed, is_method),
        0 <= k < member_list(
            session,
            from,
            session.models@[m].name@,
            typed,
            is_method,
            span,
        ).items.len(),
    ensures
        ({
            let item = member_list(
                session,
                from,
                session.models@[m].name@,
                typed,
                is_method,
                span,
            ).items[k];
            &&& !is_method ==> item.kind == CompletionItemKind::Field && item.sort_text is None
            &&& is_method ==> {
                &&& item.kind == CompletionItemKind::Value
                &&& item.description is None
                &&& item.sort_text is Some
                &&& item.sort_text->0.len() == item.label.len() + 1
                &&& item.sort_text->0.drop_first() == item.label
                &&& rank_of(item.label, item.sort_text->0[0])
            }
        }),
{
    let model = session.models@[m];
    lemma_items_of_candidates(session, from, m, typed, is_method, span);
    let candidates = model_candidates(session.st, from, model, typed, is_method);
    let keys = candidate_keys(candidates);
    let order = without_repeats(keys, sorted_order(keys));
    let item = member_list(session, from, model.name@, typed, is_method, span).items[k];
    assert(item == member_item(session.st, candidates[order[k] as int], is_method, span));
    if is_method {
        assert(item.sort_text->0.drop_first() =~= item.label);
    }
}

/// A field that the class of a model declares is offered with the type of its first symbol in sight,
/// that of the first member of the name that has any.
pub proof fn class_fields_are_offered_with_their_type(
    session: SessionInfo,
    from: Option<ModuleKey>,
    m: int,
    typed: Seq<char>,
    span: ByteSpan,
    k: int,
    c: int,
    i: int,
    s: int,
)
    requires
        session.wf(),
        0 <= m < session.models@.len(),
        members_fit(session, from, session.models@[m].name@, typed, false),
        0 <= k < member_list(
            session,
            from,
            session.models@[m].name@,
            typed,
            false,
            span,
        ).items.len(),
        is_class_member_of(
            session.st,
            from,
            session.models@[m],
            member_list(session, from, session.models@[m].name@, typed, false, span).items[k].label,
            false,
            c,
            i,
            s,
        ),
        forall|j: int, t: int|
            0 <= j < i ==> !#[trigger] is_class_member_of(
                session.st,
                from,
                session.models@[m],
                member_list(
                    session,
                    from,
                    session.models@[m].name@,
                    typed,
                    false,
                    span,
                ).items[k].label,
                false,
                c,
                j,
                t,
            ),
    ensures
        member_list(
            session,
            from,
            session.models@[m].name@,
            typed,
            false,
            span,
        ).items[k].description == field_note(
            session.st,
            member_symbols_at(session.st, session.models@[m].main_symbols@[c], i)[s],
        ),
{
    let st = session.st;
    let model = session.models@[m];
    lemma_items_of_candidates(session, from, m, typed, false, span);
    let candidates = model_candidates(st, from, model, typed, false);
    let keys = candidate_keys(candidates);
    let order = without_repeats(keys, sorted_order(keys));
    let item = member_list(session, from, model.name@, typed, false, span).items[k];
    let x = order[k] as int;
    assert(item == member_item(st, candidates[x], false, span));
    assert(order[k] < candidates.len());
    offered_members_are_in_sight(session, from, m, typed, false, span, k);
    let y = lemma_member_place(st, from, model, typed, item.label, false, c, i, s);
    lemma_item_is_first(session, from, m, typed, false, span, k, y);
    if x < y {
        let members = members_at(st, model.main_symbols@[c]);
        let part = class_candidate(st, from, typed, false);
        let of_class = class_part(st, from, model, typed, false);
        lemma_first_seen(st, model.main_symbols@, from, c);
        assert(candidates[x] == of_class[x]);
        assert(members =~= members.take(i) + members.skip(i));
        crate::seqs::lemma_concat_map_add(members.take(i), members.skip(i), part);
        assert(of_class[x] == concat_map(members.take(i), part)[x]);
        let (j, t) = lemma_class_candidate(st, from, model, typed, false, c, i, x);
        assert(is_class_member_of(st, from, model, item.label, false, c, j, t));
    }
}

/// A field that records alone declare is offered with the type that the first record in sight has.
pub proof fn record_fields_are_offered_with_their_type(
    session: SessionInfo,
    from: Option<ModuleKey>,
    m: int,
    typed: Seq<char>,
    span: ByteSpan,
    k: int,
    r: int,
)
    requires
        session.wf(),
        0 <= m < session.models@.len(),
        members_fit(session, from, session.models@[m].name@, typed, false),
        0 <= k < member_list(
            session,
            from,
            session.models@[m].name@,
            typed,
            false,
            span,
        ).items.len(),
        forall|c: int, i: int, s: int| !#[trigger]
            is_class_member_of(
                session.st,
                from,
                session.models@[m],
                member_list(
                    session,
                    from,
                    session.models@[m].name@,
                    typed,
                    false,
                    span,
                ).items[k].label,
                false,
                c,
                i,
                s,
            ),
        is_record_of(
            session.st,
            from,
            session.models@[m],
            member_list(session, from, session.models@[m].name@, typed, false, span).items[k].label,
            r,
        ),
        forall|j: int|
            0 <= j < r ==> !#[trigger] is_record_of(
                session.st,
                from,
                session.models@[m],
                member_list(
                    session,
                    from,
                    session.models@[m].name@,
                    typed,
                    false,
                    span,
                ).items[k].label,
                j,
            ),
    ensures
        member_list(
            session,
            from,
            session.models@[m].name@,
            typed,
            false,
            span,
        ).items[k].description == field_note(session.st, session.models@[m].xml_fields@[r]),
{
    let st = session.st;
    let model = session.models@[m];
    lemma_items_of_candidates(session, from, m, typed, false, span);
    let candidates = model_candidates(st, from, model, typed, false);
    let keys = candidate_keys(candidates);
    let order = without_repeats(keys, sorted_order(keys));
    let item = member_list(session, from, model.name@, typed, false, span).items[k];
    let x = order[k] as int;
    assert(item == member_item(st, candidates[x], false, span));
    assert(order[k] < candidates.len());
    offered_members_are_in_sight(session, from, m, typed, false, span, k);
    let y = lemma_record_place(st, from, model, typed, item.label, r);
    lemma_item_is_first(session, from, m, typed, false, span, k, y);
    let of_class = class_part(st, from, model, typed, false);
    if x < of_class.len() {
        assert(candidates[x] == of_class[x]);
        let c = lemma_some_is_first(st, model.main_symbols@, from);
        let members = members_at(st, model.main_symbols@[c]);
        assert(members.take(members.len() as int) =~= members);
        let (i, s) = lemma_class_candidate(
            st,
            from,
            model,
            typed,
            false,
            c,
            members.len() as int,
            x,
        );
        assert(is_class_member_of(st, from, model, item.label, false, c, i, s));
    } else if x < y {
        let fields = model.xml_fields@;
        let part = record_candidate(st, typed);
        let (head, tail) = (fields.take(r), fields.skip(r));
        assert(fields =~= head + tail);
        Seq::filter_distributes_over_add(head, tail, st.visibility(from));
        crate::seqs::lemma_concat_map_add(
            st.visible_keys(head, from),
            st.visible_keys(tail, from),
            part,
        );
        let at = x - of_class.len();
        assert(candidates[x] == concat_map(st.visible_keys(fields, from), part)[at]);
        assert(candidates[x] == concat_map(st.visible_keys(head, from), part)[at]);
        let j = lemma_record_candidate(st, from, model, typed, r, at);
        assert(is_record_of(st, from, model, item.label, j));
    }
}

/// What expects a model is completed by models, a field by the fields of its model, a method by its
/// methods, and an xml id by those that are accepted.
pub proof fn targets_are_completed_by_what_they_expect(
    session: SessionInfo,
    from: Option<ModuleKey>,
    model: Seq<char>,
    filter: FilterView,
    typed: Seq<char>,
    span: ByteSpan,
)
    ensures
        target_list(session, from, TargetView::Model, typed, span) == model_list(
            session,
            from,
            typed,
            span,
        ),
        target_list(session, from, TargetView::Field(model), typed, span) == member_list(
            session,
            from,
            model,
            typed,
            false,
            span,
        ),
        target_list(session, from, TargetView::Method(model), typed, span) == member_list(
            session,
            from,
            model,
            typed,
            true,
            span,
        ),
        target_list(session, from, TargetView::XmlId(filter), typed, span) == xml_id_list(
            session,
            from,
            filter,
            typed,
            span,
        ),
{
}

/// What the cap leaves out of a list of members sorts behind all that the list offers.
pub proof fn members_left_out_sort_behind(
    session: SessionInfo,
    from: Option<ModuleKey>,
    m: int,
    typed: Seq<char>,
    is_method: bool,
    span: ByteSpan,
    name: Seq<char>,
    k: int,
)
    requires
        session.wf(),
        0 <= m < session.models@.len(),
        members_fit(session, from, session.models@[m].name@, typed, is_method),
        continues(session.st, from, session.models@[m], typed, is_method, name),
        0 <= k < member_list(
            session,
            from,
            session.models@[m].name@,
            typed,
            is_method,
            span,
        ).items.len(),
        !offers(
            member_list(session, from, session.models@[m].name@, typed, is_method, span),
            name,
        ),
    ensures
        str_le(
            member_list(
                session,
                from,
                session.models@[m].name@,
                typed,
                is_method,
                span,
            ).items[k].label,
            name,
        ),
{
    let model = session.models@[m];
    lemma_items_of_candidates(session, from, m, typed, is_method, span);
    let candidates = model_candidates(session.st, from, model, typed, is_method);
    let keys = candidate_keys(candidates);
    let order = without_repeats(keys, sorted_order(keys));
    let list = member_list(session, from, model.name@, typed, is_method, span);
    let y = lemma_named_place(session.st, from, model, typed, is_method, name);
    assert(key_is_kept(keys, order, y as usize));
    let b = choose|b: int|
        0 <= b < order.len() && keys[order[b] as int] == keys[y as usize as int]
            && #[trigger] order[b] <= y as usize;
    assert(order[b] < candidates.len() && order[k] < candidates.len());
    assert(keys[order[b] as int].major == keys[y].major);
    assert(list.items[k].label == candidates[order[k] as int].name);
    if b < list.items.len() {
        assert(list.items[b].label == candidates[order[b] as int].name);
    }
    assert(k < b);
    assert(key_le(keys[order[k] as int], keys[order[b] as int]));
    assert(keys[order[k] as int] != keys[order[b] as int]);
}

} // verus!
