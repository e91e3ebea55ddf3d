//! What holds of looking names up: what a module sees, where members of a model come from, what an
//! xml id names.
use vstd::prelude::*;

use crate::seqs::{
    concat_map, first_index, lemma_concat_map_add, lemma_concat_nothing, lemma_filter_all,
    lemma_filter_none, lemma_filter_order, lemma_filter_origin, lemma_filter_place,
    lemma_first_index, lemma_is_first_index, lemma_part_origin, lemma_part_place,
    lemma_parts_in_order, lemma_stands_contains, stand_in_order, stands_at,
};
use crate::symbols::{
    has_name, is_model, is_module, is_xml_id, names_distinct, Evaluation, EvaluationSymbolPtr,
    Model, ModuleKey, SessionInfo, SymbolData, SymbolKey, SymbolTable, XmlId, XmlIdKind,
    XmlRecordSymbol,
};
use crate::xml_lookup::{
    content_part, declares_field, evaluations_comodel, is_seen, is_variable_or_function,
    xml_id_targets, Resolver,
};

verus! {

/// Whether a key still has a symbol.
pub open spec fn is_there(st: SymbolTable, key: SymbolKey) -> bool {
    key.index < st.symbols@.len() && st.symbols@[key.index as int] is Some
}

/// What is known of the symbol of a key that has one.
pub open spec fn data_at(st: SymbolTable, key: SymbolKey) -> SymbolData {
    st.symbols@[key.index as int]->0.data
}

/// Whether a symbol is declared in a module that exists.
pub open spec fn is_of_module(st: SymbolTable, key: SymbolKey, module: ModuleKey) -> bool {
    &&& is_there(st, key)
    &&& st.symbols@[key.index as int]->0.module == Some(module)
    &&& module.index < st.modules@.len()
}

/// Whether a module names another one among its dependencies.
pub open spec fn depends_on(st: SymbolTable, from: ModuleKey, module: ModuleKey) -> bool {
    exists|i: int|
        0 <= i < st.modules@[from.index as int].all_depends@.len()
            && #[trigger] st.modules@[from.index as int].all_depends@[i]@
            == st.modules@[module.index as int].name@
}

/// Whether a document of a module may use a symbol: it is there, and belongs to the module, to one of
/// its dependencies or to no module. A document of no module may use all that is there.
pub open spec fn in_sight(st: SymbolTable, key: SymbolKey, from: Option<ModuleKey>) -> bool {
    &&& is_there(st, key)
    &&& from matches Some(from) ==> forall|module: ModuleKey| #[trigger]
        is_of_module(st, key, module) ==> {
            &&& from.index < st.modules@.len()
            &&& st.modules@[from.index as int].name@ == st.modules@[module.index as int].name@
                || depends_on(st, from, module)
        }
}

/// A module sees the symbols of its own and of the modules that it depends on, those of no module,
/// and no others; what is gone is seen from nowhere, and without a module all that is there is seen.
pub proof fn modules_see_their_dependencies(
    st: SymbolTable,
    key: SymbolKey,
    from: Option<ModuleKey>,
)
    ensures
        st.visible(key, from) == in_sight(st, key, from),
        !is_there(st, key) ==> !st.visible(key, from),
        from is None && is_there(st, key) ==> st.visible(key, from),
        is_there(st, key) && st.symbols@[key.index as int]->0.module is None ==> st.visible(
            key,
            from,
        ),
        forall|module: ModuleKey| #[trigger]
            is_of_module(st, key, module) && from == Some(module) ==> st.visible(key, from),
        forall|module: ModuleKey| #[trigger]
            is_of_module(st, key, module) && from is Some && from->0.index < st.modules@.len()
                && depends_on(st, from->0, module) ==> st.visible(key, from),
        forall|module: ModuleKey| #[trigger]
            is_of_module(st, key, module) && from is Some && from->0.index < st.modules@.len()
                && st.modules@[from->0.index as int].name@ != st.modules@[module.index as int].name@
                && !depends_on(st, from->0, module) ==> !st.visible(key, from),
{
    if is_there(st, key) {
        if let Some(module) = st.symbols@[key.index as int]->0.module {
            if module.index < st.modules@.len() {
                assert(is_of_module(st, key, module));
                if let Some(from) = from {
                    if from.index < st.modules@.len() {
                        let found = st.modules@[from.index as int];
                        let name = st.modules@[module.index as int].name@;
                        if st.in_deps(from, name) && found.name@ != name {
                            let i = choose|i: int|
                                0 <= i < found.all_depends@.len()
                                    && #[trigger] found.all_depends@[i]@ == name;
                            assert(st.modules@[from.index as int].all_depends@[i]@ == name);
                        }
                        if depends_on(st, from, module) {
                            let i = choose|i: int|
                                0 <= i < st.modules@[from.index as int].all_depends@.len()
                                    && #[trigger] st.modules@[from.index as int].all_depends@[i]@
                                    == name;
                            assert(found.all_depends@[i]@ == name);
                        }
                    }
                }
            }
        }
    }
}

/// The module of a symbol is the one that it is declared in, when both exist.
pub proof fn symbols_are_of_their_module(st: SymbolTable, key: SymbolKey, module: ModuleKey)
    ensures
        st.module_of(key) == Some(module) <==> is_of_module(st, key, module),
{
}

/// Of some keys a module sees those in sight: joined keys are seen as each of them is, a single one
/// when it is in sight.
pub proof fn keys_are_seen_one_by_one(
    st: SymbolTable,
    left: Seq<SymbolKey>,
    right: Seq<SymbolKey>,
    key: SymbolKey,
    from: Option<ModuleKey>,
)
    ensures
        st.visible_keys(left + right, from) == st.visible_keys(left, from) + st.visible_keys(
            right,
            from,
        ),
        in_sight(st, key, from) ==> st.visible_keys(seq![key], from) == seq![key],
        !in_sight(st, key, from) ==> st.visible_keys(seq![key], from) == Seq::<SymbolKey>::empty(),
        st.visible_keys(Seq::empty(), from) == Seq::<SymbolKey>::empty(),
{
    let accepts = st.visibility(from);
    modules_see_their_dependencies(st, key, from);
    Seq::filter_distributes_over_add(left, right, accepts);
    reveal(Seq::filter);
    assert(seq![key].drop_last() =~= Seq::<SymbolKey>::empty());
    assert(seq![key].drop_last().filter(accepts) =~= Seq::empty());
    assert(seq![key].filter(accepts) =~= if accepts(key) {
        seq![key]
    } else {
        Seq::empty()
    });
}

/// A class declares under a name what the entry of that name in its body holds, and nothing when
/// there is none.
pub proof fn classes_declare_their_entries(st: SymbolTable, class_key: SymbolKey, name: Seq<char>)
    requires
        st.wf(),
        is_there(st, class_key),
        data_at(st, class_key) is Class,
    ensures
        ({
            let content = data_at(st, class_key)->Class_0.content@;
            &&& forall|e: int|
                0 <= e < content.len() && (#[trigger] content[e]).name@ == name ==> st.content_of(
                    class_key,
                    name,
                ) == content[e].symbols@
            &&& (forall|e: int| 0 <= e < content.len() ==> (#[trigger] content[e]).name@ != name)
                ==> st.content_of(class_key, name).len() == 0
        }),
{
    let class = data_at(st, class_key)->Class_0;
    let content = class.content@;
    let accepts = has_name(name);
    assert(st.symbols@[class_key.index as int] is Some);
    assert(names_distinct(content));
    lemma_first_index(content, accepts);
    let first = first_index(content, accepts) as int;
    assert forall|e: int| 0 <= e < content.len() && (#[trigger] content[e]).name@
        == name implies st.content_of(class_key, name) == content[e].symbols@ by {
        assert forall|j: int| 0 <= j < e implies !accepts(#[trigger] content[j]) by {
            assert(content[j].name@ != content[e].name@);
        }
        lemma_is_first_index(content, accepts, e);
    }
}

/// A model is found by its name, a name that no model has finds none.
pub proof fn models_are_found_by_name(session: SessionInfo, name: Seq<char>)
    requires
        session.wf(),
    ensures
        forall|m: int|
            0 <= m < session.models@.len() && (#[trigger] session.models@[m]).name@ == name
                ==> session.model_named(name) == Some(session.models@[m]),
        (forall|m: int|
            0 <= m < session.models@.len() ==> (#[trigger] session.models@[m]).name@ != name)
            ==> session.model_named(name) is None,
{
    let accepts = is_model(name);
    let models = session.models@;
    lemma_first_index(models, accepts);
    assert forall|m: int| 0 <= m < models.len() && (#[trigger] models[m]).name@
        == name implies session.model_named(name) == Some(models[m]) by {
        assert forall|j: int| 0 <= j < m implies !accepts(#[trigger] models[j]) by {
            assert(models[j].name@ != models[m].name@);
        }
        lemma_is_first_index(models, accepts, m);
    }
}

/// The variables and functions among symbols.
pub open spec fn concrete(st: SymbolTable, keys: Seq<SymbolKey>) -> Seq<SymbolKey> {
    keys.filter(
        |key: SymbolKey|
            is_there(st, key) && (data_at(st, key) is Variable || data_at(st, key) is Function),
    )
}

/// Whether entry `e` of the body of a class declares a name.
pub open spec fn declares(st: SymbolTable, class_key: SymbolKey, e: int, name: Seq<char>) -> bool {
    &&& is_there(st, class_key)
    &&& data_at(st, class_key) is Class
    &&& 0 <= e < data_at(st, class_key)->Class_0.content@.len()
    &&& data_at(st, class_key)->Class_0.content@[e].name@ == name
}

/// What entry `e` of the body of a class holds.
pub open spec fn declared(st: SymbolTable, class_key: SymbolKey, e: int) -> Seq<SymbolKey> {
    data_at(st, class_key)->Class_0.content@[e].symbols@
}

/// Whether a record declares the field of a name.
pub open spec fn is_field_record(st: SymbolTable, key: SymbolKey, name: Seq<char>) -> bool {
    &&& is_there(st, key)
    &&& data_at(st, key) matches SymbolData::XmlRecord(record)
    &&& record.name matches Some(field)
    &&& field@ == name
}

/// The module that bounds what a lookup sees: with `on_dep_only` that of the document.
pub open spec fn bound_of(resolver: Resolver) -> Option<ModuleKey> {
    if resolver.on_dep_only {
        resolver.from_module
    } else {
        None
    }
}

impl Resolver {
    /// What a class in sight contributes.
    proof fn lemma_class_part(self, class_key: SymbolKey, e: int, member: Seq<char>)
        requires
            self.session.wf(),
            declares(self.session.st, class_key, e, member),
        ensures
            content_part(self.session.st, member)(class_key) == concrete(
                self.session.st,
                declared(self.session.st, class_key, e),
            ),
    {
        let st = self.session.st;
        classes_declare_their_entries(st, class_key, member);
        let keys = declared(st, class_key, e);
        assert(st.content_of(class_key, member) == keys);
        lemma_same_filter(
            keys,
            is_variable_or_function(st),
            |key: SymbolKey|
                is_there(st, key) && (data_at(st, key) is Variable || data_at(st, key) is Function),
        );
    }

    /// Where a class that is in sight stands among those in sight.
    proof fn lemma_class_place(self, model: Model, c: int) -> (at: int)
        requires
            0 <= c < model.full_classes@.len(),
            in_sight(self.session.st, model.full_classes@[c], bound_of(self)),
        ensures
            ({
                let seen = self.session.st.visible_keys(model.full_classes@, self.bound());
                &&& 0 <= at < seen.len()
                &&& seen[at] == model.full_classes@[c]
                &&& at == model.full_classes@.take(c).filter(
                    self.session.st.visibility(self.bound()),
                ).len()
            }),
    {
        let st = self.session.st;
        modules_see_their_dependencies(st, model.full_classes@[c], self.bound());
        let accepts = st.visibility(self.bound());
        assert(accepts(model.full_classes@[c]));
        lemma_filter_place(model.full_classes@, accepts, c);
        model.full_classes@.take(c).filter(accepts).len() as int
    }

    /// Every class of a model that is in sight is searched: the variables and functions that its body
    /// declares under the name are found, in the order of the body and in one piece.
    pub proof fn every_class_is_searched(
        self,
        m: int,
        member: Seq<char>,
        c: int,
        e: int,
    )
        requires
            self.session.wf(),
            0 <= m < self.session.models@.len(),
            0 <= c < self.session.models@[m].full_classes@.len(),
            in_sight(
                self.session.st,
                self.session.models@[m].full_classes@[c],
                bound_of(self),
            ),
            declares(
                self.session.st,
                self.session.models@[m].full_classes@[c],
                e,
                member,
            ),
        ensures
            exists|i: int| #[trigger]
                stands_at(
                    self.members(self.session.models@[m].name@, member),
                    concrete(
                        self.session.st,
                        declared(self.session.st, self.session.models@[m].full_classes@[c], e),
                    ),
                    i,
                ),
            forall|s: int|
                #![trigger declared(
                    self.session.st,
                    self.session.models@[m].full_classes@[c],
                    e,
                )[s]]
                {
                    let keys = declared(
                        self.session.st,
                        self.session.models@[m].full_classes@[c],
                        e,
                    );
                    0 <= s < keys.len() && is_there(self.session.st, keys[s]) && (data_at(
                        self.session.st,
                        keys[s],
                    ) is Variable || data_at(self.session.st, keys[s]) is Function)
                        ==> self.members(self.session.models@[m].name@, member).contains(keys[s])
                },
    {
        let st = self.session.st;
        let model = self.session.models@[m];
        let class_key = model.full_classes@[c];
        models_are_found_by_name(self.session, model.name@);
        let seen = st.visible_keys(model.full_classes@, self.bound());
        let part = content_part(st, member);
        let at = self.lemma_class_place(model, c);
        self.lemma_class_part(class_key, e, member);
        lemma_part_place(seen, part, at);
        let keys = declared(st, class_key, e);
        let found = concrete(st, keys);
        let from_classes = concat_map(seen, part);
        let all = self.members(model.name@, member);
        let start = concat_map(seen.take(at), part).len() as int;
        assert(all.subrange(start, start + found.len()) =~= from_classes.subrange(
            start,
            start + found.len(),
        ));
        assert(stands_at(all, found, start));
        let accepts = |key: SymbolKey|
            is_there(st, key) && (data_at(st, key) is Variable || data_at(st, key) is Function);
        assert forall|s: int|
            #![trigger keys[s]]
            0 <= s < keys.len() && is_there(st, keys[s]) && (data_at(st, keys[s]) is Variable
                || data_at(st, keys[s]) is Function) implies all.contains(keys[s]) by {
            assert(accepts(keys[s]));
            lemma_filter_place(keys, accepts, s);
            let k = keys.take(s).filter(accepts).len() as int;
            assert(found[k] == keys[s]);
            lemma_stands_contains(all, found, start, k);
        }
    }

    /// Every record in sight that declares the field of a model is found.
    pub proof fn every_field_record_is_searched(self, m: int, member: Seq<char>, r: int)
        requires
            self.session.wf(),
            0 <= m < self.session.models@.len(),
            0 <= r < self.session.models@[m].xml_fields@.len(),
            in_sight(self.session.st, self.session.models@[m].xml_fields@[r], bound_of(self)),
            is_field_record(self.session.st, self.session.models@[m].xml_fields@[r], member),
        ensures
            self.members(self.session.models@[m].name@, member).contains(
                self.session.models@[m].xml_fields@[r],
            ),
    {
        let st = self.session.st;
        let model = self.session.models@[m];
        let key = model.xml_fields@[r];
        models_are_found_by_name(self.session, model.name@);
        modules_see_their_dependencies(st, key, self.bound());
        let seen = st.visibility(self.bound());
        let accepts = declares_field(st, member);
        let records = st.visible_keys(model.xml_fields@, self.bound());
        lemma_filter_place(model.xml_fields@, seen, r);
        let at = model.xml_fields@.take(r).filter(seen).len() as int;
        lemma_filter_place(records, accepts, at);
        let k = records.take(at).filter(accepts).len() as int;
        let from_classes = concat_map(
            st.visible_keys(model.full_classes@, self.bound()),
            content_part(st, member),
        );
        assert(self.members(model.name@, member)[from_classes.len() + k] == key);
    }

    /// What the classes of a model declare comes in the order of the classes.
    pub proof fn classes_are_searched_in_order(
        self,
        m: int,
        member: Seq<char>,
        c: int,
        e: int,
        d: int,
        f: int,
    )
        requires
            self.session.wf(),
            0 <= m < self.session.models@.len(),
            0 <= c < d < self.session.models@[m].full_classes@.len(),
            in_sight(
                self.session.st,
                self.session.models@[m].full_classes@[c],
                bound_of(self),
            ),
            declares(self.session.st, self.session.models@[m].full_classes@[c], e, member),
            in_sight(
                self.session.st,
                self.session.models@[m].full_classes@[d],
                bound_of(self),
            ),
            declares(self.session.st, self.session.models@[m].full_classes@[d], f, member),
        ensures
            stand_in_order(
                self.members(self.session.models@[m].name@, member),
                concrete(
                    self.session.st,
                    declared(self.session.st, self.session.models@[m].full_classes@[c], e),
                ),
                concrete(
                    self.session.st,
                    declared(self.session.st, self.session.models@[m].full_classes@[d], f),
                ),
            ),
    {
        let st = self.session.st;
        let model = self.session.models@[m];
        models_are_found_by_name(self.session, model.name@);
        let seen = st.visible_keys(model.full_classes@, self.bound());
        let part = content_part(st, member);
        let at = self.lemma_class_place(model, c);
        let to = self.lemma_class_place(model, d);
        modules_see_their_dependencies(st, model.full_classes@[c], self.bound());
        lemma_filter_order(model.full_classes@, st.visibility(self.bound()), c, d);
        self.lemma_class_part(model.full_classes@[c], e, member);
        self.lemma_class_part(model.full_classes@[d], f, member);
        lemma_parts_in_order(seen, part, at, to);
        let from_classes = concat_map(seen, part);
        let all = self.members(model.name@, member);
        let (left, right) = (part(seen[at]), part(seen[to]));
        let (i, j) = choose|i: int, j: int| #[trigger]
            stands_at(from_classes, left, i) && #[trigger] stands_at(from_classes, right, j) && i
                + left.len() <= j;
        assert(all.subrange(i, i + left.len()) =~= from_classes.subrange(i, i + left.len()));
        assert(all.subrange(j, j + right.len()) =~= from_classes.subrange(j, j + right.len()));
        assert(stands_at(all, left, i) && stands_at(all, right, j));
    }

    /// Whether a symbol is a member of that name that a class in sight declares.
    pub open spec fn is_class_member(self, model: Model, member: Seq<char>, key: SymbolKey) -> bool {
        exists|c: int, e: int|
            0 <= c < model.full_classes@.len() && in_sight(
                self.session.st,
                model.full_classes@[c],
                bound_of(self),
            ) && #[trigger] declares(self.session.st, model.full_classes@[c], e, member)
                && declared(self.session.st, model.full_classes@[c], e).contains(key) && is_there(
                self.session.st,
                key,
            ) && (data_at(self.session.st, key) is Variable || data_at(
                self.session.st,
                key,
            ) is Function)
    }

    /// Whether a symbol is a record in sight that declares the field of that name.
    pub open spec fn is_record_member(self, model: Model, member: Seq<char>, key: SymbolKey) -> bool {
        &&& model.xml_fields@.contains(key)
        &&& in_sight(self.session.st, key, bound_of(self))
        &&& is_field_record(self.session.st, key, member)
    }

    /// Whether the first `count` symbols are members that classes declare, and the others records.
    pub open spec fn splits_at(
        self,
        model: Model,
        member: Seq<char>,
        found: Seq<SymbolKey>,
        count: int,
    ) -> bool {
        &&& 0 <= count <= found.len()
        &&& forall|k: int|
            0 <= k < count ==> self.is_class_member(model, member, #[trigger] found[k])
        &&& forall|k: int|
            count <= k < found.len() ==> self.is_record_member(model, member, #[trigger] found[k])
    }

    /// What is found under a name is declared under it by a class of the model in sight or by a
    /// record in sight, the records coming after all that classes declare. A name that is no model
    /// has no members.
    pub proof fn members_are_declared(self, name: Seq<char>, member: Seq<char>)
        requires
            self.session.wf(),
        ensures
            (forall|m: int|
                0 <= m < self.session.models@.len() ==> (#[trigger] self.session.models@[m]).name@
                    != name) ==> self.members(name, member).len() == 0,
            forall|m: int|
                0 <= m < self.session.models@.len() && (#[trigger] self.session.models@[m]).name@
                    == name ==> exists|count: int| #[trigger]
                    self.splits_at(
                        self.session.models@[m],
                        member,
                        self.members(name, member),
                        count,
                    ),
    {
        let st = self.session.st;
        models_are_found_by_name(self.session, name);
        assert forall|m: int|
            0 <= m < self.session.models@.len() && (#[trigger] self.session.models@[m]).name@
                == name implies exists|count: int| #[trigger]
            self.splits_at(
                self.session.models@[m],
                member,
                self.members(name, member),
                count,
            ) by {
            let model = self.session.models@[m];
            let seen = st.visible_keys(model.full_classes@, self.bound());
            let part = content_part(st, member);
            let records = st.visible_keys(model.xml_fields@, self.bound());
            let count = concat_map(seen, part).len() as int;
            let all = self.members(name, member);
            assert forall|k: int| 0 <= k < count implies self.is_class_member(
                model,
                member,
                #[trigger] all[k],
            ) by {
                assert(all[k] == concat_map(seen, part)[k]);
                self.lemma_class_origin(model, member, k);
            }
            assert forall|k: int| count <= k < all.len() implies self.is_record_member(
                model,
                member,
                #[trigger] all[k],
            ) by {
                let at = lemma_filter_origin(records, declares_field(st, member), k - count);
                let r = lemma_filter_origin(model.xml_fields@, st.visibility(self.bound()), at);
                modules_see_their_dependencies(st, model.xml_fields@[r], self.bound());
                assert(model.xml_fields@.contains(all[k]));
            }
            assert(self.splits_at(model, member, all, count));
        }
    }

    proof fn lemma_class_origin(self, model: Model, member: Seq<char>, k: int)
        requires
            self.session.wf(),
            0 <= k < concat_map(
                self.session.st.visible_keys(model.full_classes@, self.bound()),
                content_part(self.session.st, member),
            ).len(),
        ensures
            self.is_class_member(
                model,
                member,
                concat_map(
                    self.session.st.visible_keys(model.full_classes@, self.bound()),
                    content_part(self.session.st, member),
                )[k],
            ),
    {
        let st = self.session.st;
        let seen = st.visible_keys(model.full_classes@, self.bound());
        let part = content_part(st, member);
        let key = concat_map(seen, part)[k];
        let (at, place) = lemma_part_origin(seen, part, k);
        let c = lemma_filter_origin(model.full_classes@, st.visibility(self.bound()), at);
        let class_key = model.full_classes@[c];
        modules_see_their_dependencies(st, class_key, self.bound());
        let content = st.content_of(class_key, member);
        let s = lemma_filter_origin(content, is_variable_or_function(st), place);
        assert(is_there(st, class_key) && data_at(st, class_key) is Class);
        let entries = data_at(st, class_key)->Class_0.content@;
        lemma_first_index(entries, has_name(member));
        let e = first_index(entries, has_name(member)) as int;
        assert(declares(st, class_key, e, member));
        assert(declared(st, class_key, e)[s] == key);
        assert(declared(st, class_key, e).contains(key));
    }

    /// When a single class in sight declares a name and no record does, what it declares is all that
    /// is found, each symbol once.
    pub proof fn sole_declaration_is_all_that_is_found(
        self,
        m: int,
        member: Seq<char>,
        c: int,
        e: int,
    )
        requires
            self.session.wf(),
            0 <= m < self.session.models@.len(),
            0 <= c < self.session.models@[m].full_classes@.len(),
            in_sight(
                self.session.st,
                self.session.models@[m].full_classes@[c],
                bound_of(self),
            ),
            declares(self.session.st, self.session.models@[m].full_classes@[c], e, member),
            forall|d: int, f: int|
                0 <= d < self.session.models@[m].full_classes@.len() && d != c && in_sight(
                    self.session.st,
                    self.session.models@[m].full_classes@[d],
                    bound_of(self),
                ) ==> !#[trigger] declares(
                    self.session.st,
                    self.session.models@[m].full_classes@[d],
                    f,
                    member,
                ),
            forall|r: int|
                0 <= r < self.session.models@[m].xml_fields@.len() ==> !is_field_record(
                    self.session.st,
                    #[trigger] self.session.models@[m].xml_fields@[r],
                    member,
                ),
        ensures
            self.members(self.session.models@[m].name@, member) == concrete(
                self.session.st,
                declared(self.session.st, self.session.models@[m].full_classes@[c], e),
            ),
    {
        let st = self.session.st;
        let model = self.session.models@[m];
        models_are_found_by_name(self.session, model.name@);
        let classes = model.full_classes@;
        let class_key = classes[c];
        let part = content_part(st, member);
        let accepts = st.visibility(self.bound());
        let (before, after) = (
            classes.take(c).filter(accepts),
            classes.skip(c + 1).filter(accepts),
        );
        assert(classes.filter(accepts) =~= before + (seq![class_key] + after)) by {
            let (head, tail) = (classes.take(c), classes.skip(c + 1));
            assert(classes =~= head + (seq![class_key] + tail));
            keys_are_seen_one_by_one(st, head, seq![class_key] + tail, class_key, self.bound());
            keys_are_seen_one_by_one(st, seq![class_key], tail, class_key, self.bound());
        }
        assert(concat_map(before, part) =~= Seq::empty()) by {
            assert forall|k: int| 0 <= k < before.len() implies part(
                #[trigger] before[k],
            ).len() == 0 by {
                let d = lemma_filter_origin(classes.take(c), accepts, k);
                assert(classes[d] == classes.take(c)[d]);
                self.lemma_silent_class(model, member, c, d);
            }
            lemma_concat_nothing(before, part);
        }
        assert(concat_map(after, part) =~= Seq::empty()) by {
            assert forall|k: int| 0 <= k < after.len() implies part(
                #[trigger] after[k],
            ).len() == 0 by {
                let d = lemma_filter_origin(classes.skip(c + 1), accepts, k);
                assert(classes[c + 1 + d] == classes.skip(c + 1)[d]);
                self.lemma_silent_class(model, member, c, c + 1 + d);
            }
            lemma_concat_nothing(after, part);
        }
        assert(concat_map(classes.filter(accepts), part) =~= part(class_key)) by {
            lemma_concat_map_add(before, seq![class_key] + after, part);
            lemma_concat_map_add(seq![class_key], after, part);
            assert(seq![class_key].drop_last() =~= Seq::<SymbolKey>::empty());
            assert(concat_map(seq![class_key].drop_last(), part) =~= Seq::empty());
            assert(concat_map(seq![class_key], part) =~= part(class_key));
        }
        assert(part(class_key) == concrete(st, declared(st, class_key, e))) by {
            self.lemma_class_part(class_key, e, member);
        }
        let records = st.visible_keys(model.xml_fields@, self.bound());
        assert(records.filter(declares_field(st, member)) =~= Seq::empty()) by {
            assert forall|k: int| 0 <= k < records.len() implies !declares_field(st, member)(
                #[trigger] records[k],
            ) by {
                let r = lemma_filter_origin(model.xml_fields@, accepts, k);
                assert(!is_field_record(st, model.xml_fields@[r], member));
            }
            lemma_filter_none(records, declares_field(st, member));
        }
        assert(self.members(model.name@, member) =~= part(class_key));
    }

    proof fn lemma_silent_class(self, model: Model, member: Seq<char>, c: int, d: int)
        requires
            self.session.wf(),
            0 <= d < model.full_classes@.len(),
            d != c,
            self.session.st.visibility(self.bound())(model.full_classes@[d]),
            forall|d: int, f: int|
                0 <= d < model.full_classes@.len() && d != c && in_sight(
                    self.session.st,
                    model.full_classes@[d],
                    bound_of(self),
                ) ==> !#[trigger] declares(self.session.st, model.full_classes@[d], f, member),
        ensures
            content_part(self.session.st, member)(model.full_classes@[d]).len() == 0,
    {
        let st = self.session.st;
        let class_key = model.full_classes@[d];
        modules_see_their_dependencies(st, class_key, self.bound());
        let content = st.content_of(class_key, member);
        if data_at(st, class_key) is Class {
            let entries = data_at(st, class_key)->Class_0.content@;
            assert forall|f: int| 0 <= f < entries.len() implies (#[trigger] entries[f]).name@
                != member by {
                assert(!declares(st, class_key, f, member));
            }
            classes_declare_their_entries(st, class_key, member);
        }
        assert(content =~= Seq::empty());
        lemma_filter_none(content, is_variable_or_function(st));
    }
}

/// Predicates that agree on elements keep the same of them.
pub proof fn lemma_same_filter<A>(items: Seq<A>, left: spec_fn(A) -> bool, right: spec_fn(A) -> bool)
    requires
        forall|k: int| 0 <= k < items.len() ==> left(#[trigger] items[k]) == right(items[k]),
    ensures
        items.filter(left) == items.filter(right),
    decreases items.len(),
{
    reveal(Seq::filter);
    if items.len() > 0 {
        let shorter = items.drop_last();
        assert forall|k: int| 0 <= k < shorter.len() implies left(#[trigger] shorter[k]) == right(
            shorter[k],
        ) by {
            assert(shorter[k] == items[k]);
        }
        lemma_same_filter(shorter, left, right);
        assert(left(items[items.len() - 1]) == right(items.last()));
    }
}

/// The comodel that an evaluation of a field is known to have.
pub open spec fn known_comodel(evaluation: Evaluation) -> Option<Seq<char>> {
    match evaluation.symbol {
        EvaluationSymbolPtr::Weak { comodel_name: Some(comodel), .. } => Some(comodel@),
        _ => None,
    }
}

/// Whether evaluation `i` is the first with a comodel, and which.
pub open spec fn first_names(evaluations: Seq<Evaluation>, i: int, comodel: Seq<char>) -> bool {
    &&& 0 <= i < evaluations.len()
    &&& known_comodel(evaluations[i]) == Some(comodel)
    &&& forall|j: int| 0 <= j < i ==> known_comodel(#[trigger] evaluations[j]) is None
}

/// Whether a record declares a relational field to a model.
pub open spec fn relates_to(record: XmlRecordSymbol, comodel: Seq<char>) -> bool {
    &&& record.ttype matches Some(ttype)
    &&& ttype@ == "many2one"@ || ttype@ == "many2many"@ || ttype@ == "one2many"@
    &&& record.relation matches Some(relation)
    &&& relation@ == comodel
}

/// Whether a symbol is a field that relates to a model: a variable that evaluates to one, or a record
/// of a relational type.
pub open spec fn leads_to(st: SymbolTable, key: SymbolKey, comodel: Seq<char>) -> bool {
    &&& is_there(st, key)
    &&& match data_at(st, key) {
        SymbolData::Variable(variable) => exists|i: int| #[trigger]
            first_names(variable.evaluations@, i, comodel),
        SymbolData::XmlRecord(record) => relates_to(record, comodel),
        _ => false,
    }
}

/// Whether a symbol relates to no model.
pub open spec fn leads_nowhere(st: SymbolTable, key: SymbolKey) -> bool {
    forall|comodel: Seq<char>| !#[trigger] leads_to(st, key, comodel)
}

proof fn lemma_evaluations(evaluations: Seq<Evaluation>)
    ensures
        match evaluations_comodel(evaluations) {
            Some(comodel) => exists|i: int| #[trigger] first_names(evaluations, i, comodel),
            None => forall|j: int|
                0 <= j < evaluations.len() ==> known_comodel(#[trigger] evaluations[j]) is None,
        },
    decreases evaluations.len(),
{
    if evaluations.len() > 0 {
        if known_comodel(evaluations[0]) is Some {
            assert(first_names(evaluations, 0, known_comodel(evaluations[0])->0));
        } else {
            let rest = evaluations.drop_first();
            lemma_evaluations(rest);
            if let Some(comodel) = evaluations_comodel(rest) {
                let i = choose|i: int| #[trigger] first_names(rest, i, comodel);
                assert forall|j: int| 0 <= j < i + 1 implies known_comodel(
                    #[trigger] evaluations[j],
                ) is None by {
                    if j > 0 {
                        assert(rest[j - 1] == evaluations[j]);
                    }
                }
                assert(first_names(evaluations, i + 1, comodel));
            } else {
                assert forall|j: int| 0 <= j < evaluations.len() implies known_comodel(
                    #[trigger] evaluations[j],
                ) is None by {
                    if j > 0 {
                        assert(rest[j - 1] == evaluations[j]);
                    }
                }
            }
        }
    }
}

proof fn lemma_comodel_of(st: SymbolTable, key: SymbolKey)
    ensures
        match st.comodel_of(key) {
            Some(comodel) => leads_to(st, key, comodel),
            None => leads_nowhere(st, key),
        },
{
    if is_there(st, key) {
        match data_at(st, key) {
            SymbolData::Variable(variable) => {
                lemma_evaluations(variable.evaluations@);
                assert(st.comodel_of(key) == evaluations_comodel(variable.evaluations@));
                if st.comodel_of(key) is None {
                    assert forall|comodel: Seq<char>| !#[trigger] leads_to(st, key, comodel) by {
                        if leads_to(st, key, comodel) {
                            let i = choose|i: int| #[trigger]
                                first_names(variable.evaluations@, i, comodel);
                            assert(known_comodel(variable.evaluations@[i]) is None);
                        }
                    }
                }
            },
            _ => {},
        }
    }
}

proof fn lemma_first_comodel(st: SymbolTable, keys: Seq<SymbolKey>)
    ensures
        match st.first_comodel(keys) {
            Some(comodel) => exists|k: int|
                0 <= k < keys.len() && leads_to(st, #[trigger] keys[k], comodel)
                    && leads_nowhere_before(st, keys, k),
            None => leads_nowhere_before(st, keys, keys.len() as int),
        },
    decreases keys.len(),
{
    if keys.len() > 0 {
        lemma_comodel_of(st, keys[0]);
        if st.comodel_of(keys[0]) is None {
            let rest = keys.drop_first();
            lemma_first_comodel(st, rest);
            assert forall|n: int| 0 <= n <= rest.len() && leads_nowhere_before(
                st,
                rest,
                n,
            ) implies #[trigger] leads_nowhere_before(st, keys, n + 1) by {
                assert forall|j: int| 0 <= j < n + 1 implies leads_nowhere(
                    st,
                    #[trigger] keys[j],
                ) by {
                    if j > 0 {
                        assert(rest[j - 1] == keys[j]);
                    }
                }
            }
            if let Some(comodel) = st.first_comodel(rest) {
                let k = choose|k: int|
                    0 <= k < rest.len() && leads_to(st, #[trigger] rest[k], comodel)
                        && leads_nowhere_before(st, rest, k);
                assert(keys[k + 1] == rest[k]);
                assert(leads_nowhere_before(st, keys, k + 1));
            } else {
                assert(leads_nowhere_before(st, keys, rest.len() as int + 1));
            }
        } else {
            assert(leads_nowhere_before(st, keys, 0));
        }
    }
}

/// Whether none of the first symbols relates to a model.
pub open spec fn leads_nowhere_before(st: SymbolTable, keys: Seq<SymbolKey>, count: int) -> bool {
    forall|j: int| 0 <= j < count ==> leads_nowhere(st, #[trigger] keys[j])
}

impl Resolver {
    /// The comodel of a field is the model that the first of the members of that name relates to
    /// which relates to one: the first evaluation of a variable that knows its comodel, or the
    /// relation of a record whose type is `many2one`, `many2many` or `one2many`. A field none of
    /// whose members relates to a model has none.
    pub proof fn comodel_is_that_of_the_first_relation(self, model: Seq<char>, field: Seq<char>)
        ensures
            match self.comodel(model, field) {
                Some(comodel) => exists|k: int|
                    0 <= k < self.members(model, field).len() && leads_to(
                        self.session.st,
                        #[trigger] self.members(model, field)[k],
                        comodel,
                    ) && leads_nowhere_before(self.session.st, self.members(model, field), k),
                None => leads_nowhere_before(
                    self.session.st,
                    self.members(model, field),
                    self.members(model, field).len() as int,
                ),
            },
    {
        lemma_first_comodel(self.session.st, self.members(model, field));
    }

    /// The symbols of a model are its classes in sight: joined classes are found as each of them is.
    /// A name that is no model has none.
    pub proof fn model_classes_are_those_in_sight(self, m: int)
        requires
            self.session.wf(),
            0 <= m < self.session.models@.len(),
        ensures
            self.model_classes(self.session.models@[m].name@) is Some,
            forall|key: SymbolKey|
                self.model_classes(self.session.models@[m].name@)->0.contains(key) <==> (
                #[trigger] self.session.models@[m].symbols@.contains(key)) && in_sight(
                    self.session.st,
                    key,
                    bound_of(self),
                ),
            (forall|c: int|
                0 <= c < self.session.models@[m].symbols@.len() ==> in_sight(
                    self.session.st,
                    #[trigger] self.session.models@[m].symbols@[c],
                    bound_of(self),
                )) ==> self.model_classes(self.session.models@[m].name@)->0
                == self.session.models@[m].symbols@,
    {
        let st = self.session.st;
        let model = self.session.models@[m];
        models_are_found_by_name(self.session, model.name@);
        lemma_seen_iff(st, model.symbols@, bound_of(self));
        assert forall|key: SymbolKey|
            self.model_classes(model.name@)->0.contains(key) <==> (
            #[trigger] model.symbols@.contains(key)) && in_sight(st, key, bound_of(self)) by {}
        if forall|c: int|
            0 <= c < model.symbols@.len() ==> in_sight(
                st,
                #[trigger] model.symbols@[c],
                bound_of(self),
            ) {
            assert forall|c: int| 0 <= c < model.symbols@.len() implies st.visibility(
                bound_of(self),
            )(#[trigger] model.symbols@[c]) by {
                modules_see_their_dependencies(st, model.symbols@[c], bound_of(self));
            }
            lemma_filter_all(model.symbols@, st.visibility(bound_of(self)));
        }
    }

    /// A name that no model has refers to none.
    pub proof fn unknown_model_has_no_classes(self, name: Seq<char>)
        requires
            self.session.wf(),
            forall|m: int|
                0 <= m < self.session.models@.len() ==> (#[trigger] self.session.models@[m]).name@
                    != name,
        ensures
            self.model_classes(name) is None,
    {
        models_are_found_by_name(self.session, name);
    }
}

/// Keys are seen when they are in sight.
pub proof fn lemma_seen_iff(st: SymbolTable, keys: Seq<SymbolKey>, from: Option<ModuleKey>)
    ensures
        forall|key: SymbolKey| #[trigger]
            st.visible_keys(keys, from).contains(key) <==> keys.contains(key) && in_sight(
                st,
                key,
                from,
            ),
{
    let accepts = st.visibility(from);
    let seen = st.visible_keys(keys, from);
    assert forall|key: SymbolKey| #[trigger] seen.contains(key) <==> keys.contains(key) && in_sight(
        st,
        key,
        from,
    ) by {
        modules_see_their_dependencies(st, key, from);
        if seen.contains(key) {
            let k = seen.index_of(key);
            let at = lemma_filter_origin(keys, accepts, k);
            assert(keys[at] == key);
        }
        if keys.contains(key) && in_sight(st, key, from) {
            let at = keys.index_of(key);
            lemma_filter_place(keys, accepts, at);
            assert(seen[keys.take(at).filter(accepts).len() as int] == key);
        }
    }
}

/// An xml id without a dot names what the module of the document declares under it.
pub proof fn local_ids_are_of_the_module(session: SessionInfo, file_module: ModuleKey, x: int)
    requires
        session.wf(),
        0 <= x < session.xml_ids@.len(),
        session.xml_ids@[x].module == file_module,
        !session.xml_ids@[x].local_id@.contains('.'),
    ensures
        session.xml_ids_of(file_module, session.xml_ids@[x].local_id@) == session.xml_ids@[x].ids@,
{
    let entry = session.xml_ids@[x];
    entry.local_id@.index_of_first_ensures('.');
    lemma_entry(session, x);
}

proof fn lemma_entry(session: SessionInfo, x: int)
    requires
        session.wf(),
        0 <= x < session.xml_ids@.len(),
    ensures
        session.xml_ids_at(session.xml_ids@[x].module, session.xml_ids@[x].local_id@)
            == session.xml_ids@[x].ids@,
{
    let entry = session.xml_ids@[x];
    let accepts = is_xml_id(entry.module, entry.local_id@);
    assert forall|j: int| 0 <= j < x implies !accepts(#[trigger] session.xml_ids@[j]) by {
        assert(session.xml_ids@[j].module != session.xml_ids@[x].module
            || session.xml_ids@[j].local_id@ != session.xml_ids@[x].local_id@);
    }
    lemma_is_first_index(session.xml_ids@, accepts, x);
}

/// An xml id with a dot names what the module before the dot declares under what stands behind it,
/// from wherever it is named; one with more dots names nothing.
pub proof fn qualified_ids_are_of_their_module(
    session: SessionInfo,
    file_module: ModuleKey,
    xml_id: Seq<char>,
    dot: int,
)
    requires
        session.wf(),
        0 <= dot < xml_id.len(),
        xml_id[dot] == '.',
    ensures
        (exists|i: int| 0 <= i < xml_id.len() && i != dot && #[trigger] xml_id[i] == '.')
            ==> session.xml_ids_of(file_module, xml_id).len() == 0,
        (forall|i: int| 0 <= i < xml_id.len() && i != dot ==> #[trigger] xml_id[i] != '.') ==> {
            &&& forall|x: int|
                0 <= x < session.xml_ids@.len() && {
                    let entry = #[trigger] session.xml_ids@[x];
                    &&& entry.module.index < session.st.modules@.len()
                    &&& session.st.modules@[entry.module.index as int].name@ == xml_id.take(dot)
                    &&& entry.local_id@ == xml_id.skip(dot + 1)
                } ==> session.xml_ids_of(file_module, xml_id) == session.xml_ids@[x].ids@
            &&& (forall|x: int|
                0 <= x < session.xml_ids@.len() ==> {
                    let entry = #[trigger] session.xml_ids@[x];
                    ||| entry.module.index >= session.st.modules@.len()
                    ||| session.st.modules@[entry.module.index as int].name@ != xml_id.take(dot)
                    ||| entry.local_id@ != xml_id.skip(dot + 1)
                }) ==> session.xml_ids_of(file_module, xml_id).len() == 0
        },
{
    xml_id.index_of_first_ensures('.');
    let first = xml_id.index_of_first('.')->0;
    assert(xml_id.contains('.'));
    let rest = xml_id.skip(first + 1);
    if exists|i: int| 0 <= i < xml_id.len() && i != dot && #[trigger] xml_id[i] == '.' {
        let i = choose|i: int| 0 <= i < xml_id.len() && i != dot && #[trigger] xml_id[i] == '.';
        let later = if i > dot {
            i
        } else {
            dot
        };
        assert(first < later);
        assert(rest[later - first - 1] == '.');
        assert(rest.contains('.'));
    } else {
        assert(first == dot);
        assert(!rest.contains('.')) by {
            if rest.contains('.') {
                let k = rest.index_of('.');
                assert(xml_id[first + 1 + k] == '.');
            }
        }
        let (name, local_id) = (xml_id.take(dot), xml_id.skip(dot + 1));
        let modules = session.st.modules@;
        let named = is_module(name);
        lemma_first_index(modules, named);
        assert forall|x: int|
            0 <= x < session.xml_ids@.len() && {
                let entry = #[trigger] session.xml_ids@[x];
                &&& entry.module.index < modules.len()
                &&& modules[entry.module.index as int].name@ == name
                &&& entry.local_id@ == local_id
            } implies session.xml_ids_of(file_module, xml_id) == session.xml_ids@[x].ids@ by {
            let at = session.xml_ids@[x].module.index as int;
            assert forall|j: int| 0 <= j < at implies !named(#[trigger] modules[j]) by {
                assert(modules[j].name@ != modules[at].name@);
            }
            lemma_is_first_index(modules, named, at);
            lemma_entry(session, x);
        }
        if forall|x: int|
            0 <= x < session.xml_ids@.len() ==> {
                let entry = #[trigger] session.xml_ids@[x];
                ||| entry.module.index >= modules.len()
                ||| modules[entry.module.index as int].name@ != name
                ||| entry.local_id@ != local_id
            } {
            if let Some(module) = session.module_named(name) {
                assert(session.st.modules.len() == modules.len());
                assert(named(modules[module.index as int]));
                let accepts = is_xml_id(module, local_id);
                lemma_first_index(session.xml_ids@, accepts);
                let x = first_index(session.xml_ids@, accepts) as int;
                if x < session.xml_ids@.len() {
                    assert(accepts(session.xml_ids@[x]));
                }
            }
        }
    }
}

/// Whether a declaration of an xml id leads to a symbol that a document may use: that of a record, a
/// python class, a menu or a template, in sight when only dependencies are wanted.
pub open spec fn leads_to_symbol(
    st: SymbolTable,
    id: XmlId,
    file_module: ModuleKey,
    on_dep_only: bool,
) -> bool {
    &&& id.kind == XmlIdKind::XmlRecord || id.kind == XmlIdKind::PythonClass || id.kind
        == XmlIdKind::MenuItem || id.kind == XmlIdKind::Template
    &&& if on_dep_only {
        in_sight(st, id.key, Some(file_module))
    } else {
        is_there(st, id.key)
    }
}

/// Whether some declaration leads to a symbol that a document may use.
pub open spec fn declared_by_some(
    st: SymbolTable,
    ids: Seq<XmlId>,
    key: SymbolKey,
    file_module: ModuleKey,
    on_dep_only: bool,
) -> bool {
    exists|i: int|
        0 <= i < ids.len() && leads_to_symbol(
            st,
            #[trigger] ids[i],
            file_module,
            on_dep_only,
        ) && ids[i].key == key
}

/// An xml id resolves to the symbols of those of its declarations that lead to one that the document
/// may use, each and no other, in the order of the declarations.
pub proof fn xml_ids_resolve_to_their_declarations(
    session: SessionInfo,
    file_module: ModuleKey,
    xml_id: Seq<char>,
    on_dep_only: bool,
)
    ensures
        xml_id_targets(session, file_module, xml_id, on_dep_only).len() <= session.xml_ids_of(
            file_module,
            xml_id,
        ).len(),
        ({
            let ids = session.xml_ids_of(file_module, xml_id);
            let targets = xml_id_targets(session, file_module, xml_id, on_dep_only);
            forall|i: int|
                0 <= i < ids.len() && leads_to_symbol(
                    session.st,
                    #[trigger] ids[i],
                    file_module,
                    on_dep_only,
                ) ==> targets.contains(ids[i].key)
        }),
        ({
            let ids = session.xml_ids_of(file_module, xml_id);
            let targets = xml_id_targets(session, file_module, xml_id, on_dep_only);
            forall|k: int|
                0 <= k < targets.len() ==> declared_by_some(
                    session.st,
                    ids,
                    #[trigger] targets[k],
                    file_module,
                    on_dep_only,
                )
        }),
        ({
            let ids = session.xml_ids_of(file_module, xml_id);
            let targets = xml_id_targets(session, file_module, xml_id, on_dep_only);
            (forall|i: int|
                0 <= i < ids.len() ==> leads_to_symbol(
                    session.st,
                    #[trigger] ids[i],
                    file_module,
                    on_dep_only,
                )) ==> targets.len() == ids.len() && forall|i: int|
                0 <= i < ids.len() ==> #[trigger] targets[i] == ids[i].key
        }),
{
    let ids = session.xml_ids_of(file_module, xml_id);
    let targets = xml_id_targets(session, file_module, xml_id, on_dep_only);
    let st = session.st;
    let from = if on_dep_only {
        Some(file_module)
    } else {
        None
    };
    let accepts = is_seen(st, from);
    assert forall|id: XmlId| #[trigger]
        accepts(id) == leads_to_symbol(st, id, file_module, on_dep_only) by {
        modules_see_their_dependencies(st, id.key, from);
    }
    let kept = ids.filter(accepts);
    ids.lemma_filter_len(accepts);
    assert forall|i: int|
        0 <= i < ids.len() && leads_to_symbol(
            st,
            #[trigger] ids[i],
            file_module,
            on_dep_only,
        ) implies targets.contains(ids[i].key) by {
        assert(accepts(ids[i]));
        lemma_filter_place(ids, accepts, i);
        assert(targets[ids.take(i).filter(accepts).len() as int] == ids[i].key);
    }
    assert forall|k: int| 0 <= k < targets.len() implies declared_by_some(
        st,
        ids,
        #[trigger] targets[k],
        file_module,
        on_dep_only,
    ) by {
        let i = lemma_filter_origin(ids, accepts, k);
        assert(accepts(ids[i]));
        assert(targets[k] == kept[k].key);
        assert(leads_to_symbol(st, ids[i], file_module, on_dep_only) && ids[i].key == targets[k]);
    }
    if forall|i: int|
        0 <= i < ids.len() ==> leads_to_symbol(
            st,
            #[trigger] ids[i],
            file_module,
            on_dep_only,
        ) {
        assert forall|i: int| 0 <= i < ids.len() implies accepts(#[trigger] ids[i]) by {
            assert(leads_to_symbol(st, ids[i], file_module, on_dep_only));
        }
        lemma_filter_all(ids, accepts);
        assert forall|i: int| 0 <= i < ids.len() implies #[trigger] targets[i] == ids[i].key by {
            assert(kept[i] == ids[i]);
        }
    }
}

/// Whether key `c` is the first that is in sight.
pub open spec fn is_first_in_sight(
    st: SymbolTable,
    keys: Seq<SymbolKey>,
    from: Option<ModuleKey>,
    c: int,
) -> bool {
    &&& 0 <= c < keys.len()
    &&& in_sight(st, keys[c], from)
    &&& forall|j: int| 0 <= j < c ==> !in_sight(st, #[trigger] keys[j], from)
}

/// The first key in sight is the first that is seen.
pub proof fn lemma_first_seen(
    st: SymbolTable,
    keys: Seq<SymbolKey>,
    from: Option<ModuleKey>,
    c: int,
)
    requires
        is_first_in_sight(st, keys, from, c),
    ensures
        st.visible_keys(keys, from).len() > 0,
        st.visible_keys(keys, from)[0] == keys[c],
{
    let accepts = st.visibility(from);
    modules_see_their_dependencies(st, keys[c], from);
    lemma_filter_place(keys, accepts, c);
    assert forall|j: int| 0 <= j < keys.take(c).len() implies !accepts(
        #[trigger] keys.take(c)[j],
    ) by {
        assert(keys.take(c)[j] == keys[j]);
        modules_see_their_dependencies(st, keys[j], from);
    }
    lemma_filter_none(keys.take(c), accepts);
}

/// When anything is seen, some key is the first in sight.
pub proof fn lemma_some_is_first(
    st: SymbolTable,
    keys: Seq<SymbolKey>,
    from: Option<ModuleKey>,
) -> (c: int)
    requires
        st.visible_keys(keys, from).len() > 0,
    ensures
        is_first_in_sight(st, keys, from, c),
        st.visible_keys(keys, from)[0] == keys[c],
{
    let accepts = st.visibility(from);
    lemma_first_index(keys, accepts);
    let c = first_index(keys, accepts) as int;
    if c >= keys.len() {
        assert forall|j: int| 0 <= j < keys.len() implies !accepts(#[trigger] keys[j]) by {}
        lemma_filter_none(keys, accepts);
    }
    assert forall|j: int| 0 <= j < c implies !in_sight(st, #[trigger] keys[j], from) by {
        assert(!accepts(keys[j]));
        modules_see_their_dependencies(st, keys[j], from);
    }
    modules_see_their_dependencies(st, keys[c], from);
    lemma_first_seen(st, keys, from, c);
    c
}

impl Resolver {
    /// When no class in sight declares a name, the records in sight that declare the field are all that
    /// is found, in the order of the records.
    pub proof fn records_alone_are_all_that_is_found(self, m: int, member: Seq<char>)
        requires
            self.session.wf(),
            0 <= m < self.session.models@.len(),
            forall|d: int, f: int|
                0 <= d < self.session.models@[m].full_classes@.len() && in_sight(
                    self.session.st,
                    self.session.models@[m].full_classes@[d],
                    bound_of(self),
                ) ==> !#[trigger] declares(
                    self.session.st,
                    self.session.models@[m].full_classes@[d],
                    f,
                    member,
                ),
        ensures
            self.members(self.session.models@[m].name@, member)
                == self.session.models@[m].xml_fields@.filter(
                |key: SymbolKey|
                    in_sight(self.session.st, key, bound_of(self)) && is_field_record(
                        self.session.st,
                        key,
                        member,
                    ),
            ),
    {
        let st = self.session.st;
        let model = self.session.models@[m];
        let accepts = st.visibility(self.bound());
        let part = content_part(st, member);
        models_are_found_by_name(self.session, model.name@);
        let seen = st.visible_keys(model.full_classes@, self.bound());
        assert(concat_map(seen, part) =~= Seq::empty()) by {
            assert forall|k: int| 0 <= k < seen.len() implies part(#[trigger] seen[k]).len()
                == 0 by {
                let d = lemma_filter_origin(model.full_classes@, accepts, k);
                self.lemma_silent_class(model, member, -1, d);
            }
            lemma_concat_nothing(seen, part);
        }
        lemma_records_filter(st, model.xml_fields@, self.bound(), member);
        assert(self.members(model.name@, member) =~= st.visible_keys(
            model.xml_fields@,
            self.bound(),
        ).filter(declares_field(st, member)));
    }

    /// What records declare comes in the order of the records.
    pub proof fn records_are_searched_in_order(self, m: int, member: Seq<char>, r: int, t: int)
        requires
            self.session.wf(),
            0 <= m < self.session.models@.len(),
            0 <= r < t < self.session.models@[m].xml_fields@.len(),
            in_sight(self.session.st, self.session.models@[m].xml_fields@[r], bound_of(self)),
            is_field_record(self.session.st, self.session.models@[m].xml_fields@[r], member),
            in_sight(self.session.st, self.session.models@[m].xml_fields@[t], bound_of(self)),
            is_field_record(self.session.st, self.session.models@[m].xml_fields@[t], member),
        ensures
            exists|i: int, j: int|
                0 <= i < j < self.members(self.session.models@[m].name@, member).len()
                    && #[trigger] self.members(self.session.models@[m].name@, member)[i]
                    == self.session.models@[m].xml_fields@[r] && #[trigger] self.members(
                    self.session.models@[m].name@,
                    member,
                )[j] == self.session.models@[m].xml_fields@[t],
    {
        let st = self.session.st;
        let model = self.session.models@[m];
        let fields = model.xml_fields@;
        models_are_found_by_name(self.session, model.name@);
        let kept = |key: SymbolKey|
            in_sight(st, key, bound_of(self)) && is_field_record(st, key, member);
        lemma_records_filter(st, fields, self.bound(), member);
        lemma_filter_place(fields, kept, r);
        lemma_filter_place(fields, kept, t);
        lemma_filter_order(fields, kept, r, t);
        let from_classes = concat_map(
            st.visible_keys(model.full_classes@, self.bound()),
            content_part(st, member),
        );
        let all = self.members(model.name@, member);
        let i = from_classes.len() + fields.take(r).filter(kept).len();
        let j = from_classes.len() + fields.take(t).filter(kept).len();
        assert(all[i as int] == fields[r] && all[j as int] == fields[t]);
    }
}

proof fn lemma_records_filter(
    st: SymbolTable,
    keys: Seq<SymbolKey>,
    from: Option<ModuleKey>,
    member: Seq<char>,
)
    ensures
        st.visible_keys(keys, from).filter(declares_field(st, member)) == keys.filter(
            |key: SymbolKey| in_sight(st, key, from) && is_field_record(st, key, member),
        ),
    decreases keys.len(),
{
    reveal(Seq::filter);
    if keys.len() > 0 {
        let key = keys.last();
        lemma_records_filter(st, keys.drop_last(), from, member);
        modules_see_their_dependencies(st, key, from);
        let rest = st.visible_keys(keys.drop_last(), from);
        assert(rest.push(key).drop_last() =~= rest);
        assert(declares_field(st, member)(key) == is_field_record(st, key, member)
            || !in_sight(st, key, from));
    }
}

} // verus!
