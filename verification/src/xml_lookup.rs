//! What the names in an XML document resolve to: members of models, models, xml ids.
use vstd::prelude::*;

use crate::seqs::{
    concat_map, lemma_concat_map_step, lemma_filter_accepted, lemma_filter_step,
};
use crate::symbols::{
    append_keys, Evaluation, EvaluationSymbolPtr, ModuleKey, SessionInfo, SymbolData, SymbolKey,
    SymbolTable, XmlId, XmlIdKind, XmlRecordSymbol,
};
use crate::text::str_eq;
use crate::xml_ast_utils::XmlAstUtils;

verus! {

/// Text of an optional string.
pub open spec fn opt_view(text: Option<String>) -> Option<Seq<char>> {
    match text {
        Some(text) => Some(text@),
        None => None,
    }
}

/// Predicate of the variables and functions among symbols.
pub open spec fn is_variable_or_function(st: SymbolTable) -> spec_fn(SymbolKey) -> bool {
    |key: SymbolKey|
        st.symbol_at(key) matches Some(symbol) && (symbol.data is Variable
            || symbol.data is Function)
}

/// The variables and functions that the body of each class declares under `name`.
pub open spec fn content_part(st: SymbolTable, name: Seq<char>) -> spec_fn(SymbolKey) -> Seq<
    SymbolKey,
> {
    |class_key: SymbolKey| st.content_of(class_key, name).filter(is_variable_or_function(st))
}

/// Whether symbols are such as a member of a model is: variables and functions of a class, or
/// records that declare a field.
pub open spec fn are_members(st: SymbolTable, keys: Seq<SymbolKey>) -> bool {
    forall|k: int|
        0 <= k < keys.len() ==> (st.symbol_at(#[trigger] keys[k]) matches Some(symbol) && (
        symbol.data is Variable || symbol.data is Function || symbol.data is XmlRecord))
}

/// Predicate of the `ir.model.fields` records that declare the field `name`.
pub open spec fn declares_field(st: SymbolTable, name: Seq<char>) -> spec_fn(SymbolKey) -> bool {
    |key: SymbolKey|
        match st.symbol_at(key) {
            Some(symbol) => match symbol.data {
                SymbolData::XmlRecord(record) => opt_view(record.name) == Some(name),
                _ => false,
            },
            None => false,
        }
}

/// Comodel that the evaluations of a field name, the first that names one winning.
pub open spec fn evaluations_comodel(evaluations: Seq<Evaluation>) -> Option<Seq<char>>
    decreases evaluations.len(),
{
    if evaluations.len() == 0 {
        None
    } else {
        match evaluations[0].symbol {
            EvaluationSymbolPtr::Weak { comodel_name: Some(comodel), .. } => Some(comodel@),
            _ => evaluations_comodel(evaluations.drop_first()),
        }
    }
}

/// Whether a field type relates to another model.
pub open spec fn is_relational(ttype: Seq<char>) -> bool {
    ttype == "many2one"@ || ttype == "many2many"@ || ttype == "one2many"@
}

/// Comodel of a field that an `ir.model.fields` record declares.
pub open spec fn record_comodel(record: XmlRecordSymbol) -> Option<Seq<char>> {
    match opt_view(record.ttype) {
        Some(ttype) => if is_relational(ttype) {
            opt_view(record.relation)
        } else {
            None
        },
        None => None,
    }
}

impl SymbolTable {
    /// Comodel of the field that a symbol is.
    pub open spec fn comodel_of(self, key: SymbolKey) -> Option<Seq<char>> {
        match self.symbol_at(key) {
            Some(symbol) => match symbol.data {
                SymbolData::Variable(variable) => evaluations_comodel(variable.evaluations@),
                SymbolData::XmlRecord(record) => record_comodel(record),
                _ => None,
            },
            None => None,
        }
    }

    /// Comodel of the first of the symbols that has one.
    pub open spec fn first_comodel(self, keys: Seq<SymbolKey>) -> Option<Seq<char>>
        decreases keys.len(),
    {
        if keys.len() == 0 {
            None
        } else {
            match self.comodel_of(keys[0]) {
                Some(comodel) => Some(comodel),
                None => self.first_comodel(keys.drop_first()),
            }
        }
    }
}

/// A code base as a document of one module sees it: all of it, or with `on_dep_only` what the
/// module depends on.
pub ghost struct Resolver {
    pub session: SessionInfo,
    pub from_module: Option<ModuleKey>,
    pub on_dep_only: bool,
}

impl Resolver {
    /// The module whose dependencies bound what is seen.
    pub open spec fn bound(self) -> Option<ModuleKey> {
        if self.on_dep_only {
            self.from_module
        } else {
            None
        }
    }

    /// The members named `member` of a model: the variables and functions that its classes declare,
    /// then the `ir.model.fields` records.
    pub open spec fn members(self, model: Seq<char>, member: Seq<char>) -> Seq<SymbolKey> {
        let st = self.session.st;
        match self.session.model_named(model) {
            Some(model) => concat_map(
                st.visible_keys(model.full_classes@, self.bound()),
                content_part(st, member),
            ) + st.visible_keys(model.xml_fields@, self.bound()).filter(
                declares_field(st, member),
            ),
            None => Seq::empty(),
        }
    }

    /// The comodel of a field of a model.
    pub open spec fn comodel(self, model: Seq<char>, field: Seq<char>) -> Option<Seq<char>> {
        self.session.st.first_comodel(self.members(model, field))
    }

    /// The classes of a model, when there is a model of that name.
    pub open spec fn model_classes(self, model: Seq<char>) -> Option<Seq<SymbolKey>> {
        match self.session.model_named(model) {
            Some(model) => Some(self.session.st.visible_keys(model.symbols@, self.bound())),
            None => None,
        }
    }

}

/// The symbols that an xml id names in a document of `file_module`, with `on_dep_only` those that
/// the module depends on.
pub open spec fn xml_id_targets(
    session: SessionInfo,
    file_module: ModuleKey,
    xml_id: Seq<char>,
    on_dep_only: bool,
) -> Seq<SymbolKey> {
    let from = if on_dep_only {
        Some(file_module)
    } else {
        None
    };
    id_keys(session.xml_ids_of(file_module, xml_id).filter(is_seen(session.st, from)))
}

/// Predicate of the declarations of xml ids that lead to a symbol in sight.
pub open spec fn is_seen(st: SymbolTable, from: Option<ModuleKey>) -> spec_fn(XmlId) -> bool {
    |id: XmlId| id.kind != XmlIdKind::Other && st.visible(id.key, from)
}

/// The symbols of declarations.
pub open spec fn id_keys(ids: Seq<XmlId>) -> Seq<SymbolKey> {
    ids.map_values(|id: XmlId| id.key)
}

/// What the bodies of classes contribute are members.
proof fn lemma_content_members(st: SymbolTable, classes: Seq<SymbolKey>, name: Seq<char>)
    ensures
        are_members(st, concat_map(classes, content_part(st, name))),
    decreases classes.len(),
{
    if classes.len() > 0 {
        let part = content_part(st, name);
        let accepts = is_variable_or_function(st);
        let content = st.content_of(classes.last(), name);
        let (rest, last) = (concat_map(classes.drop_last(), part), part(classes.last()));
        lemma_content_members(st, classes.drop_last(), name);
        lemma_filter_accepted(content, accepts);
        assert forall|k: int| 0 <= k < (rest + last).len() implies (st.symbol_at(
            #[trigger] (rest + last)[k],
        ) matches Some(symbol) && (symbol.data is Variable || symbol.data is Function
            || symbol.data is XmlRecord)) by {
            if k < rest.len() {
                assert((rest + last)[k] == rest[k]);
            } else {
                assert((rest + last)[k] == last[k - rest.len()]);
                assert(accepts(content.filter(accepts)[k - rest.len()]));
            }
        }
    }
}

impl Resolver {
    /// Every member of a model is a variable or a function of one of its classes, or a record that
    /// declares a field.
    pub proof fn members_are_concrete(self, model: Seq<char>, member: Seq<char>)
        ensures
            are_members(self.session.st, self.members(model, member)),
    {
        let st = self.session.st;
        if let Some(found) = self.session.model_named(model) {
            let records = st.visible_keys(found.xml_fields@, self.bound());
            let accepts = declares_field(st, member);
            let left = concat_map(
                st.visible_keys(found.full_classes@, self.bound()),
                content_part(st, member),
            );
            let right = records.filter(accepts);
            lemma_content_members(
                st,
                st.visible_keys(found.full_classes@, self.bound()),
                member,
            );
            lemma_filter_accepted(records, accepts);
            assert forall|k: int| 0 <= k < (left + right).len() implies (st.symbol_at(
                #[trigger] (left + right)[k],
            ) matches Some(symbol) && (symbol.data is Variable || symbol.data is Function
                || symbol.data is XmlRecord)) by {
                if k < left.len() {
                    assert((left + right)[k] == left[k]);
                } else {
                    assert((left + right)[k] == right[k - left.len()]);
                    assert(accepts(records.filter(accepts)[k - left.len()]));
                }
            }
        }
    }
}

impl XmlAstUtils {
    /// The members named `member_name` of every class registered for `model_name`, honoring
    /// `_inherit` chains: the concrete variables and functions, and the `ir.model.fields` records
    /// that declare such a field.
    pub fn resolve_member_on_model(
        session: &SessionInfo,
        model_name: &str,
        member_name: &str,
        from_module: Option<ModuleKey>,
        on_dep_only: bool,
    ) -> (res: Vec<SymbolKey>)
        ensures
            res@ == (Resolver { session: *session, from_module, on_dep_only }).members(
                model_name@,
                member_name@,
            ),
            forall|k: int|
                0 <= k < res@.len() ==> (session.st.symbol_at(#[trigger] res@[k]) matches Some(s)
                    && (s.data is Variable || s.data is Function || s.data is XmlRecord)),
    {
        proof {
            (Resolver { session: *session, from_module, on_dep_only }).members_are_concrete(
                model_name@,
                member_name@,
            );
        }
        let mut out: Vec<SymbolKey> = Vec::new();
        let model = match session.find_model(model_name) {
            Some(model) => model,
            None => {
                return out;
            },
        };
        let bound = if on_dep_only {
            from_module
        } else {
            None
        };
        let classes = model.get_full_model_classes(&session.st, bound);
        let ghost part = content_part(session.st, member_name@);
        let mut i: usize = 0;
        while i < classes.len()
            invariant
                i <= classes.len(),
                part == content_part(session.st, member_name@),
                out@ == concat_map(classes@.take(i as int), part),
            decreases classes.len() - i,
        {
            proof {
                lemma_concat_map_step(classes@, part, i as int);
            }
            let content = session.st.get_content_symbol(classes[i], member_name);
            let concrete = XmlAstUtils::keep_variables_and_functions(&session.st, &content);
            append_keys(&mut out, &concrete);
            i = i + 1;
        }
        assert(classes@.take(classes@.len() as int) =~= classes@);
        let fields = model.get_xml_model_field_symbols(&session.st, bound);
        let ghost accepts = declares_field(session.st, member_name@);
        let ghost from_classes = out@;
        assert(fields@.take(0).filter(accepts) =~= Seq::empty()) by {
            reveal(Seq::filter);
        }
        assert(out@ =~= from_classes + fields@.take(0).filter(accepts));
        let mut j: usize = 0;
        while j < fields.len()
            invariant
                j <= fields.len(),
                accepts == declares_field(session.st, member_name@),
                out@ == from_classes + fields@.take(j as int).filter(accepts),
            decreases fields.len() - j,
        {
            proof {
                lemma_filter_step(fields@, accepts, j as int);
            }
            if let Some(symbol) = session.st.get(fields[j]) {
                if let SymbolData::XmlRecord(record) = &symbol.data {
                    if let Some(name) = &record.name {
                        if str_eq(name.as_str(), member_name) {
                            out.push(fields[j]);
                        }
                    }
                }
            }
            assert(out@ =~= from_classes + fields@.take(j + 1).filter(accepts));
            j = j + 1;
        }
        assert(fields@.take(fields@.len() as int) =~= fields@);
        out
    }

    /// The variables and functions among symbols, in order.
    fn keep_variables_and_functions(st: &SymbolTable, keys: &Vec<SymbolKey>) -> (res: Vec<
        SymbolKey,
    >)
        ensures
            res@ == keys@.filter(is_variable_or_function(*st)),
    {
        let mut res: Vec<SymbolKey> = Vec::new();
        let ghost accepts = is_variable_or_function(*st);
        assert(keys@.take(0).filter(accepts) =~= Seq::empty()) by {
            reveal(Seq::filter);
        }
        let mut i: usize = 0;
        while i < keys.len()
            invariant
                i <= keys.len(),
                accepts == is_variable_or_function(*st),
                res@ == keys@.take(i as int).filter(accepts),
            decreases keys.len() - i,
        {
            proof {
                lemma_filter_step(keys@, accepts, i as int);
            }
            if let Some(symbol) = st.get(keys[i]) {
                match &symbol.data {
                    SymbolData::Variable(_) | SymbolData::Function(_) => {
                        res.push(keys[i]);
                    },
                    _ => {},
                }
            }
            i = i + 1;
        }
        assert(keys@.take(keys@.len() as int) =~= keys@);
        res
    }

    /// Comodel of `field_name` on `model_name`, read from the field without following references.
    pub fn comodel_name(
        session: &SessionInfo,
        model_name: &str,
        field_name: &str,
        from_module: Option<ModuleKey>,
        on_dep_only: bool,
    ) -> (res: Option<String>)
        ensures
            opt_view(res) == (Resolver { session: *session, from_module, on_dep_only }).comodel(
                model_name@,
                field_name@,
            ),
    {
        let fields = XmlAstUtils::resolve_member_on_model(
            session,
            model_name,
            field_name,
            from_module,
            on_dep_only,
        );
        let mut i: usize = 0;
        assert(fields@.skip(0) =~= fields@);
        while i < fields.len()
            invariant
                i <= fields.len(),
                session.st.first_comodel(fields@) == session.st.first_comodel(
                    fields@.skip(i as int),
                ),
                fields@ == (Resolver { session: *session, from_module, on_dep_only }).members(
                    model_name@,
                    field_name@,
                ),
            decreases fields.len() - i,
        {
            assert(fields@.skip(i as int).drop_first() =~= fields@.skip(i + 1));
            let comodel = XmlAstUtils::symbol_comodel(&session.st, fields[i]);
            if comodel.is_some() {
                return comodel;
            }
            i = i + 1;
        }
        None
    }

    /// Comodel of the field that a symbol is.
    fn symbol_comodel(st: &SymbolTable, key: SymbolKey) -> (res: Option<String>)
        ensures
            opt_view(res) == st.comodel_of(key),
    {
        let symbol = match st.get(key) {
            Some(symbol) => symbol,
            None => {
                return None;
            },
        };
        match &symbol.data {
            SymbolData::Variable(variable) => {
                let evaluations = &variable.evaluations;
                let mut i: usize = 0;
                assert(evaluations@.skip(0) =~= evaluations@);
                while i < evaluations.len()
                    invariant
                        i <= evaluations.len(),
                        evaluations_comodel(evaluations@) == evaluations_comodel(
                            evaluations@.skip(i as int),
                        ),
                        st.comodel_of(key) == evaluations_comodel(evaluations@),
                    decreases evaluations.len() - i,
                {
                    assert(evaluations@.skip(i as int).drop_first() =~= evaluations@.skip(i + 1));
                    if let EvaluationSymbolPtr::Weak { comodel_name, .. } = &evaluations[i].symbol {
                        if let Some(comodel) = comodel_name {
                            return Some(comodel.as_str().to_string());
                        }
                    }
                    i = i + 1;
                }
                None
            },
            SymbolData::XmlRecord(record) => {
                let relational = match &record.ttype {
                    Some(ttype) => str_eq(ttype.as_str(), "many2one") || str_eq(
                        ttype.as_str(),
                        "many2many",
                    ) || str_eq(ttype.as_str(), "one2many"),
                    None => false,
                };
                if !relational {
                    return None;
                }
                match &record.relation {
                    Some(relation) => Some(relation.as_str().to_string()),
                    None => None,
                }
            },
            _ => None,
        }
    }

    /// The classes of a model, `None` when there is no model of that name.
    pub fn model_symbols(
        session: &SessionInfo,
        model_name: &str,
        from_module: Option<ModuleKey>,
        on_dep_only: bool,
    ) -> (res: Option<Vec<SymbolKey>>)
        ensures
            match res {
                Some(symbols) => (Resolver {
                    session: *session,
                    from_module,
                    on_dep_only,
                }).model_classes(model_name@) == Some(symbols@),
                None => (Resolver { session: *session, from_module, on_dep_only }).model_classes(
                    model_name@,
                ) is None,
            },
    {
        match session.find_model(model_name) {
            Some(model) => Some(
                model.get_model_symbols(
                    &session.st,
                    if on_dep_only {
                        from_module
                    } else {
                        None
                    },
                ),
            ),
            None => None,
        }
    }

    /// The symbols that an xml id names in a document of `file_module`.
    pub fn xml_id_symbols(
        session: &SessionInfo,
        xml_id: &str,
        file_module: ModuleKey,
        on_dep_only: bool,
    ) -> (res: Vec<SymbolKey>)
        ensures
            res@ == xml_id_targets(*session, file_module, xml_id@, on_dep_only),
    {
        let mut symbols: Vec<SymbolKey> = Vec::new();
        let from = if on_dep_only {
            Some(file_module)
        } else {
            None
        };
        let ghost accepts = is_seen(session.st, from);
        match session.get_xml_ids(file_module, xml_id) {
            Some(ids) => {
                assert(ids@.take(0).filter(accepts) =~= Seq::empty()) by {
                    reveal(Seq::filter);
                }
                assert(symbols@ =~= id_keys(ids@.take(0).filter(accepts)));
                let mut i: usize = 0;
                while i < ids.len()
                    invariant
                        i <= ids.len(),
                        accepts == is_seen(session.st, from),
                        symbols@ == id_keys(ids@.take(i as int).filter(accepts)),
                    decreases ids.len() - i,
                {
                    proof {
                        lemma_filter_step(ids@, accepts, i as int);
                    }
                    let ghost before = ids@.take(i as int).filter(accepts);
                    if ids[i].kind != XmlIdKind::Other && session.st.is_visible(ids[i].key, from) {
                        symbols.push(ids[i].key);
                        assert(symbols@ =~= id_keys(before.push(ids@[i as int])));
                    }
                    i = i + 1;
                }
                assert(ids@.take(ids@.len() as int) =~= ids@);
            },
            None => {
                assert(Seq::<XmlId>::empty().filter(accepts) =~= Seq::empty()) by {
                    reveal(Seq::filter);
                }
                assert(symbols@ =~= id_keys(Seq::<XmlId>::empty().filter(accepts)));
            },
        }
        symbols
    }
}

} // verus!
