//! What the features read of the analysed code base: modules, symbols, models and xml ids.
//!
//! Keys are weak: a key whose symbol is gone resolves to nothing.
use vstd::prelude::*;

use crate::seqs::{first_index, first_match, lemma_filter_step, lemma_is_first_index};
use crate::text::{char_vec, str_eq};
use vstd::string::StrSliceExecFns;

verus! {

/// Weak key of a symbol.
#[derive(Clone, Copy, PartialEq, Eq, Structural, Debug)]
pub struct SymbolKey {
    pub index: usize,
}

/// Weak key of a module.
#[derive(Clone, Copy, PartialEq, Eq, Structural, Debug)]
pub struct ModuleKey {
    pub index: usize,
}

/// A module with the names of all the modules it depends on, directly or not.
#[derive(Clone, Debug)]
pub struct ModuleSymbol {
    pub name: String,
    pub dir_name: String,
    pub all_depends: Vec<String>,
}

/// Symbols that a scope holds under one name.
#[derive(Clone, Debug)]
pub struct NamedSymbols {
    pub name: String,
    pub symbols: Vec<SymbolKey>,
}

/// What a member of a class is.
#[derive(Clone, Copy, PartialEq, Eq, Structural, Debug)]
pub enum MemberKind {
    Field,
    Method,
    Other,
}

/// A member of a class, inherited or not.
#[derive(Clone, Debug)]
pub struct Member {
    pub name: String,
    pub kind: MemberKind,
    pub symbols: Vec<SymbolKey>,
}

/// A python class: what its body declares, and all its members along its bases.
#[derive(Clone, Debug)]
pub struct ClassSymbol {
    pub tree: Vec<String>,
    pub is_field_class: bool,
    pub content: Vec<NamedSymbols>,
    pub members: Vec<Member>,
}

/// How a parameter takes its argument.
#[derive(Clone, Copy, PartialEq, Eq, Structural, Debug)]
pub enum ArgumentType {
    PosOnly,
    Arg,
    KwordOnly,
    Vararg,
    Kwarg,
}

/// A parameter of a function, `presentation` being its text in a signature.
#[derive(Clone, Debug)]
pub struct Argument {
    pub symbol: SymbolKey,
    pub arg_type: ArgumentType,
    pub presentation: String,
}

/// A python function.
#[derive(Clone, Debug)]
pub struct FunctionSymbol {
    pub args: Vec<Argument>,
    pub is_static: bool,
    pub doc_string: Option<String>,
}

/// What an expression evaluates to: a symbol, with what the context knows of it, or no symbol.
#[derive(Clone, Debug)]
pub enum EvaluationSymbolPtr {
    Weak { weak: SymbolKey, comodel_name: Option<String>, is_attr_of_instance: Option<bool> },
    Other,
}

/// An evaluation of a variable, and the symbols it leads to once references are followed.
#[derive(Clone, Debug)]
pub struct Evaluation {
    pub symbol: EvaluationSymbolPtr,
    pub followed: Vec<SymbolKey>,
}

/// A variable, a field of a class among others.
#[derive(Clone, Debug)]
pub struct VariableSymbol {
    pub evaluations: Vec<Evaluation>,
}

/// A `<record>`, with the texts of the fields of an `ir.model.fields` record.
#[derive(Clone, Debug)]
pub struct XmlRecordSymbol {
    pub name: Option<String>,
    pub ttype: Option<String>,
    pub relation: Option<String>,
}

/// What is known of a symbol, by its kind.
#[derive(Clone, Debug)]
pub enum SymbolData {
    Class(ClassSymbol),
    Function(FunctionSymbol),
    Variable(VariableSymbol),
    XmlRecord(XmlRecordSymbol),
    Other,
}

/// A symbol, and the module it is declared in.
#[derive(Clone, Debug)]
pub struct Symbol {
    pub name: String,
    pub module: Option<ModuleKey>,
    pub data: SymbolData,
}

/// All symbols and modules, by key.
#[derive(Clone, Debug)]
pub struct SymbolTable {
    pub symbols: Vec<Option<Symbol>>,
    pub modules: Vec<ModuleSymbol>,
}

/// A model: the classes that declare or extend it, those of them that declare it, the classes its
/// records have along the `_inherit` chains, and its fields that `ir.model.fields` records declare.
#[derive(Clone, Debug)]
pub struct Model {
    pub name: String,
    pub symbols: Vec<SymbolKey>,
    pub main_symbols: Vec<SymbolKey>,
    pub full_classes: Vec<SymbolKey>,
    pub xml_fields: Vec<SymbolKey>,
}

/// What declares an xml id.
#[derive(Clone, Copy, PartialEq, Eq, Structural, Debug)]
pub enum XmlIdKind {
    XmlRecord,
    PythonClass,
    MenuItem,
    Template,
    Other,
}

/// A declaration of an xml id: its symbol and the model of the record that the id names.
#[derive(Clone, Debug)]
pub struct XmlId {
    pub key: SymbolKey,
    pub kind: XmlIdKind,
    pub model: String,
}

/// The declarations of one xml id, `local_id` being the part after the module name.
#[derive(Clone, Debug)]
pub struct XmlIdEntry {
    pub module: ModuleKey,
    pub local_id: String,
    pub ids: Vec<XmlId>,
}

/// The frontend templates of one name.
#[derive(Clone, Debug)]
pub struct JsTemplate {
    pub name: String,
    pub templates: Vec<SymbolKey>,
}

/// The analysed code base, `ac_filter_model_names` keeping the models out of the dependencies
/// among the completions.
#[derive(Clone, Debug)]
pub struct SessionInfo {
    pub st: SymbolTable,
    pub models: Vec<Model>,
    pub xml_ids: Vec<XmlIdEntry>,
    pub js_templates: Vec<JsTemplate>,
    pub ac_filter_model_names: bool,
}

/// Whether no two entries have the same name.
pub open spec fn names_distinct(entries: Seq<NamedSymbols>) -> bool {
    forall|i: int, j: int|
        0 <= i < j < entries.len() ==> (#[trigger] entries[i]).name@ != (
        #[trigger] entries[j]).name@
}

impl SymbolTable {
    /// Whether no two modules have the same name, and no class declares a name twice.
    pub open spec fn wf(self) -> bool {
        &&& forall|i: int, j: int|
            0 <= i < j < self.modules@.len() ==> (#[trigger] self.modules@[i]).name@ != (
            #[trigger] self.modules@[j]).name@
        &&& forall|k: int|
            0 <= k < self.symbols@.len() ==> (#[trigger] self.symbols@[k] matches Some(symbol)
                ==> (symbol.data matches SymbolData::Class(class) ==> names_distinct(
                class.content@,
            )))
    }

    /// The symbol of a key.
    pub open spec fn symbol_at(self, key: SymbolKey) -> Option<Symbol> {
        if key.index < self.symbols@.len() {
            self.symbols@[key.index as int]
        } else {
            None
        }
    }

    /// The module of a key.
    pub open spec fn module_at(self, key: ModuleKey) -> Option<ModuleSymbol> {
        if key.index < self.modules@.len() {
            Some(self.modules@[key.index as int])
        } else {
            None
        }
    }

    /// The module that a symbol is declared in.
    pub open spec fn module_of(self, key: SymbolKey) -> Option<ModuleKey> {
        match self.symbol_at(key) {
            Some(symbol) => match symbol.module {
                Some(module) => if self.module_at(module) is Some {
                    Some(module)
                } else {
                    None
                },
                None => None,
            },
            None => None,
        }
    }

    /// Whether the module named `name` is `from` or one of its dependencies.
    pub open spec fn in_deps(self, from: ModuleKey, name: Seq<char>) -> bool {
        match self.module_at(from) {
            Some(module) => module.name@ == name || exists|i: int|
                0 <= i < module.all_depends@.len() && #[trigger] module.all_depends@[i]@ == name,
            None => false,
        }
    }

    /// Whether a symbol exists and, when seen from a module, belongs to its dependencies. A symbol
    /// of no module is seen from everywhere.
    pub open spec fn visible(self, key: SymbolKey, from: Option<ModuleKey>) -> bool {
        &&& self.symbol_at(key) is Some
        &&& match (from, self.module_of(key)) {
            (Some(from), Some(module)) => self.in_deps(
                from,
                self.module_at(module)->0.name@,
            ),
            _ => true,
        }
    }

    /// [`SymbolTable::visible`] as a predicate on keys.
    pub open spec fn visibility(self, from: Option<ModuleKey>) -> spec_fn(SymbolKey) -> bool {
        |key: SymbolKey| self.visible(key, from)
    }

    /// The keys that are visible, in order.
    pub open spec fn visible_keys(self, keys: Seq<SymbolKey>, from: Option<ModuleKey>) -> Seq<
        SymbolKey,
    > {
        keys.filter(self.visibility(from))
    }

    /// The symbol of a key, `None` once it is gone.
    pub fn get(&self, key: SymbolKey) -> (res: Option<&Symbol>)
        ensures
            match res {
                Some(symbol) => self.symbol_at(key) == Some(*symbol),
                None => self.symbol_at(key) is None,
            },
    {
        if key.index < self.symbols.len() {
            match &self.symbols[key.index] {
                Some(symbol) => Some(symbol),
                None => None,
            }
        } else {
            None
        }
    }

    /// The module of a key.
    pub fn module(&self, key: ModuleKey) -> (res: Option<&ModuleSymbol>)
        ensures
            match res {
                Some(module) => self.module_at(key) == Some(*module),
                None => self.module_at(key) is None,
            },
    {
        if key.index < self.modules.len() {
            Some(&self.modules[key.index])
        } else {
            None
        }
    }

    /// The module that a symbol is declared in.
    pub fn find_module(&self, key: SymbolKey) -> (res: Option<ModuleKey>)
        ensures
            res == self.module_of(key),
    {
        match self.get(key) {
            Some(symbol) => match symbol.module {
                Some(module) => if self.module(module).is_some() {
                    Some(module)
                } else {
                    None
                },
                None => None,
            },
            None => None,
        }
    }

    /// Whether the module named `name` is `from` or one of its dependencies.
    pub fn is_in_deps(&self, from: ModuleKey, name: &str) -> (res: bool)
        ensures
            res == self.in_deps(from, name@),
    {
        match self.module(from) {
            Some(module) => {
                if str_eq(module.name.as_str(), name) {
                    return true;
                }
                let mut i: usize = 0;
                while i < module.all_depends.len()
                    invariant
                        self.module_at(from) == Some(*module),
                        i <= module.all_depends.len(),
                        forall|j: int| 0 <= j < i ==> #[trigger] module.all_depends@[j]@ != name@,
                    decreases module.all_depends.len() - i,
                {
                    if str_eq(module.all_depends[i].as_str(), name) {
                        assert(module.all_depends@[i as int]@ == name@);
                        return true;
                    }
                    i = i + 1;
                }
                false
            },
            None => false,
        }
    }

    /// Whether a symbol exists and belongs to the dependencies of the module it is seen from.
    pub fn is_visible(&self, key: SymbolKey, from: Option<ModuleKey>) -> (res: bool)
        ensures
            res == self.visible(key, from),
    {
        if self.get(key).is_none() {
            return false;
        }
        match (from, self.find_module(key)) {
            (Some(from), Some(module)) => match self.module(module) {
                Some(module) => self.is_in_deps(from, module.name.as_str()),
                None => true,
            },
            _ => true,
        }
    }

    /// The keys that are visible, in order.
    pub fn filter_visible(&self, keys: &Vec<SymbolKey>, from: Option<ModuleKey>) -> (res: Vec<
        SymbolKey,
    >)
        ensures
            res@ == self.visible_keys(keys@, from),
    {
        let mut res: Vec<SymbolKey> = Vec::new();
        let ghost accepts = self.visibility(from);
        assert(keys@.take(0).filter(accepts) =~= Seq::empty()) by {
            reveal(Seq::filter);
        }
        let mut i: usize = 0;
        while i < keys.len()
            invariant
                i <= keys.len(),
                accepts == self.visibility(from),
                res@ == keys@.take(i as int).filter(accepts),
            decreases keys.len() - i,
        {
            proof {
                lemma_filter_step(keys@, accepts, i as int);
            }
            if self.is_visible(keys[i], from) {
                res.push(keys[i]);
            }
            i = i + 1;
        }
        assert(keys@.take(keys@.len() as int) =~= keys@);
        res
    }
}

/// Predicate of the entries of one name.
pub open spec fn has_name(name: Seq<char>) -> spec_fn(NamedSymbols) -> bool {
    |entry: NamedSymbols| entry.name@ == name
}

/// Symbols that the entries hold under `name`.
pub open spec fn named_symbols(entries: Seq<NamedSymbols>, name: Seq<char>) -> Seq<SymbolKey> {
    match first_match(entries, has_name(name)) {
        Some(entry) => entry.symbols@,
        None => Seq::empty(),
    }
}

impl SymbolTable {
    /// Symbols that the body of a class declares under `name`.
    pub open spec fn content_of(self, class_key: SymbolKey, name: Seq<char>) -> Seq<SymbolKey> {
        match self.symbol_at(class_key) {
            Some(symbol) => match symbol.data {
                SymbolData::Class(class) => named_symbols(class.content@, name),
                _ => Seq::empty(),
            },
            None => Seq::empty(),
        }
    }

    /// Symbols that the body of a class declares under `name`.
    pub fn get_content_symbol(&self, class_key: SymbolKey, name: &str) -> (res: Vec<SymbolKey>)
        ensures
            res@ == self.content_of(class_key, name@),
    {
        match self.get(class_key) {
            Some(symbol) => match &symbol.data {
                SymbolData::Class(class) => {
                    let ghost accepts = has_name(name@);
                    let mut i: usize = 0;
                    while i < class.content.len()
                        invariant
                            self.symbol_at(class_key) == Some(*symbol),
                            symbol.data == SymbolData::Class(*class),
                            accepts == has_name(name@),
                            i <= class.content.len(),
                            forall|j: int| 0 <= j < i ==> !accepts(#[trigger] class.content@[j]),
                        decreases class.content.len() - i,
                    {
                        if str_eq(class.content[i].name.as_str(), name) {
                            proof {
                                lemma_is_first_index(class.content@, accepts, i as int);
                            }
                            return copy_keys(&class.content[i].symbols);
                        }
                        i = i + 1;
                    }
                    proof {
                        lemma_is_first_index(class.content@, accepts, i as int);
                    }
                    Vec::new()
                },
                _ => Vec::new(),
            },
            None => Vec::new(),
        }
    }
}

/// The same keys in a vector of their own.
pub fn copy_keys(keys: &Vec<SymbolKey>) -> (res: Vec<SymbolKey>)
    ensures
        res@ == keys@,
{
    let mut res: Vec<SymbolKey> = Vec::new();
    append_keys(&mut res, keys);
    assert(res@ =~= keys@);
    res
}

/// Adds keys at the end of others.
pub fn append_keys(out: &mut Vec<SymbolKey>, keys: &Vec<SymbolKey>)
    ensures
        final(out)@ == old(out)@ + keys@,
{
    let ghost before = out@;
    let mut i: usize = 0;
    while i < keys.len()
        invariant
            i <= keys.len(),
            out@ == before + keys@.take(i as int),
        decreases keys.len() - i,
    {
        out.push(keys[i]);
        assert(keys@.take(i + 1) =~= keys@.take(i as int).push(keys@[i as int]));
        i = i + 1;
    }
    assert(keys@.take(keys@.len() as int) =~= keys@);
}

impl Model {
    /// Whether any class of the model is left.
    pub open spec fn any_symbol(self, st: SymbolTable) -> bool {
        st.visible_keys(self.symbols@, None).len() > 0
    }

    /// Whether a class that declares the model belongs to the dependencies of a module.
    pub open spec fn declared_in_deps(self, st: SymbolTable, from: ModuleKey) -> bool {
        st.visible_keys(self.main_symbols@, Some(from)).len() > 0
    }

    /// The classes of the model.
    pub fn get_model_symbols(&self, st: &SymbolTable, from: Option<ModuleKey>) -> (res: Vec<
        SymbolKey,
    >)
        ensures
            res@ == st.visible_keys(self.symbols@, from),
    {
        st.filter_visible(&self.symbols, from)
    }

    /// The classes that declare the model.
    pub fn get_main_symbols(&self, st: &SymbolTable, from: Option<ModuleKey>) -> (res: Vec<
        SymbolKey,
    >)
        ensures
            res@ == st.visible_keys(self.main_symbols@, from),
    {
        st.filter_visible(&self.main_symbols, from)
    }

    /// The classes that a record of the model has, `_inherit` chains included.
    pub fn get_full_model_classes(&self, st: &SymbolTable, from: Option<ModuleKey>) -> (res: Vec<
        SymbolKey,
    >)
        ensures
            res@ == st.visible_keys(self.full_classes@, from),
    {
        st.filter_visible(&self.full_classes, from)
    }

    /// The `ir.model.fields` records that declare a field of the model.
    pub fn get_xml_model_field_symbols(
        &self,
        st: &SymbolTable,
        from: Option<ModuleKey>,
    ) -> (res: Vec<SymbolKey>)
        ensures
            res@ == st.visible_keys(self.xml_fields@, from),
    {
        st.filter_visible(&self.xml_fields, from)
    }

    /// Whether any class of the model is left.
    pub fn has_symbols(&self, st: &SymbolTable) -> (res: bool)
        ensures
            res == self.any_symbol(*st),
    {
        self.get_model_symbols(st, None).len() > 0
    }

    /// Whether a class that declares the model belongs to the dependencies of a module.
    pub fn model_in_deps(&self, st: &SymbolTable, from: ModuleKey) -> (res: bool)
        ensures
            res == self.declared_in_deps(*st, from),
    {
        self.get_main_symbols(st, Some(from)).len() > 0
    }
}

/// Predicate of the models of one name.
pub open spec fn is_model(name: Seq<char>) -> spec_fn(Model) -> bool {
    |model: Model| model.name@ == name
}

/// Predicate of the modules of one name.
pub open spec fn is_module(name: Seq<char>) -> spec_fn(ModuleSymbol) -> bool {
    |module: ModuleSymbol| module.name@ == name
}

/// Predicate of the xml ids of one module and local id.
pub open spec fn is_xml_id(module: ModuleKey, local_id: Seq<char>) -> spec_fn(XmlIdEntry) -> bool {
    |entry: XmlIdEntry| entry.module == module && entry.local_id@ == local_id
}

/// The module name, when there is one, and the local id that an xml id is made of: `id` or
/// `module.id`. More than one dot makes no xml id.
pub open spec fn xml_id_parts(xml_id: Seq<char>) -> Option<(Option<Seq<char>>, Seq<char>)> {
    let dot = xml_id.index_of_first('.');
    match dot {
        None => Some((None, xml_id)),
        Some(dot) => if xml_id.skip(dot + 1).contains('.') {
            None
        } else {
            Some((Some(xml_id.take(dot)), xml_id.skip(dot + 1)))
        },
    }
}

/// The module name and the local id that an xml id is made of.
pub fn split_xml_id(xml_id: &str) -> (res: Option<(Option<&str>, &str)>)
    ensures
        match res {
            None => xml_id_parts(xml_id@) is None,
            Some((None, local_id)) => xml_id_parts(xml_id@) == Some(
                (None::<Seq<char>>, local_id@),
            ),
            Some((Some(module), local_id)) => xml_id_parts(xml_id@) == Some(
                (Some(module@), local_id@),
            ),
        },
{
    proof {
        xml_id@.index_of_first_ensures('.');
    }
    let chars = char_vec(xml_id);
    let mut dot: usize = 0;
    while dot < chars.len() && chars[dot] != '.'
        invariant
            chars@ == xml_id@,
            dot <= chars.len(),
            forall|j: int| 0 <= j < dot ==> chars@[j] != '.',
        decreases chars.len() - dot,
    {
        dot = dot + 1;
    }
    if dot == chars.len() {
        assert(!xml_id@.contains('.'));
        return Some((None, xml_id));
    }
    assert(xml_id@.contains('.')) by {
        assert(xml_id@[dot as int] == '.');
    }
    assert(xml_id@.index_of_first('.') == Some(dot as int));
    let mut i: usize = dot + 1;
    while i < chars.len()
        invariant
            chars@ == xml_id@,
            dot < i <= chars.len(),
            xml_id@.index_of_first('.') == Some(dot as int),
            forall|j: int| dot < j < i ==> chars@[j] != '.',
        decreases chars.len() - i,
    {
        if chars[i] == '.' {
            assert(xml_id@.skip(dot + 1)[i - dot - 1] == '.');
            return None;
        }
        i = i + 1;
    }
    assert forall|j: int| 0 <= j < xml_id@.skip(dot + 1).len() implies #[trigger] xml_id@.skip(
        dot + 1,
    )[j] != '.' by {
        assert(chars@[dot + 1 + j] != '.');
    }
    assert(xml_id@.subrange(0, dot as int) =~= xml_id@.take(dot as int));
    assert(xml_id@.subrange(dot + 1, xml_id@.len() as int) =~= xml_id@.skip(dot + 1));
    Some((Some(xml_id.substring_char(0, dot)), xml_id.substring_char(dot + 1, chars.len())))
}

impl SessionInfo {
    /// Whether models, modules, xml ids, templates and what classes declare are each found under a
    /// key of their own.
    pub open spec fn wf(self) -> bool {
        &&& self.st.wf()
        &&& forall|i: int, j: int|
            0 <= i < j < self.models@.len() ==> (#[trigger] self.models@[i]).name@ != (
            #[trigger] self.models@[j]).name@
        &&& forall|i: int, j: int|
            0 <= i < j < self.xml_ids@.len() ==> (#[trigger] self.xml_ids@[i]).module != (
            #[trigger] self.xml_ids@[j]).module || self.xml_ids@[i].local_id@
                != self.xml_ids@[j].local_id@
        &&& forall|i: int, j: int|
            0 <= i < j < self.js_templates@.len() ==> (#[trigger] self.js_templates@[i]).name@ != (
            #[trigger] self.js_templates@[j]).name@
    }

    /// The model of a name.
    pub open spec fn model_named(self, name: Seq<char>) -> Option<Model> {
        first_match(self.models@, is_model(name))
    }

    /// The module of a name.
    pub open spec fn module_named(self, name: Seq<char>) -> Option<ModuleKey> {
        let index = first_index(self.st.modules@, is_module(name));
        if index < self.st.modules@.len() {
            Some(ModuleKey { index: index as usize })
        } else {
            None
        }
    }

    /// The declarations of a local id in a module.
    pub open spec fn xml_ids_at(self, module: ModuleKey, local_id: Seq<char>) -> Seq<XmlId> {
        match first_match(self.xml_ids@, is_xml_id(module, local_id)) {
            Some(entry) => entry.ids@,
            None => Seq::empty(),
        }
    }

    /// The declarations that an xml id names in a file of `file_module`, whose own ids need no
    /// module name.
    pub open spec fn xml_ids_of(self, file_module: ModuleKey, xml_id: Seq<char>) -> Seq<XmlId> {
        match xml_id_parts(xml_id) {
            None => Seq::empty(),
            Some((None, local_id)) => self.xml_ids_at(file_module, local_id),
            Some((Some(name), local_id)) => match self.module_named(name) {
                Some(module) => self.xml_ids_at(module, local_id),
                None => Seq::empty(),
            },
        }
    }

    /// The model of a name.
    pub fn find_model(&self, name: &str) -> (res: Option<&Model>)
        ensures
            match res {
                Some(model) => self.model_named(name@) == Some(*model),
                None => self.model_named(name@) is None,
            },
    {
        let ghost accepts = is_model(name@);
        let mut i: usize = 0;
        while i < self.models.len()
            invariant
                accepts == is_model(name@),
                i <= self.models.len(),
                forall|j: int| 0 <= j < i ==> !accepts(#[trigger] self.models@[j]),
            decreases self.models.len() - i,
        {
            if str_eq(self.models[i].name.as_str(), name) {
                proof {
                    lemma_is_first_index(self.models@, accepts, i as int);
                }
                return Some(&self.models[i]);
            }
            i = i + 1;
        }
        proof {
            lemma_is_first_index(self.models@, accepts, i as int);
        }
        None
    }

    /// The module of a name.
    pub fn find_module_named(&self, name: &str) -> (res: Option<ModuleKey>)
        ensures
            res == self.module_named(name@),
    {
        let ghost accepts = is_module(name@);
        let mut i: usize = 0;
        while i < self.st.modules.len()
            invariant
                accepts == is_module(name@),
                i <= self.st.modules.len(),
                forall|j: int| 0 <= j < i ==> !accepts(#[trigger] self.st.modules@[j]),
            decreases self.st.modules.len() - i,
        {
            if str_eq(self.st.modules[i].name.as_str(), name) {
                proof {
                    lemma_is_first_index(self.st.modules@, accepts, i as int);
                }
                return Some(ModuleKey { index: i });
            }
            i = i + 1;
        }
        proof {
            lemma_is_first_index(self.st.modules@, accepts, i as int);
        }
        None
    }

    /// The declarations of a local id in a module, `None` standing for none.
    fn find_xml_ids(&self, module: ModuleKey, local_id: &str) -> (res: Option<&Vec<XmlId>>)
        ensures
            match res {
                Some(ids) => self.xml_ids_at(module, local_id@) == ids@,
                None => self.xml_ids_at(module, local_id@) == Seq::<XmlId>::empty(),
            },
    {
        let ghost accepts = is_xml_id(module, local_id@);
        let mut i: usize = 0;
        while i < self.xml_ids.len()
            invariant
                accepts == is_xml_id(module, local_id@),
                i <= self.xml_ids.len(),
                forall|j: int| 0 <= j < i ==> !accepts(#[trigger] self.xml_ids@[j]),
            decreases self.xml_ids.len() - i,
        {
            if self.xml_ids[i].module == module && str_eq(
                self.xml_ids[i].local_id.as_str(),
                local_id,
            ) {
                proof {
                    lemma_is_first_index(self.xml_ids@, accepts, i as int);
                }
                return Some(&self.xml_ids[i].ids);
            }
            i = i + 1;
        }
        proof {
            lemma_is_first_index(self.xml_ids@, accepts, i as int);
        }
        None
    }

    /// The declarations that an xml id names in a file of `file_module`, `None` standing for none.
    pub fn get_xml_ids(&self, file_module: ModuleKey, xml_id: &str) -> (res: Option<&Vec<XmlId>>)
        ensures
            match res {
                Some(ids) => self.xml_ids_of(file_module, xml_id@) == ids@,
                None => self.xml_ids_of(file_module, xml_id@) == Seq::<XmlId>::empty(),
            },
    {
        match split_xml_id(xml_id) {
            None => None,
            Some((None, local_id)) => self.find_xml_ids(file_module, local_id),
            Some((Some(name), local_id)) => match self.find_module_named(name) {
                Some(module) => self.find_xml_ids(module, local_id),
                None => None,
            },
        }
    }
}

} // verus!
