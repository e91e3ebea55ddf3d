//! Upkeep of the frontend templates that a session knows by name.
use vstd::prelude::*;

use crate::lookup_laws::{
    in_sight, is_there, lemma_same_filter, lemma_seen_iff, modules_see_their_dependencies,
};
use crate::seqs::{
    first_index, lemma_filter_accepted, lemma_filter_all, lemma_filter_none, lemma_filter_step, lemma_first_index,
    lemma_is_first_index,
};
use crate::symbols::{JsTemplate, SessionInfo, SymbolKey, SymbolTable};
use crate::text::str_eq;
use crate::xml_ast_utils::XmlAstUtils;

verus! {

/// Value of a [`JsTemplate`].
pub ghost struct TemplateView {
    pub name: Seq<char>,
    pub templates: Seq<SymbolKey>,
}

impl View for JsTemplate {
    type V = TemplateView;

    open spec fn view(&self) -> TemplateView {
        TemplateView { name: self.name@, templates: self.templates@ }
    }
}

/// Values of a sequence of [`JsTemplate`].
pub open spec fn templates_view(templates: Seq<JsTemplate>) -> Seq<TemplateView> {
    templates.map_values(|template: JsTemplate| template@)
}

/// Predicate of the templates of one name.
pub open spec fn is_template(name: Seq<char>) -> spec_fn(TemplateView) -> bool {
    |template: TemplateView| template.name == name
}

/// Predicate of the templates of other names.
pub open spec fn is_other_template(name: Seq<char>) -> spec_fn(TemplateView) -> bool {
    |template: TemplateView| template.name != name
}

/// Whether a template of that name has a symbol left.
pub open spec fn has_valid_template(st: SymbolTable, templates: Seq<TemplateView>, name: Seq<char>) -> bool {
    let index = first_index(templates, is_template(name)) as int;
    index < templates.len() && st.visible_keys(templates[index].templates, None).len() > 0
}

/// The templates once those of one name have lost the keys whose symbol is gone, a name that is
/// left with none being dropped.
pub open spec fn cleaned_templates(st: SymbolTable, templates: Seq<TemplateView>, name: Seq<char>) -> Seq<
    TemplateView,
> {
    let index = first_index(templates, is_template(name)) as int;
    if index >= templates.len() {
        templates
    } else if has_valid_template(st, templates, name) {
        templates.update(
            index,
            TemplateView { name, templates: st.visible_keys(templates[index].templates, None) },
        )
    } else {
        templates.filter(is_other_template(name))
    }
}

/// Drops the templates of one name.
fn drop_templates(templates: &mut Vec<JsTemplate>, name: &str)
    ensures
        templates_view(final(templates)@) == templates_view(old(templates)@).filter(
            is_other_template(name@),
        ),
{
    let ghost all = templates_view(templates@);
    let ghost accepts = is_other_template(name@);
    let ghost mut seen: int = 0;
    let mut i: usize = 0;
    assert(all.take(0).filter(accepts) =~= Seq::empty()) by {
        reveal(Seq::filter);
    }
    assert(templates_view(templates@) =~= all.take(0).filter(accepts) + all.skip(0));
    while i < templates.len()
        invariant
            accepts == is_other_template(name@),
            0 <= seen <= all.len(),
            i <= templates.len(),
            i == all.take(seen).filter(accepts).len(),
            templates_view(templates@) == all.take(seen).filter(accepts) + all.skip(seen),
        decreases templates.len() - i,
    {
        let ghost before = templates_view(templates@);
        assert(before[i as int] == templates@[i as int]@);
        assert(before[i as int] == all.skip(seen)[0]);
        proof {
            lemma_filter_step(all, accepts, seen);
        }
        if str_eq(templates[i].name.as_str(), name) {
            templates.remove(i);
            assert(templates_view(templates@) =~= before.remove(i as int));
            assert(templates_view(templates@) =~= all.take(seen + 1).filter(accepts) + all.skip(
                seen + 1,
            ));
        } else {
            assert(before =~= all.take(seen + 1).filter(accepts) + all.skip(seen + 1));
            i = i + 1;
        }
        proof {
            seen = seen + 1;
        }
    }
    assert(templates_view(templates@).len() == templates@.len());
    assert(all.skip(seen).len() == 0);
    assert(all.take(seen) =~= all);
    assert(templates_view(templates@) =~= all.filter(accepts));
}

/// Whether no two templates have the same name.
pub open spec fn templates_distinct(templates: Seq<TemplateView>) -> bool {
    forall|i: int, j: int|
        0 <= i < j < templates.len() ==> (#[trigger] templates[i]).name != (
        #[trigger] templates[j]).name
}

/// Templates of distinct names still have them after a filter.
proof fn lemma_filter_distinct(templates: Seq<TemplateView>, accepts: spec_fn(TemplateView) -> bool)
    requires
        templates_distinct(templates),
    ensures
        templates_distinct(templates.filter(accepts)),
    decreases templates.len(),
{
    reveal(Seq::filter);
    if templates.len() > 0 {
        let shorter = templates.drop_last();
        let rest = shorter.filter(accepts);
        let all = templates.filter(accepts);
        assert forall|i: int, j: int| 0 <= i < j < shorter.len() implies (
        #[trigger] shorter[i]).name != (#[trigger] shorter[j]).name by {
            assert(shorter[i] == templates[i] && shorter[j] == templates[j]);
        }
        lemma_filter_distinct(shorter, accepts);
        assert forall|i: int, j: int| 0 <= i < j < all.len() implies (#[trigger] all[i]).name != (
        #[trigger] all[j]).name by {
            assert(all[i] == rest[i]);
            if j < rest.len() {
                assert(all[j] == rest[j]);
            } else {
                assert(rest.contains(rest[i]));
                shorter.lemma_filter_contains_rev(accepts, rest[i]);
                let k = shorter.index_of(rest[i]);
                assert(templates[k] == rest[i]);
                assert(all[j] == templates[templates.len() - 1]);
            }
        }
    }
}

/// The upkeep of a name keeps the names of templates distinct.
pub proof fn upkeep_keeps_names_distinct(
    st: SymbolTable,
    templates: Seq<TemplateView>,
    name: Seq<char>,
)
    requires
        templates_distinct(templates),
    ensures
        templates_distinct(cleaned_templates(st, templates, name)),
{
    let index = first_index(templates, is_template(name)) as int;
    lemma_first_index(templates, is_template(name));
    let cleaned = cleaned_templates(st, templates, name);
    if has_valid_template(st, templates, name) {
        assert(is_template(name)(templates[index]));
        assert forall|i: int, j: int| 0 <= i < j < cleaned.len() implies (
        #[trigger] cleaned[i]).name != (#[trigger] cleaned[j]).name by {
            assert(cleaned[i].name == templates[i].name && cleaned[j].name == templates[j].name);
        }
    } else if index < templates.len() {
        lemma_filter_distinct(templates, is_other_template(name));
    }
}

/// The upkeep of a name keeps the keys of a session distinct.
proof fn lemma_upkeep_keeps_session(before: SessionInfo, after: SessionInfo, name: Seq<char>)
    requires
        before.wf(),
        after.st == before.st,
        after.models == before.models,
        after.xml_ids == before.xml_ids,
        templates_view(after.js_templates@) == cleaned_templates(
            before.st,
            templates_view(before.js_templates@),
            name,
        ),
    ensures
        after.wf(),
{
    let (old_views, views) = (
        templates_view(before.js_templates@),
        templates_view(after.js_templates@),
    );
    assert forall|i: int, j: int| 0 <= i < j < old_views.len() implies (
    #[trigger] old_views[i]).name != (#[trigger] old_views[j]).name by {
        assert(before.js_templates@[i].name@ != before.js_templates@[j].name@);
    }
    upkeep_keeps_names_distinct(before.st, old_views, name);
    assert forall|i: int, j: int| 0 <= i < j < after.js_templates@.len() implies (
    #[trigger] after.js_templates@[i]).name@ != (#[trigger] after.js_templates@[j]).name@ by {
        assert(views[i].name != views[j].name);
    }
}

impl XmlAstUtils {
    /// Clears the invalid weak values from the templates of this name.
    /// Returns true if there are still valid values after the cleanup.
    pub fn ensure_js_template_validity(session: &mut SessionInfo, t_name: &str) -> (res: bool)
        ensures
            res == has_valid_template(
                old(session).st,
                templates_view(old(session).js_templates@),
                t_name@,
            ),
            templates_view(final(session).js_templates@) == cleaned_templates(
                old(session).st,
                templates_view(old(session).js_templates@),
                t_name@,
            ),
            final(session).st == old(session).st,
            final(session).models == old(session).models,
            final(session).xml_ids == old(session).xml_ids,
            final(session).ac_filter_model_names == old(session).ac_filter_model_names,
            old(session).wf() ==> final(session).wf(),
    {
        let ghost all = templates_view(session.js_templates@);
        let ghost accepts = is_template(t_name@);
        let mut i: usize = 0;
        while i < session.js_templates.len()
            invariant
                *session == *old(session),
                all == templates_view(session.js_templates@),
                accepts == is_template(t_name@),
                i <= session.js_templates.len(),
                forall|j: int| 0 <= j < i ==> !accepts(#[trigger] all[j]),
            decreases session.js_templates.len() - i,
        {
            assert(all[i as int] == session.js_templates@[i as int]@);
            if str_eq(session.js_templates[i].name.as_str(), t_name) {
                proof {
                    lemma_is_first_index(all, accepts, i as int);
                }
                let valid = session.st.filter_visible(&session.js_templates[i].templates, None);
                if valid.len() == 0 {
                    drop_templates(&mut session.js_templates, t_name);
                    proof {
                        if old(session).wf() {
                            lemma_upkeep_keeps_session(*old(session), *session, t_name@);
                        }
                    }
                    return false;
                }
                let template = JsTemplate { name: t_name.to_string(), templates: valid };
                session.js_templates.set(i, template);
                assert(templates_view(session.js_templates@) =~= all.update(i as int, template@));
                proof {
                    if old(session).wf() {
                        lemma_upkeep_keeps_session(*old(session), *session, t_name@);
                    }
                }
                return true;
            }
            i = i + 1;
        }
        proof {
            lemma_is_first_index(all, accepts, i as int);
        }
        false
    }
}

/// After the upkeep of a name, no template of that name is left when none is valid.
pub proof fn invalid_template_is_dropped(st: SymbolTable, templates: Seq<TemplateView>, name: Seq<char>)
    requires
        !has_valid_template(st, templates, name),
    ensures
        forall|k: int|
            0 <= k < cleaned_templates(st, templates, name).len() ==> (
            #[trigger] cleaned_templates(st, templates, name)[k]).name != name,
{
    let index = first_index(templates, is_template(name)) as int;
    if index < templates.len() {
        lemma_filter_accepted(templates, is_other_template(name));
    } else {
        lemma_first_index(templates, is_template(name));
        assert forall|k: int| 0 <= k < templates.len() implies (#[trigger] templates[k]).name
            != name by {
            assert(!is_template(name)(templates[k]));
        }
    }
}

/// The upkeep of a name leaves the templates of other names alone.
pub proof fn other_templates_are_kept(
    st: SymbolTable,
    templates: Seq<TemplateView>,
    name: Seq<char>,
)
    ensures
        cleaned_templates(st, templates, name).filter(is_other_template(name)) == templates.filter(
            is_other_template(name),
        ),
{
    let accepts = is_other_template(name);
    let index = first_index(templates, is_template(name)) as int;
    lemma_first_index(templates, is_template(name));
    if has_valid_template(st, templates, name) {
        let template = TemplateView {
            name,
            templates: st.visible_keys(templates[index].templates, None),
        };
        let (head, tail) = (templates.take(index), templates.skip(index + 1));
        assert(is_template(name)(templates[index]));
        assert(templates =~= head + (seq![templates[index]] + tail));
        assert(templates.update(index, template) =~= head + (seq![template] + tail));
        lemma_filter_none(seq![templates[index]], accepts);
        lemma_filter_none(seq![template], accepts);
        Seq::filter_distributes_over_add(head, seq![templates[index]] + tail, accepts);
        Seq::filter_distributes_over_add(head, seq![template] + tail, accepts);
        Seq::filter_distributes_over_add(seq![templates[index]], tail, accepts);
        Seq::filter_distributes_over_add(seq![template], tail, accepts);
    } else {
        lemma_filter_accepted(templates, accepts);
    }
}

/// The upkeep of a name, done twice, changes nothing the second time.
pub proof fn upkeep_is_idempotent(st: SymbolTable, templates: Seq<TemplateView>, name: Seq<char>)
    ensures
        cleaned_templates(st, cleaned_templates(st, templates, name), name) == cleaned_templates(
            st,
            templates,
            name,
        ),
        has_valid_template(st, cleaned_templates(st, templates, name), name) == has_valid_template(
            st,
            templates,
            name,
        ),
{
    let accepts = is_template(name);
    let index = first_index(templates, accepts) as int;
    lemma_first_index(templates, accepts);
    let cleaned = cleaned_templates(st, templates, name);
    if has_valid_template(st, templates, name) {
        assert forall|j: int| 0 <= j < index implies !accepts(#[trigger] cleaned[j]) by {
            assert(!accepts(templates[j]));
        }
        lemma_is_first_index(cleaned, accepts, index);
        lemma_filter_accepted(templates[index].templates, st.visibility(None));
        assert(cleaned.update(index, cleaned[index]) =~= cleaned);
    } else {
        invalid_template_is_dropped(st, templates, name);
        lemma_is_first_index(cleaned, accepts, cleaned.len() as int);
    }
}

/// Whether any key still has a symbol.
pub open spec fn has_any_left(st: SymbolTable, keys: Seq<SymbolKey>) -> bool {
    exists|k: int| 0 <= k < keys.len() && is_there(st, #[trigger] keys[k])
}

/// A name has a valid template as long as a symbol of its templates is left. The upkeep of the name then
/// keeps its template with the keys that still have a symbol, in order, and drops it otherwise; all
/// other templates stay as they are.
pub proof fn templates_stay_while_a_symbol_is_left(
    st: SymbolTable,
    templates: Seq<TemplateView>,
    name: Seq<char>,
    t: int,
)
    requires
        templates_distinct(templates),
        0 <= t < templates.len(),
        templates[t].name == name,
    ensures
        has_valid_template(st, templates, name) == has_any_left(st, templates[t].templates),
        has_any_left(st, templates[t].templates) ==> {
            let cleaned = cleaned_templates(st, templates, name);
            &&& cleaned.len() == templates.len()
            &&& cleaned[t].name == name
            &&& cleaned[t].templates == templates[t].templates.filter(
                |key: SymbolKey| is_there(st, key),
            )
            &&& forall|i: int|
                0 <= i < templates.len() && i != t ==> #[trigger] cleaned[i] == templates[i]
        },
        !has_any_left(st, templates[t].templates) ==> cleaned_templates(st, templates, name)
            == templates.take(t) + templates.skip(t + 1),
{
    let accepts = is_template(name);
    let keys = templates[t].templates;
    assert forall|j: int| 0 <= j < t implies !accepts(#[trigger] templates[j]) by {
        assert(templates[j].name != templates[t].name);
    }
    lemma_is_first_index(templates, accepts, t);
    lemma_seen_iff(st, keys, None);
    let seen = st.visible_keys(keys, None);
    if seen.len() > 0 {
        assert(seen.contains(seen[0]));
        let k = keys.index_of(seen[0]);
        assert(is_there(st, keys[k]));
    }
    if has_any_left(st, keys) {
        let k = choose|k: int| 0 <= k < keys.len() && is_there(st, #[trigger] keys[k]);
        assert(keys.contains(keys[k]));
        assert(in_sight(st, keys[k], None));
        assert(seen.contains(keys[k]));
        assert forall|k: int| 0 <= k < keys.len() implies st.visibility(None)(#[trigger] keys[k])
            == is_there(st, keys[k]) by {
            modules_see_their_dependencies(st, keys[k], None);
        }
        lemma_same_filter(keys, st.visibility(None), |key: SymbolKey| is_there(st, key));
    } else {
        let others = is_other_template(name);
        let (head, tail) = (templates.take(t), templates.skip(t + 1));
        assert(templates =~= head + (seq![templates[t]] + tail));
        Seq::filter_distributes_over_add(head, seq![templates[t]] + tail, others);
        Seq::filter_distributes_over_add(seq![templates[t]], tail, others);
        assert forall|j: int| 0 <= j < head.len() implies others(#[trigger] head[j]) by {
            assert(head[j] == templates[j]);
        }
        assert forall|j: int| 0 <= j < tail.len() implies others(#[trigger] tail[j]) by {
            assert(tail[j] == templates[t + 1 + j]);
            assert(templates[t].name != templates[t + 1 + j].name);
        }
        lemma_filter_all(head, others);
        lemma_filter_all(tail, others);
        lemma_filter_none(seq![templates[t]], others);
        assert(templates.filter(others) =~= head + tail);
    }
}

/// A name that no template has is not valid, and its upkeep changes nothing.
pub proof fn unknown_templates_are_not_valid(
    st: SymbolTable,
    templates: Seq<TemplateView>,
    name: Seq<char>,
)
    requires
        forall|t: int| 0 <= t < templates.len() ==> (#[trigger] templates[t]).name != name,
    ensures
        !has_valid_template(st, templates, name),
        cleaned_templates(st, templates, name) == templates,
{
    let accepts = is_template(name);
    assert forall|j: int| 0 <= j < templates.len() implies !accepts(#[trigger] templates[j]) by {}
    lemma_is_first_index(templates, accepts, templates.len() as int);
}

} // verus!
