//! Catalogs of models, and how those of several providers become one.
use crate::json::{
    array, copy_all, items_in, key_less, law_remove_keeps_others, law_set_then_get,
    lemma_with_field, obj, text, unsigned, views, Json,
    JsonNumber, JsonView,
};
use crate::names::{holds_name, lemma_key_less_carries, lemma_key_less_total, name_less};
use crate::text::{same, texts, trim, trimmed};
use vstd::prelude::*;
use vstd::string::*;

verus! {

/// The name of a model in a catalog.
pub open spec fn slug_of(model: JsonView) -> Option<Seq<char>> {
    model.get_text("slug"@)
}

/// The ids that a plain list of models names, trimmed, those that are not blank.
pub open spec fn listed_ids(items: Seq<JsonView>) -> Seq<Seq<char>>
    decreases items.len(),
{
    if items.len() == 0 {
        seq![]
    } else {
        let before = listed_ids(items.drop_last());
        match items.last().get_text("id"@) {
            Some(id) if trim(id).len() > 0 => before.push(trim(id)),
            _ => before,
        }
    }
}

/// The ids that a plain list of models names.
pub fn listed_slugs(value: &Json) -> (slugs: Vec<String>)
    ensures
        texts(slugs@) == (match items_in(value@.get("data"@)) {
            Some(items) => listed_ids(items),
            None => seq![],
        }),
{
    let mut slugs: Vec<String> = Vec::new();
    assert(texts(slugs@) =~= seq![]);
    if let Some(data) = value.get("data") {
        if let Some(items) = data.as_array() {
            let ghost all = views(items@);
            let mut index: usize = 0;
            assert(all.take(0) =~= seq![]);
            while index < items.len()
                invariant
                    index <= items@.len(),
                    all == views(items@),
                    texts(slugs@) == listed_ids(all.take(index as int)),
                decreases items@.len() - index,
            {
                let ghost before = texts(slugs@);
                assert(all.take(index + 1).drop_last() =~= all.take(index as int));
                assert(all.take(index + 1).last() == items@[index as int]@);
                if let Some(id) = items[index].get_text("id") {
                    let slug = trimmed(id);
                    if !slug.as_str().is_empty() {
                        let ghost view = slug@;
                        slugs.push(slug);
                        assert(texts(slugs@) =~= before.push(view));
                    }
                }
                index += 1;
            }
            assert(all.take(index as int) =~= all);
        }
    }
    slugs
}

/// The levels of a list but for the one of greatest effort.
pub open spec fn without_ultra(levels: Seq<JsonView>) -> Seq<JsonView>
    decreases levels.len(),
{
    if levels.len() == 0 {
        seq![]
    } else {
        let before = without_ultra(levels.drop_last());
        if levels.last().get_text("effort"@) == Some("ultra"@) {
            before
        } else {
            before.push(levels.last())
        }
    }
}

fn drop_ultra(levels: &Vec<Json>) -> (kept: Vec<Json>)
    ensures
        views(kept@) == without_ultra(views(levels@)),
{
    let ghost all = views(levels@);
    let mut kept: Vec<Json> = Vec::new();
    let mut index: usize = 0;
    assert(all.take(0) =~= seq![]);
    assert(views(kept@) =~= seq![]);
    while index < levels.len()
        invariant
            index <= levels@.len(),
            all == views(levels@),
            views(kept@) == without_ultra(all.take(index as int)),
        decreases levels@.len() - index,
    {
        let ghost before = views(kept@);
        assert(all.take(index + 1).drop_last() =~= all.take(index as int));
        assert(all.take(index + 1).last() == levels@[index as int]@);
        let ultra = match levels[index].get_text("effort") {
            Some(effort) => same(effort, "ultra"),
            None => false,
        };
        if !ultra {
            let level = levels[index].copy();
            let ghost view = level@;
            kept.push(level);
            assert(views(kept@) =~= before.push(view));
        }
        index += 1;
    }
    assert(all.take(index as int) =~= all);
    kept
}

/// Whether a value can serve as the template of a model: an object with a list of
/// reasoning levels.
pub open spec fn is_template(template: JsonView) -> bool {
    template is Object && items_in(template.get("supported_reasoning_levels"@)) is Some
}

/// A model of which only the id is known, made from a template. Unless it is
/// known to take the greatest effort, what depends on that is left out.
pub open spec fn model_of(template: JsonView, slug: Seq<char>, ultra: bool) -> JsonView {
    let named = template.with("slug"@, JsonView::Text(slug)).with(
        "display_name"@,
        JsonView::Text(slug),
    ).with("description"@, JsonView::Text(slug));
    if ultra {
        named
    } else {
        let plain = named.without("multi_agent_version"@);
        match items_in(plain.get("supported_reasoning_levels"@)) {
            Some(levels) => plain.with(
                "supported_reasoning_levels"@,
                JsonView::Array(without_ultra(levels)),
            ),
            None => plain,
        }
    }
}

/// A model of which only the id is known, made from a template.
pub fn model_from_template(template: &Json, slug: &str, ultra: bool) -> (model: Json)
    requires
        is_template(template@),
    ensures
        model@ == model_of(template@, slug@, ultra),
{
    let named = template.copy().with("slug", text(slug)).with("display_name", text(slug)).with(
        "description",
        text(slug),
    );
    if ultra {
        return named;
    }
    let plain = named.without("multi_agent_version");
    let levels = match plain.get("supported_reasoning_levels") {
        Some(value) => match value.as_array() {
            Some(levels) => Some(drop_ultra(levels)),
            None => None,
        },
        None => None,
    };
    match levels {
        Some(levels) => plain.with("supported_reasoning_levels", array(levels)),
        None => plain,
    }
}

/// The models that a plain list names, each made from a template.
pub open spec fn models_of(
    template: JsonView,
    slugs: Seq<Seq<char>>,
    ultra: Seq<Seq<char>>,
    count: int,
) -> Seq<JsonView>
    decreases count,
{
    if !(0 < count <= slugs.len()) {
        seq![]
    } else {
        models_of(template, slugs, ultra, count - 1).push(
            model_of(template, slugs[count - 1], ultra.contains(slugs[count - 1])),
        )
    }
}

/// A catalog with models: one that has them stays as it is, and a plain list is
/// given a model for each of its ids.
pub open spec fn adapted(value: JsonView, template: JsonView, ultra: Seq<Seq<char>>) -> JsonView {
    if items_in(value.get("models"@)) is Some {
        value
    } else {
        match items_in(value.get("data"@)) {
            Some(items) => value.with(
                "models"@,
                JsonView::Array(
                    models_of(
                        template,
                        listed_ids(items),
                        ultra,
                        listed_ids(items).len() as int,
                    ),
                ),
            ),
            None => value,
        }
    }
}

/// A catalog with models, given a template and the ids that are known to take the
/// greatest effort.
pub fn adapt_codex_model_catalog(value: Json, template: &Json, ultra: &Vec<String>) -> (catalog:
    Json)
    requires
        is_template(template@),
    ensures
        catalog@ == adapted(value@, template@, texts(ultra@)),
{
    if let Some(models) = value.get("models") {
        if models.as_array().is_some() {
            return value;
        }
    }
    let listed = match value.get("data") {
        Some(data) => data.as_array().is_some(),
        None => false,
    };
    if !listed {
        return value;
    }
    let slugs = listed_slugs(&value);
    let ghost all = texts(slugs@);
    let mut models: Vec<Json> = Vec::new();
    let mut index: usize = 0;
    assert(views(models@) =~= models_of(template@, all, texts(ultra@), 0));
    while index < slugs.len()
        invariant
            index <= slugs@.len(),
            is_template(template@),
            all == texts(slugs@),
            views(models@) == models_of(template@, all, texts(ultra@), index as int),
        decreases slugs@.len() - index,
    {
        let ghost before = views(models@);
        assert(all[index as int] == slugs@[index as int]@);
        let known = holds_name(ultra, slugs[index].as_str());
        let model = model_from_template(template, slugs[index].as_str(), known);
        let ghost view = model@;
        models.push(model);
        assert(views(models@) =~= before.push(view));
        index += 1;
    }
    assert(all.len() == slugs@.len());
    assert(value@ is Object);
    value.with("models", array(models))
}

/// Whether a model of a name is in a list.
pub open spec fn names_model(models: Seq<JsonView>, slug: Seq<char>) -> bool {
    exists|i: int| 0 <= i < models.len() && slug_of(#[trigger] models[i]) == Some(slug)
}

/// The models of a list with those of another that it does not name yet.
pub open spec fn joined_models(
    models: Seq<JsonView>,
    more: Seq<JsonView>,
    count: int,
) -> Seq<JsonView>
    decreases count,
{
    if !(0 < count <= more.len()) {
        models
    } else {
        let before = joined_models(models, more, count - 1);
        match slug_of(more[count - 1]) {
            Some(slug) if !names_model(before, slug) => before.push(more[count - 1]),
            _ => before,
        }
    }
}

/// The models of a list with those of other catalogs that it does not name yet.
pub open spec fn all_models(
    models: Seq<JsonView>,
    catalogs: Seq<JsonView>,
    count: int,
) -> Seq<JsonView>
    decreases count,
{
    if !(0 < count <= catalogs.len()) {
        models
    } else {
        let before = all_models(models, catalogs, count - 1);
        match items_in(catalogs[count - 1].get("models"@)) {
            Some(more) => joined_models(before, more, more.len() as int),
            None => before,
        }
    }
}

fn has_model(models: &Vec<Json>, slug: &str) -> (found: bool)
    ensures
        found == names_model(views(models@), slug@),
{
    let ghost all = views(models@);
    let mut index: usize = 0;
    while index < models.len()
        invariant
            index <= models@.len(),
            all == views(models@),
            forall|i: int| 0 <= i < index ==> slug_of(#[trigger] all[i]) != Some(slug@),
        decreases models@.len() - index,
    {
        assert(all[index as int] == models@[index as int]@);
        let found = match models[index].get_text("slug") {
            Some(other) => same(other, slug),
            None => false,
        };
        if found {
            return true;
        }
        index += 1;
    }
    false
}

fn join_models(models: &mut Vec<Json>, more: &Vec<Json>)
    ensures
        views(final(models)@) == joined_models(
            views(old(models)@),
            views(more@),
            more@.len() as int,
        ),
{
    let ghost first = views(models@);
    let ghost second = views(more@);
    let mut index: usize = 0;
    while index < more.len()
        invariant
            index <= more@.len(),
            second == views(more@),
            views(models@) == joined_models(first, second, index as int),
        decreases more@.len() - index,
    {
        let ghost before = views(models@);
        assert(second[index as int] == more@[index as int]@);
        if let Some(slug) = more[index].get_text("slug") {
            if !has_model(models, slug) {
                let model = more[index].copy();
                let ghost view = model@;
                models.push(model);
                assert(views(models@) =~= before.push(view));
            }
        }
        index += 1;
    }
}

/// The place of a model among those that come first.
pub open spec fn rank_of(slug: Option<Seq<char>>) -> int {
    match slug {
        Some(name) => if name == "gpt-6-astra"@ {
            0
        } else if name == "gpt-6-sol"@ {
            1
        } else if name == "gpt-6-luna"@ {
            2
        } else if name == "gpt-5.6-sol"@ {
            3
        } else if name == "gpt-5.6-terra"@ {
            4
        } else if name == "gpt-5.6-luna"@ {
            5
        } else {
            6
        },
        None => 6,
    }
}

fn rank(slug: Option<&str>) -> (place: u8)
    ensures
        place == rank_of(crate::json::str_view(slug)),
{
    match slug {
        Some(name) => if same(name, "gpt-6-astra") {
            0
        } else if same(name, "gpt-6-sol") {
            1
        } else if same(name, "gpt-6-luna") {
            2
        } else if same(name, "gpt-5.6-sol") {
            3
        } else if same(name, "gpt-5.6-terra") {
            4
        } else if same(name, "gpt-5.6-luna") {
            5
        } else {
            6
        },
        None => 6,
    }
}

/// Whether one name of a model comes before another; one without a name comes
/// first.
pub open spec fn slug_less(left: Option<Seq<char>>, right: Option<Seq<char>>) -> bool {
    match (left, right) {
        (None, Some(_)) => true,
        (Some(a), Some(b)) => key_less(a, b),
        _ => false,
    }
}

/// Whether one model comes before another in a catalog: by its place among those
/// that come first, and then by its name.
pub open spec fn model_precedes(left: JsonView, right: JsonView) -> bool {
    let a = rank_of(slug_of(left));
    let b = rank_of(slug_of(right));
    a < b || (a == b && slug_less(slug_of(left), slug_of(right)))
}

fn model_goes_before(left: &Json, right: &Json) -> (before: bool)
    ensures
        before == model_precedes(left@, right@),
{
    let left_slug = left.get_text("slug");
    let right_slug = right.get_text("slug");
    let a: u8 = rank(left_slug);
    let b: u8 = rank(right_slug);
    a < b || (a == b && match (left_slug, right_slug) {
        (None, Some(_)) => true,
        (Some(first), Some(second)) => name_less(first, second),
        _ => false,
    })
}

/// A list in order with one more model put in, behind those that it does not
/// precede.
pub open spec fn model_inserted(models: Seq<JsonView>, model: JsonView) -> Seq<JsonView>
    decreases models.len(),
{
    if models.len() == 0 {
        seq![model]
    } else if model_precedes(model, models.last()) {
        model_inserted(models.drop_last(), model).push(models.last())
    } else {
        models.push(model)
    }
}

/// A list of models put in order; of two of which neither precedes the other the
/// first stays first.
pub open spec fn models_in_order(models: Seq<JsonView>) -> Seq<JsonView>
    decreases models.len(),
{
    if models.len() == 0 {
        models
    } else {
        model_inserted(models_in_order(models.drop_last()), models.last())
    }
}

proof fn lemma_model_inserted(models: Seq<JsonView>, model: JsonView, position: int)
    requires
        0 <= position <= models.len(),
        forall|i: int| position <= i < models.len() ==> model_precedes(model, #[trigger] models[i]),
        position > 0 ==> !model_precedes(model, models[position - 1]),
    ensures
        model_inserted(models, model) == models.insert(position, model),
    decreases models.len(),
{
    if models.len() == 0 {
        assert(seq![model] =~= models.insert(0, model));
    } else if position < models.len() {
        let front = models.drop_last();
        assert forall|i: int| position <= i < front.len() implies model_precedes(
            model,
            #[trigger] front[i],
        ) by {
            assert(front[i] == models[i]);
        }
        assert(model_precedes(model, models[models.len() - 1]));
        lemma_model_inserted(front, model, position);
        assert(front.insert(position, model).push(models.last()) =~= models.insert(
            position,
            model,
        ));
    } else {
        assert(models.push(model) =~= models.insert(position, model));
    }
}

fn sort_models(models: Vec<Json>) -> (result: Vec<Json>)
    ensures
        views(result@) == models_in_order(views(models@)),
{
    let ghost all = views(models@);
    let mut rest = models;
    let mut result: Vec<Json> = Vec::new();
    let ghost mut done: int = 0;
    assert(views(result@) =~= models_in_order(all.take(0)));
    assert(all.skip(0) =~= all);
    while rest.len() > 0
        invariant
            0 <= done <= all.len(),
            views(rest@) == all.skip(done),
            views(result@) == models_in_order(all.take(done)),
        decreases rest@.len(),
    {
        let ghost current = views(result@);
        assert(views(rest@).len() == rest@.len());
        assert(views(rest@)[0] == rest@[0]@);
        assert(all.skip(done)[0] == all[done]);
        let model = rest.remove(0);
        let ghost view = model@;
        let mut position: usize = result.len();
        while position > 0 && model_goes_before(&model, &result[position - 1])
            invariant
                position <= result@.len(),
                current == views(result@),
                view == model@,
                forall|i: int|
                    position <= i < current.len() ==> model_precedes(view, #[trigger] current[i]),
            decreases position,
        {
            assert(current[position - 1] == result@[position - 1]@);
            position -= 1;
        }
        proof {
            if position > 0 {
                assert(current[position - 1] == result@[position - 1]@);
            }
            lemma_model_inserted(current, view, position as int);
        }
        result.insert(position, model);
        proof {
            assert(views(result@) =~= current.insert(position as int, view));
            assert(all.take(done + 1).drop_last() =~= all.take(done));
            assert(all.take(done + 1).last() == view);
            assert(views(rest@) =~= all.skip(done).skip(1));
            assert(all.skip(done).skip(1) =~= all.skip(done + 1));
            done = done + 1;
        }
    }
    assert(all.take(done) =~= all);
    result
}

/// A model with its place in the catalog. One that is missing becomes an object.
pub open spec fn placed_model(model: JsonView, place: int) -> JsonView {
    (if model is Null {
        obj()
    } else {
        model
    }).with("priority"@, JsonView::Number(JsonNumber::Unsigned(place as u64)))
}

/// The models of a list up to one of them, each with its place.
pub open spec fn placed_models(models: Seq<JsonView>, count: int) -> Seq<JsonView>
    decreases count,
{
    if !(0 < count <= models.len()) {
        seq![]
    } else {
        placed_models(models, count - 1).push(placed_model(models[count - 1], count - 1))
    }
}

/// A catalog with the models of others that it does not name, in an order that
/// does not depend on whose they are, and numbered. One without models stays as
/// it is.
pub open spec fn joined_catalog(primary: JsonView, catalogs: Seq<JsonView>) -> JsonView {
    match items_in(primary.get("models"@)) {
        Some(models) => {
            let in_order = models_in_order(all_models(models, catalogs, catalogs.len() as int));
            primary.with(
                "models"@,
                JsonView::Array(placed_models(in_order, in_order.len() as int)),
            )
        },
        None => primary,
    }
}

/// Catalogs with models, each as `adapted` says.
pub open spec fn all_adapted(
    catalogs: Seq<JsonView>,
    template: JsonView,
    ultra: Seq<Seq<char>>,
) -> Seq<JsonView> {
    Seq::new(catalogs.len(), |i: int| adapted(catalogs[i], template, ultra))
}

/// The catalog that a catalog and others become: each is given models where it is
/// a plain list, and those of the others that the first does not name are added.
pub open spec fn merged(
    primary: JsonView,
    catalogs: Seq<JsonView>,
    template: JsonView,
    ultra: Seq<Seq<char>>,
) -> JsonView {
    joined_catalog(
        adapted(primary, template, ultra),
        all_adapted(catalogs, template, ultra),
    )
}

/// Whether every model of a list can be numbered.
pub open spec fn numberable(models: Seq<JsonView>) -> bool {
    forall|i: int| 0 <= i < models.len() ==> (#[trigger] models[i]) is Object || models[i] is Null
}

/// Whether every model of a catalog can be numbered.
pub open spec fn numberable_catalog(catalog: JsonView) -> bool {
    match items_in(catalog.get("models"@)) {
        Some(models) => numberable(models),
        None => true,
    }
}

/// Whether every model of a catalog can be numbered.
pub fn can_merge(primary: &Json) -> (can: bool)
    ensures
        can == numberable_catalog(primary@),
{
    if let Some(value) = primary.get("models") {
        if let Some(models) = value.as_array() {
            let ghost all = views(models@);
            let mut index: usize = 0;
            while index < models.len()
                invariant
                    index <= models@.len(),
                    all == views(models@),
                    items_in(primary@.get("models"@)) == Some(all),
                    forall|i: int| 0 <= i < index ==> (#[trigger] all[i]) is Object || all[i] is Null,
                decreases models@.len() - index,
            {
                assert(all[index as int] == models@[index as int]@);
                if !models[index].is_object() && !models[index].is_null() {
                    assert(!numberable(all));
                    return false;
                }
                index += 1;
            }
        }
    }
    true
}

proof fn lemma_joined_numberable(models: Seq<JsonView>, more: Seq<JsonView>, count: int)
    requires
        numberable(models),
    ensures
        numberable(joined_models(models, more, count)),
    decreases count,
{
    if 0 < count <= more.len() {
        lemma_joined_numberable(models, more, count - 1);
    }
}

proof fn lemma_all_numberable(models: Seq<JsonView>, catalogs: Seq<JsonView>, count: int)
    requires
        numberable(models),
    ensures
        numberable(all_models(models, catalogs, count)),
    decreases count,
{
    if 0 < count <= catalogs.len() {
        lemma_all_numberable(models, catalogs, count - 1);
        if let Some(more) = items_in(catalogs[count - 1].get("models"@)) {
            lemma_joined_numberable(
                all_models(models, catalogs, count - 1),
                more,
                more.len() as int,
            );
        }
    }
}

proof fn lemma_inserted_numberable(models: Seq<JsonView>, model: JsonView)
    requires
        numberable(models),
        model is Object || model is Null,
    ensures
        numberable(model_inserted(models, model)),
    decreases models.len(),
{
    if models.len() > 0 && model_precedes(model, models.last()) {
        assert(numberable(models.drop_last()));
        lemma_inserted_numberable(models.drop_last(), model);
    }
}

proof fn lemma_sorted_numberable(models: Seq<JsonView>)
    requires
        numberable(models),
    ensures
        numberable(models_in_order(models)),
    decreases models.len(),
{
    if models.len() > 0 {
        assert(numberable(models.drop_last()));
        lemma_sorted_numberable(models.drop_last());
        lemma_inserted_numberable(models_in_order(models.drop_last()), models.last());
    }
}

/// A catalog with the models of others that it does not name, in order and
/// numbered.
fn join_catalogs(primary: Json, catalogs: &Vec<Json>) -> (catalog: Json)
    requires
        numberable_catalog(primary@),
    ensures
        catalog@ == joined_catalog(primary@, views(catalogs@)),
{
    let own = match primary.get("models") {
        Some(value) => match value.as_array() {
            Some(models) => copy_all(models),
            None => {
                return primary;
            },
        },
        None => {
            return primary;
        },
    };
    let ghost first = views(own@);
    let ghost others = views(catalogs@);
    let mut models = own;
    let mut index: usize = 0;
    while index < catalogs.len()
        invariant
            index <= catalogs@.len(),
            others == views(catalogs@),
            views(models@) == all_models(first, others, index as int),
        decreases catalogs@.len() - index,
    {
        assert(others[index as int] == catalogs@[index as int]@);
        if let Some(value) = catalogs[index].get("models") {
            if let Some(more) = value.as_array() {
                join_models(&mut models, more);
            }
        }
        index += 1;
    }
    proof {
        lemma_all_numberable(first, others, others.len() as int);
        lemma_sorted_numberable(all_models(first, others, others.len() as int));
    }
    let mut rest = sort_models(models);
    let ghost in_order = views(rest@);
    let mut placed: Vec<Json> = Vec::new();
    let mut place: u64 = 0;
    assert(views(placed@) =~= placed_models(in_order, 0));
    assert(in_order.skip(0) =~= in_order);
    assert(in_order.len() == rest@.len());
    let total: usize = rest.len();
    while rest.len() > 0
        invariant
            place <= in_order.len(),
            in_order.len() == total,
            views(rest@) == in_order.skip(place as int),
            numberable(in_order),
            views(placed@) == placed_models(in_order, place as int),
        decreases rest@.len(),
    {
        let ghost before = views(placed@);
        assert(views(rest@).len() == rest@.len());
        assert(views(rest@)[0] == rest@[0]@);
        assert(in_order.skip(place as int)[0] == in_order[place as int]);
        let model = rest.remove(0);
        let base = if model.is_null() {
            crate::json::object()
        } else {
            model
        };
        let numbered = base.with("priority", unsigned(place));
        let ghost view = numbered@;
        placed.push(numbered);
        proof {
            assert(views(placed@) =~= before.push(view));
            assert(views(rest@) =~= in_order.skip(place as int).skip(1));
            assert(in_order.skip(place as int).skip(1) =~= in_order.skip(place + 1));
        }
        place += 1;
    }
    assert(primary@ is Object);
    primary.with("models", array(placed))
}

proof fn lemma_models_are_numberable(
    template: JsonView,
    slugs: Seq<Seq<char>>,
    ultra: Seq<Seq<char>>,
    count: int,
)
    requires
        template is Object,
    ensures
        numberable(models_of(template, slugs, ultra, count)),
    decreases count,
{
    if 0 < count <= slugs.len() {
        lemma_models_are_numberable(template, slugs, ultra, count - 1);
    }
}

/// A catalog can be numbered once it was given models, if its own models, where
/// it has any, can be.
pub proof fn law_adapted_catalogs_can_be_merged(
    value: JsonView,
    template: JsonView,
    ultra: Seq<Seq<char>>,
)
    requires
        is_template(template),
        numberable_catalog(value),
    ensures
        numberable_catalog(adapted(value, template, ultra)),
{
    if items_in(value.get("models"@)) is None {
        if let Some(items) = items_in(value.get("data"@)) {
            let slugs = listed_ids(items);
            let models = models_of(template, slugs, ultra, slugs.len() as int);
            lemma_models_are_numberable(template, slugs, ultra, slugs.len() as int);
            law_set_then_get(value->Object_0, "models"@, JsonView::Array(models));
        }
    }
}

/// A catalog that was given models is not changed by being given models again.
pub proof fn law_catalogs_are_adapted_once(
    value: JsonView,
    template: JsonView,
    ultra: Seq<Seq<char>>,
)
    ensures
        adapted(adapted(value, template, ultra), template, ultra) == adapted(
            value,
            template,
            ultra,
        ),
{
    if items_in(value.get("models"@)) is None {
        if let Some(items) = items_in(value.get("data"@)) {
            let slugs = listed_ids(items);
            let models = models_of(template, slugs, ultra, slugs.len() as int);
            law_set_then_get(value->Object_0, "models"@, JsonView::Array(models));
        }
    }
}

/// The catalog that a catalog and others become, given a template and the ids
/// that are known to take the greatest effort.
pub fn merge_codex_catalogs(
    primary: Json,
    catalogs: &Vec<Json>,
    template: &Json,
    ultra: &Vec<String>,
) -> (catalog: Json)
    requires
        is_template(template@),
        numberable_catalog(primary@),
    ensures
        catalog@ == merged(primary@, views(catalogs@), template@, texts(ultra@)),
{
    proof {
        law_adapted_catalogs_can_be_merged(primary@, template@, texts(ultra@));
    }
    let first = adapt_codex_model_catalog(primary, template, ultra);
    let ghost wanted = all_adapted(views(catalogs@), template@, texts(ultra@));
    let mut others: Vec<Json> = Vec::new();
    let mut index: usize = 0;
    while index < catalogs.len()
        invariant
            index <= catalogs@.len(),
            is_template(template@),
            wanted == all_adapted(views(catalogs@), template@, texts(ultra@)),
            others@.len() == index,
            forall|i: int| 0 <= i < index ==> (#[trigger] others@[i])@ == wanted[i],
        decreases catalogs@.len() - index,
    {
        assert(views(catalogs@)[index as int] == catalogs@[index as int]@);
        others.push(adapt_codex_model_catalog(catalogs[index].copy(), template, ultra));
        index += 1;
    }
    assert(views(others@) =~= wanted);
    join_catalogs(first, &others)
}

/// A catalog whose models were repaired.
pub fn with_repaired_models(catalog: Json, repaired: Vec<Json>) -> (result: Json)
    ensures
        result@ == (if items_in(catalog@.get("models"@)) is Some {
            catalog@.with("models"@, JsonView::Array(views(repaired@)))
        } else {
            catalog@
        }),
{
    let listed = match catalog.get("models") {
        Some(models) => models.as_array().is_some(),
        None => false,
    };
    if listed {
        catalog.with("models", array(repaired))
    } else {
        catalog
    }
}

/// Whether every model of a list has a name, and no two the same.
pub open spec fn slugs_differ(models: Seq<JsonView>) -> bool {
    &&& forall|i: int| 0 <= i < models.len() ==> slug_of(#[trigger] models[i]) is Some
    &&& forall|i: int, j: int|
        0 <= i < j < models.len() ==> slug_of(#[trigger] models[i]) != slug_of(
            #[trigger] models[j],
        )
}

/// Whether the models of the same name in two lists are the same.
pub open spec fn agree(left: Seq<JsonView>, right: Seq<JsonView>) -> bool {
    forall|i: int, j: int|
        #![trigger left[i], right[j]]
        0 <= i < left.len() && 0 <= j < right.len() && slug_of(left[i]) == slug_of(right[j])
            ==> left[i] == right[j]
}

spec fn ascends(models: Seq<JsonView>) -> bool {
    forall|i: int, j: int|
        0 <= i < j < models.len() ==> model_precedes(#[trigger] models[i], #[trigger] models[j])
}

proof fn lemma_precedes(left: JsonView, right: JsonView)
    requires
        slug_of(left) is Some,
        slug_of(right) is Some,
    ensures
        slug_of(left) != slug_of(right) ==> model_precedes(left, right) || model_precedes(
            right,
            left,
        ),
        !(model_precedes(left, right) && model_precedes(right, left)),
        model_precedes(left, right) ==> left != right,
{
    lemma_key_less_total(slug_of(left)->Some_0, slug_of(right)->Some_0);
}

proof fn lemma_precedes_carries(first: JsonView, second: JsonView, third: JsonView)
    requires
        slug_of(first) is Some,
        slug_of(second) is Some,
        slug_of(third) is Some,
        model_precedes(first, second),
        model_precedes(second, third),
    ensures
        model_precedes(first, third),
{
    let a = slug_of(first)->Some_0;
    let b = slug_of(second)->Some_0;
    let c = slug_of(third)->Some_0;
    if key_less(a, b) && key_less(b, c) {
        lemma_key_less_carries(a, b, c);
    }
}

proof fn lemma_inserted_model(models: Seq<JsonView>, model: JsonView)
    requires
        ascends(models),
        forall|i: int| 0 <= i < models.len() ==> slug_of(#[trigger] models[i]) is Some,
        slug_of(model) is Some,
        forall|i: int| 0 <= i < models.len() ==> slug_of(#[trigger] models[i]) != slug_of(model),
    ensures
        ascends(model_inserted(models, model)),
        forall|other: JsonView|
            #![trigger model_inserted(models, model).contains(other)]
            model_inserted(models, model).contains(other) <==> models.contains(other) || other
                == model,
    decreases models.len(),
{
    let result = model_inserted(models, model);
    if models.len() == 0 {
        assert(result[0] == model);
    } else {
        let last = models.last();
        let front = models.drop_last();
        assert(last == models[models.len() - 1]);
        lemma_precedes(model, last);
        if model_precedes(model, last) {
            assert forall|i: int, j: int| 0 <= i < j < front.len() implies model_precedes(
                #[trigger] front[i],
                #[trigger] front[j],
            ) by {
                assert(model_precedes(models[i], models[j]));
            }
            assert forall|i: int| 0 <= i < front.len() implies slug_of(#[trigger] front[i]) is Some
                && slug_of(front[i]) != slug_of(model) by {
                assert(front[i] == models[i]);
            }
            lemma_inserted_model(front, model);
            let before = model_inserted(front, model);
            assert forall|i: int, j: int| 0 <= i < j < result.len() implies model_precedes(
                #[trigger] result[i],
                #[trigger] result[j],
            ) by {
                if j < before.len() {
                    assert(model_precedes(before[i], before[j]));
                } else {
                    assert(before.contains(before[i]));
                    if before[i] != model {
                        let k = choose|k: int| 0 <= k < front.len() && front[k] == before[i];
                        assert(model_precedes(models[k], models[models.len() - 1]));
                    }
                }
            }
            assert forall|other: JsonView|
                #![trigger result.contains(other)]
                result.contains(other) <==> models.contains(other) || other == model by {
                lemma_push_contains(before, last, other);
                lemma_push_contains(front, last, other);
                assert(front.push(last) =~= models);
                assert(before.contains(other) <==> front.contains(other) || other == model);
            }
        } else {
            assert forall|i: int, j: int| 0 <= i < j < result.len() implies model_precedes(
                #[trigger] result[i],
                #[trigger] result[j],
            ) by {
                if j < models.len() {
                    assert(model_precedes(models[i], models[j]));
                } else if i < models.len() - 1 {
                    assert(model_precedes(models[i], models[models.len() - 1]));
                    lemma_precedes_carries(models[i], last, model);
                }
            }
            assert forall|other: JsonView|
                #![trigger result.contains(other)]
                result.contains(other) <==> models.contains(other) || other == model by {
                lemma_push_contains(models, model, other);
            }
        }
    }
}

proof fn lemma_push_contains(models: Seq<JsonView>, model: JsonView, other: JsonView)
    ensures
        models.push(model).contains(other) <==> models.contains(other) || other == model,
{
    let result = models.push(model);
    if models.contains(other) {
        let i = choose|i: int| 0 <= i < models.len() && models[i] == other;
        assert(result[i] == other);
    }
    if other == model {
        assert(result[models.len() as int] == other);
    }
    if result.contains(other) {
        let i = choose|i: int| 0 <= i < result.len() && result[i] == other;
        if i < models.len() {
            assert(models[i] == other);
        }
    }
}

proof fn lemma_models_in_order(models: Seq<JsonView>)
    requires
        slugs_differ(models),
    ensures
        ascends(models_in_order(models)),
        forall|other: JsonView|
            #![trigger models_in_order(models).contains(other)]
            models_in_order(models).contains(other) <==> models.contains(other),
    decreases models.len(),
{
    if models.len() > 0 {
        let front = models.drop_last();
        let last = models.last();
        assert(last == models[models.len() - 1]);
        assert forall|i: int| 0 <= i < front.len() implies slug_of(#[trigger] front[i]) is Some by {
            assert(front[i] == models[i]);
        }
        assert forall|i: int, j: int| 0 <= i < j < front.len() implies slug_of(#[trigger] front[i])
            != slug_of(#[trigger] front[j]) by {
            assert(slug_of(models[i]) != slug_of(models[j]));
        }
        lemma_models_in_order(front);
        let before = models_in_order(front);
        assert forall|i: int| 0 <= i < before.len() implies slug_of(#[trigger] before[i]) is Some
            && slug_of(before[i]) != slug_of(last) by {
            assert(before.contains(before[i]));
            let k = choose|k: int| 0 <= k < front.len() && front[k] == before[i];
            assert(slug_of(models[k]) != slug_of(models[models.len() - 1]));
        }
        lemma_inserted_model(before, last);
        assert forall|other: JsonView|
            #![trigger models_in_order(models).contains(other)]
            models_in_order(models).contains(other) <==> models.contains(other) by {
            lemma_push_contains(front, last, other);
            assert(front.push(last) =~= models);
            assert(before.contains(other) <==> front.contains(other));
        }
    }
}

proof fn lemma_same_order(left: Seq<JsonView>, right: Seq<JsonView>)
    requires
        ascends(left),
        ascends(right),
        forall|i: int| 0 <= i < left.len() ==> slug_of(#[trigger] left[i]) is Some,
        forall|i: int| 0 <= i < right.len() ==> slug_of(#[trigger] right[i]) is Some,
        forall|model: JsonView|
            #![trigger left.contains(model)]
            left.contains(model) <==> right.contains(model),
    ensures
        left == right,
    decreases left.len(),
{
    if left.len() == 0 {
        if right.len() > 0 {
            assert(right.contains(right[0]));
            assert(left.contains(right[0]));
        }
        assert(left =~= right);
    } else {
        let a = left.last();
        assert(left[left.len() - 1] == a);
        assert(left.contains(a));
        let i = choose|i: int| 0 <= i < right.len() && right[i] == a;
        let b = right.last();
        assert(right[right.len() - 1] == b);
        assert(right.contains(b));
        assert(left.contains(b));
        let j = choose|j: int| 0 <= j < left.len() && left[j] == b;
        if a != b {
            assert(model_precedes(right[i], right[right.len() - 1]));
            assert(model_precedes(left[j], left[left.len() - 1]));
            lemma_precedes(a, b);
        }
        let left_front = left.drop_last();
        let right_front = right.drop_last();
        assert forall|m: int, n: int| 0 <= m < n < left_front.len() implies model_precedes(
            #[trigger] left_front[m],
            #[trigger] left_front[n],
        ) by {
            assert(model_precedes(left[m], left[n]));
        }
        assert forall|m: int, n: int| 0 <= m < n < right_front.len() implies model_precedes(
            #[trigger] right_front[m],
            #[trigger] right_front[n],
        ) by {
            assert(model_precedes(right[m], right[n]));
        }
        assert forall|m: int| 0 <= m < left_front.len() implies slug_of(
            #[trigger] left_front[m],
        ) is Some by {
            assert(left_front[m] == left[m]);
        }
        assert forall|m: int| 0 <= m < right_front.len() implies slug_of(
            #[trigger] right_front[m],
        ) is Some by {
            assert(right_front[m] == right[m]);
        }
        assert forall|model: JsonView|
            #![trigger left_front.contains(model)]
            left_front.contains(model) <==> right_front.contains(model) by {
            lemma_push_contains(left_front, a, model);
            lemma_push_contains(right_front, a, model);
            assert(left_front.push(a) =~= left);
            assert(right_front.push(a) =~= right);
            assert(left.contains(model) <==> right.contains(model));
            if left_front.contains(a) {
                let m = choose|m: int| 0 <= m < left_front.len() && left_front[m] == a;
                assert(model_precedes(left[m], left[left.len() - 1]));
                lemma_precedes(a, a);
            }
            if right_front.contains(a) {
                let m = choose|m: int| 0 <= m < right_front.len() && right_front[m] == a;
                assert(model_precedes(right[m], right[right.len() - 1]));
                lemma_precedes(a, a);
            }
        }
        lemma_same_order(left_front, right_front);
        assert(left_front.push(a) =~= left);
        assert(right_front.push(a) =~= right);
    }
}

proof fn lemma_joined_models(models: Seq<JsonView>, more: Seq<JsonView>, count: int)
    requires
        slugs_differ(models),
        slugs_differ(more),
        agree(models, more),
        0 <= count <= more.len(),
    ensures
        slugs_differ(joined_models(models, more, count)),
        forall|model: JsonView|
            #![trigger joined_models(models, more, count).contains(model)]
            joined_models(models, more, count).contains(model) <==> models.contains(model)
                || more.take(count).contains(model),
    decreases count,
{
    let result = joined_models(models, more, count);
    if count == 0 {
        assert(more.take(0) =~= seq![]);
    } else {
        lemma_joined_models(models, more, count - 1);
        let before = joined_models(models, more, count - 1);
        let next = more[count - 1];
        let slug = slug_of(next)->Some_0;
        let named = names_model(before, slug);
        assert forall|model: JsonView|
            #![trigger result.contains(model)]
            result.contains(model) <==> models.contains(model) || more.take(count).contains(
                model,
            ) by {
            assert(more.take(count) =~= more.take(count - 1).push(next));
            lemma_push_contains(more.take(count - 1), next, model);
            assert(before.contains(model) <==> models.contains(model) || more.take(
                count - 1,
            ).contains(model));
            if named {
                let i = choose|i: int|
                    0 <= i < before.len() && slug_of(#[trigger] before[i]) == Some(slug);
                assert(before.contains(before[i]));
                if models.contains(before[i]) {
                    let k = choose|k: int| 0 <= k < models.len() && models[k] == before[i];
                    assert(models[k] == more[count - 1]);
                } else {
                    let earlier = more.take(count - 1);
                    assert(earlier.contains(before[i]));
                    let k = choose|k: int| 0 <= k < earlier.len() && earlier[k] == before[i];
                    assert(slug_of(more[k]) != slug_of(more[count - 1]));
                }
                assert(before.contains(next));
            } else {
                lemma_push_contains(before, next, model);
            }
        }
        if !named {
            assert forall|i: int, j: int| 0 <= i < j < result.len() implies slug_of(
                #[trigger] result[i],
            ) != slug_of(#[trigger] result[j]) by {
                if j < before.len() {
                    assert(slug_of(before[i]) != slug_of(before[j]));
                } else {
                    assert(before[i] == result[i]);
                }
            }
        }
    }
}

/// Which of two catalogs comes first does not matter for the models of the
/// catalog that they become, nor for their order.
pub proof fn law_catalog_order_does_not_matter(
    first: JsonView,
    second: JsonView,
    template: JsonView,
    ultra: Seq<Seq<char>>,
)
    requires
        items_in(adapted(first, template, ultra).get("models"@)) is Some,
        items_in(adapted(second, template, ultra).get("models"@)) is Some,
        slugs_differ(items_in(adapted(first, template, ultra).get("models"@))->Some_0),
        slugs_differ(items_in(adapted(second, template, ultra).get("models"@))->Some_0),
        agree(
            items_in(adapted(first, template, ultra).get("models"@))->Some_0,
            items_in(adapted(second, template, ultra).get("models"@))->Some_0,
        ),
    ensures
        merged(first, seq![second], template, ultra).get("models"@) == merged(
            second,
            seq![first],
            template,
            ultra,
        ).get("models"@),
{
    let left = adapted(first, template, ultra);
    let right = adapted(second, template, ultra);
    assert(all_adapted(seq![second], template, ultra) =~= seq![right]);
    assert(all_adapted(seq![first], template, ultra) =~= seq![left]);
    lemma_joined_order(left, right);
}

proof fn lemma_joined_order(left: JsonView, right: JsonView)
    requires
        items_in(left.get("models"@)) is Some,
        items_in(right.get("models"@)) is Some,
        slugs_differ(items_in(left.get("models"@))->Some_0),
        slugs_differ(items_in(right.get("models"@))->Some_0),
        agree(items_in(left.get("models"@))->Some_0, items_in(right.get("models"@))->Some_0),
    ensures
        joined_catalog(left, seq![right]).get("models"@) == joined_catalog(
            right,
            seq![left],
        ).get("models"@),
{
    let a = items_in(left.get("models"@))->Some_0;
    let b = items_in(right.get("models"@))->Some_0;
    assert(agree(b, a)) by {
        assert forall|i: int, j: int|
            #![trigger b[i], a[j]]
            0 <= i < b.len() && 0 <= j < a.len() && slug_of(b[i]) == slug_of(a[j]) implies b[i]
            == a[j] by {
            assert(slug_of(a[j]) == slug_of(b[i]));
        }
    }
    let first = joined_models(a, b, b.len() as int);
    let second = joined_models(b, a, a.len() as int);
    lemma_joined_models(a, b, b.len() as int);
    lemma_joined_models(b, a, a.len() as int);
    assert(b.take(b.len() as int) =~= b);
    assert(a.take(a.len() as int) =~= a);
    assert(all_models(a, seq![right], 0) == a);
    assert(all_models(a, seq![right], 1) == first);
    assert(all_models(b, seq![left], 0) == b);
    assert(all_models(b, seq![left], 1) == second);
    lemma_models_in_order(first);
    lemma_models_in_order(second);
    let left_order = models_in_order(first);
    let right_order = models_in_order(second);
    assert forall|i: int| 0 <= i < left_order.len() implies slug_of(
        #[trigger] left_order[i],
    ) is Some by {
        assert(left_order.contains(left_order[i]));
        let k = choose|k: int| 0 <= k < first.len() && first[k] == left_order[i];
        assert(slug_of(first[k]) is Some);
    }
    assert forall|i: int| 0 <= i < right_order.len() implies slug_of(
        #[trigger] right_order[i],
    ) is Some by {
        assert(right_order.contains(right_order[i]));
        let k = choose|k: int| 0 <= k < second.len() && second[k] == right_order[i];
        assert(slug_of(second[k]) is Some);
    }
    assert forall|model: JsonView|
        #![trigger left_order.contains(model)]
        left_order.contains(model) <==> right_order.contains(model) by {
        assert(left_order.contains(model) <==> first.contains(model));
        assert(right_order.contains(model) <==> second.contains(model));
        assert(first.contains(model) <==> a.contains(model) || b.contains(model));
        assert(second.contains(model) <==> b.contains(model) || a.contains(model));
    }
    lemma_same_order(left_order, right_order);
    let models = JsonView::Array(placed_models(left_order, left_order.len() as int));
    law_set_then_get(left->Object_0, "models"@, models);
    law_set_then_get(right->Object_0, "models"@, models);
}

proof fn lemma_model_slug(template: JsonView, slug: Seq<char>, ultra: bool)
    requires
        is_template(template),
    ensures
        slug_of(model_of(template, slug, ultra)) == Some(slug),
{
    reveal_strlit("slug");
    reveal_strlit("display_name");
    reveal_strlit("description");
    reveal_strlit("multi_agent_version");
    reveal_strlit("supported_reasoning_levels");
    assert("slug"@.len() == 4 && "display_name"@.len() == 12 && "description"@.len() == 11);
    assert("multi_agent_version"@.len() == 19);
    assert("supported_reasoning_levels"@.len() == 26);
    let name = JsonView::Text(slug);
    let a = template.with("slug"@, name);
    let b = a.with("display_name"@, name);
    let named = b.with("description"@, name);
    lemma_with_field(template, "slug"@, name, "slug"@);
    lemma_with_field(a, "display_name"@, name, "slug"@);
    lemma_with_field(b, "description"@, name, "slug"@);
    let plain = named.without("multi_agent_version"@);
    law_remove_keeps_others(named->Object_0, "multi_agent_version"@, "slug"@);
    if let Some(levels) = items_in(plain.get("supported_reasoning_levels"@)) {
        lemma_with_field(
            plain,
            "supported_reasoning_levels"@,
            JsonView::Array(without_ultra(levels)),
            "slug"@,
        );
    }
}

proof fn lemma_models_of(
    template: JsonView,
    slugs: Seq<Seq<char>>,
    ultra: Seq<Seq<char>>,
    count: int,
)
    requires
        is_template(template),
        0 <= count <= slugs.len(),
    ensures
        models_of(template, slugs, ultra, count).len() == count,
        forall|i: int|
            0 <= i < count ==> (#[trigger] models_of(template, slugs, ultra, count)[i]) == model_of(
                template,
                slugs[i],
                ultra.contains(slugs[i]),
            ),
    decreases count,
{
    if count > 0 {
        lemma_models_of(template, slugs, ultra, count - 1);
    }
}

/// Whether a catalog is a plain list that names no id twice.
pub open spec fn plain_list(catalog: JsonView) -> bool {
    &&& items_in(catalog.get("models"@)) is None
    &&& items_in(catalog.get("data"@)) matches Some(items) && listed_ids(items).no_duplicates()
}

proof fn lemma_plain_models(
    catalog: JsonView,
    template: JsonView,
    ultra: Seq<Seq<char>>,
) -> (models: Seq<JsonView>)
    requires
        is_template(template),
        plain_list(catalog),
    ensures
        items_in(adapted(catalog, template, ultra).get("models"@)) == Some(models),
        slugs_differ(models),
        forall|i: int|
            0 <= i < models.len() ==> slug_of(#[trigger] models[i]) is Some && models[i]
                == model_of(
                template,
                slug_of(models[i])->Some_0,
                ultra.contains(slug_of(models[i])->Some_0),
            ),
{
    let slugs = listed_ids(items_in(catalog.get("data"@))->Some_0);
    let models = models_of(template, slugs, ultra, slugs.len() as int);
    law_set_then_get(catalog->Object_0, "models"@, JsonView::Array(models));
    lemma_models_of(template, slugs, ultra, slugs.len() as int);
    assert forall|i: int| 0 <= i < models.len() implies slug_of(#[trigger] models[i]) == Some(
        slugs[i],
    ) by {
        lemma_model_slug(template, slugs[i], ultra.contains(slugs[i]));
    }
    models
}

/// Two plain lists of ids become the same models in the same order, whichever
/// comes first.
pub proof fn law_plain_lists_merge_alike(
    first: JsonView,
    second: JsonView,
    template: JsonView,
    ultra: Seq<Seq<char>>,
)
    requires
        is_template(template),
        plain_list(first),
        plain_list(second),
    ensures
        merged(first, seq![second], template, ultra).get("models"@) == merged(
            second,
            seq![first],
            template,
            ultra,
        ).get("models"@),
{
    let left = lemma_plain_models(first, template, ultra);
    let right = lemma_plain_models(second, template, ultra);
    assert(agree(left, right));
    law_catalog_order_does_not_matter(first, second, template, ultra);
}

proof fn lemma_joined_names(
    models: Seq<JsonView>,
    more: Seq<JsonView>,
    count: int,
    slug: Seq<char>,
)
    requires
        0 <= count <= more.len(),
        names_model(models, slug) || exists|j: int|
            0 <= j < count && slug_of(#[trigger] more[j]) == Some(slug),
    ensures
        names_model(joined_models(models, more, count), slug),
    decreases count,
{
    if count > 0 {
        let before = joined_models(models, more, count - 1);
        let after = joined_models(models, more, count);
        let last = more[count - 1];
        if names_model(models, slug) || exists|j: int|
            0 <= j < count - 1 && slug_of(#[trigger] more[j]) == Some(slug) {
            lemma_joined_names(models, more, count - 1, slug);
            let place = choose|place: int|
                0 <= place < before.len() && slug_of(#[trigger] before[place]) == Some(slug);
            assert(after[place] == before[place]);
        } else {
            assert(slug_of(last) == Some(slug));
            if !names_model(before, slug) {
                assert(after[before.len() as int] == last);
            }
        }
    }
}

proof fn lemma_all_names(
    models: Seq<JsonView>,
    catalogs: Seq<JsonView>,
    count: int,
    slug: Seq<char>,
)
    requires
        0 <= count <= catalogs.len(),
        names_model(models, slug) || exists|c: int|
            0 <= c < count && (items_in((#[trigger] catalogs[c]).get("models"@)) matches Some(more)
                && names_model(more, slug)),
    ensures
        names_model(all_models(models, catalogs, count), slug),
    decreases count,
{
    if count > 0 {
        let before = all_models(models, catalogs, count - 1);
        let last = items_in(catalogs[count - 1].get("models"@));
        if names_model(models, slug) || exists|c: int|
            0 <= c < count - 1 && (items_in((#[trigger] catalogs[c]).get("models"@)) matches Some(
                more,
            ) && names_model(more, slug)) {
            lemma_all_names(models, catalogs, count - 1, slug);
            if let Some(more) = last {
                lemma_joined_names(before, more, more.len() as int, slug);
            }
        } else {
            let more = last->0;
            let place = choose|place: int|
                0 <= place < more.len() && slug_of(#[trigger] more[place]) == Some(slug);
            lemma_joined_names(before, more, more.len() as int, slug);
        }
    }
}

proof fn lemma_inserted_names(models: Seq<JsonView>, model: JsonView, slug: Seq<char>)
    requires
        names_model(models, slug) || slug_of(model) == Some(slug),
    ensures
        names_model(model_inserted(models, model), slug),
    decreases models.len(),
{
    let after = model_inserted(models, model);
    if models.len() == 0 {
        assert(after[0] == model);
    } else if model_precedes(model, models.last()) {
        let front = models.drop_last();
        let inner = model_inserted(front, model);
        if slug_of(models.last()) == Some(slug) {
            assert(after[inner.len() as int] == models.last());
        } else {
            if names_model(models, slug) {
                let place = choose|place: int|
                    0 <= place < models.len() && slug_of(#[trigger] models[place]) == Some(slug);
                assert(front[place] == models[place]);
            }
            lemma_inserted_names(front, model, slug);
            let place = choose|place: int|
                0 <= place < inner.len() && slug_of(#[trigger] inner[place]) == Some(slug);
            assert(after[place] == inner[place]);
        }
    } else if slug_of(model) == Some(slug) {
        assert(after[models.len() as int] == model);
    } else {
        let place = choose|place: int|
            0 <= place < models.len() && slug_of(#[trigger] models[place]) == Some(slug);
        assert(after[place] == models[place]);
    }
}

proof fn lemma_ordered_names(models: Seq<JsonView>, slug: Seq<char>)
    requires
        names_model(models, slug),
    ensures
        names_model(models_in_order(models), slug),
    decreases models.len(),
{
    let front = models.drop_last();
    let place = choose|place: int|
        0 <= place < models.len() && slug_of(#[trigger] models[place]) == Some(slug);
    if place < front.len() {
        assert(front[place] == models[place]);
        lemma_ordered_names(front, slug);
    }
    lemma_inserted_names(models_in_order(front), models.last(), slug);
}

proof fn lemma_placed_names(models: Seq<JsonView>, count: int)
    requires
        0 <= count <= models.len(),
    ensures
        placed_models(models, count).len() == count,
        forall|i: int|
            0 <= i < count ==> (slug_of(models[i]) is Some ==> slug_of(
                #[trigger] placed_models(models, count)[i],
            ) == slug_of(models[i])),
        forall|i: int|
            0 <= i < count && (models[i] is Object || models[i] is Null) && i <= u64::MAX ==> (
            #[trigger] placed_models(models, count)[i]).get("priority"@) == Some(
                JsonView::Number(JsonNumber::Unsigned(i as u64)),
            ),
    decreases count,
{
    broadcast use lemma_with_field;

    reveal_strlit("slug");
    reveal_strlit("priority");
    assert("slug"@.len() == 4);
    assert("priority"@.len() == 8);
    if count > 0 {
        lemma_placed_names(models, count - 1);
        let before = placed_models(models, count - 1);
        let after = placed_models(models, count);
        assert forall|i: int| 0 <= i < count && slug_of(models[i]) is Some implies slug_of(
            #[trigger] after[i],
        ) == slug_of(models[i]) by {
            if i < count - 1 {
                assert(after[i] == before[i]);
            }
        }
        assert forall|i: int|
            0 <= i < count && (models[i] is Object || models[i] is Null) && i
                <= u64::MAX implies (#[trigger] after[i]).get("priority"@) == Some(
            JsonView::Number(JsonNumber::Unsigned(i as u64)),
        ) by {
            if i < count - 1 {
                assert(after[i] == before[i]);
            }
        }
    }
}

/// A catalog that was merged names every model that it or one of the others named,
/// and numbers its models from 0 on, in their order.
pub proof fn law_merged_catalogs_name_every_model(
    primary: JsonView,
    catalogs: Seq<JsonView>,
    models: Seq<JsonView>,
    slug: Seq<char>,
    place: int,
)
    requires
        items_in(primary.get("models"@)) == Some(models),
        numberable(models),
        names_model(models, slug) || exists|c: int|
            0 <= c < catalogs.len() && (items_in(
                (#[trigger] catalogs[c]).get("models"@),
            ) matches Some(more) && names_model(more, slug)),
    ensures
        items_in(joined_catalog(primary, catalogs).get("models"@)) matches Some(all) && {
            &&& names_model(all, slug)
            &&& 0 <= place < all.len() && place <= u64::MAX ==> all[place].get("priority"@) == Some(
                JsonView::Number(JsonNumber::Unsigned(place as u64)),
            )
        },
{
    broadcast use lemma_with_field;

    let gathered = all_models(models, catalogs, catalogs.len() as int);
    lemma_all_names(models, catalogs, catalogs.len() as int, slug);
    lemma_all_numberable(models, catalogs, catalogs.len() as int);
    lemma_sorted_numberable(gathered);
    lemma_ordered_names(gathered, slug);
    let in_order = models_in_order(gathered);
    lemma_placed_names(in_order, in_order.len() as int);
    let all = placed_models(in_order, in_order.len() as int);
    let index = choose|index: int|
        0 <= index < in_order.len() && slug_of(#[trigger] in_order[index]) == Some(slug);
    assert(slug_of(all[index]) == Some(slug));
    if 0 <= place < all.len() {
        assert(in_order[place] is Object || in_order[place] is Null);
    }
}

/// Every id of a plain list becomes a model of that name; white space around it
/// does not count, and one that is blank is left out.
pub proof fn law_listed_ids_become_models(
    items: Seq<JsonView>,
    template: JsonView,
    ultra: Seq<Seq<char>>,
    place: int,
    id: Seq<char>,
)
    requires
        is_template(template),
        0 <= place < items.len(),
        items[place].get_text("id"@) == Some(id),
        trim(id).len() > 0,
    ensures
        names_model(
            models_of(template, listed_ids(items), ultra, listed_ids(items).len() as int),
            trim(id),
        ),
        models_of(template, listed_ids(items), ultra, listed_ids(items).len() as int).len()
            <= items.len(),
{
    let slugs = listed_ids(items);
    let index = lemma_listed(items, place);
    lemma_made_models(template, slugs, ultra, slugs.len() as int);
    let models = models_of(template, slugs, ultra, slugs.len() as int);
    assert(slug_of(models[index]) == Some(trim(id)));
}

proof fn lemma_listed(items: Seq<JsonView>, place: int) -> (index: int)
    requires
        0 <= place < items.len(),
        items[place].get_text("id"@) matches Some(id) && trim(id).len() > 0,
    ensures
        0 <= index < listed_ids(items).len(),
        listed_ids(items)[index] == trim(items[place].get_text("id"@)->0),
        listed_ids(items).len() <= items.len(),
    decreases items.len(),
{
    lemma_listed_length(items);
    if place == items.len() - 1 {
        listed_ids(items).len() - 1
    } else {
        let front = items.drop_last();
        assert(front[place] == items[place]);
        lemma_listed(front, place)
    }
}

proof fn lemma_listed_length(items: Seq<JsonView>)
    ensures
        listed_ids(items).len() <= items.len(),
    decreases items.len(),
{
    if items.len() > 0 {
        lemma_listed_length(items.drop_last());
    }
}

proof fn lemma_made_models(
    template: JsonView,
    slugs: Seq<Seq<char>>,
    ultra: Seq<Seq<char>>,
    count: int,
)
    requires
        is_template(template),
        0 <= count <= slugs.len(),
    ensures
        models_of(template, slugs, ultra, count).len() == count,
        forall|i: int|
            0 <= i < count ==> slug_of(#[trigger] models_of(template, slugs, ultra, count)[i])
                == Some(slugs[i]),
    decreases count,
{
    if count > 0 {
        lemma_made_models(template, slugs, ultra, count - 1);
        lemma_model_slug(template, slugs[count - 1], ultra.contains(slugs[count - 1]));
        let before = models_of(template, slugs, ultra, count - 1);
        let after = models_of(template, slugs, ultra, count);
        assert forall|i: int| 0 <= i < count implies slug_of(#[trigger] after[i]) == Some(
            slugs[i],
        ) by {
            if i < count - 1 {
                assert(after[i] == before[i]);
            }
        }
    }
}

/// A model that is not known to take the greatest effort does not offer it, and
/// offers every other level of the template.
pub proof fn law_only_known_models_offer_ultra(levels: Seq<JsonView>, place: int)
    requires
        0 <= place < levels.len(),
    ensures
        forall|i: int|
            0 <= i < without_ultra(levels).len() ==> (#[trigger] without_ultra(levels)[i]).get_text(
                "effort"@,
            ) != Some("ultra"@),
        levels[place].get_text("effort"@) != Some("ultra"@) ==> without_ultra(levels).contains(
            levels[place],
        ),
    decreases levels.len(),
{
    let front = levels.drop_last();
    let before = without_ultra(front);
    let after = without_ultra(levels);
    lemma_no_ultra(levels);
    if place < front.len() {
        law_only_known_models_offer_ultra(front, place);
        if levels[place].get_text("effort"@) != Some("ultra"@) {
            assert(before.contains(levels[place]));
            let index = choose|index: int| 0 <= index < before.len() && before[index] == levels[place];
            assert(after[index] == levels[place]);
        }
    } else if levels[place].get_text("effort"@) != Some("ultra"@) {
        assert(after[before.len() as int] == levels[place]);
    }
}

proof fn lemma_no_ultra(levels: Seq<JsonView>)
    ensures
        forall|i: int|
            0 <= i < without_ultra(levels).len() ==> (#[trigger] without_ultra(levels)[i]).get_text(
                "effort"@,
            ) != Some("ultra"@),
    decreases levels.len(),
{
    if levels.len() > 0 {
        lemma_no_ultra(levels.drop_last());
        let before = without_ultra(levels.drop_last());
        let after = without_ultra(levels);
        assert forall|i: int| 0 <= i < after.len() implies (#[trigger] after[i]).get_text("effort"@)
            != Some("ultra"@) by {
            if i < before.len() {
                assert(after[i] == before[i]);
            }
        }
    }
}

} // verus!
