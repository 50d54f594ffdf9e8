//! Laws of the metadata of images.

use crate::json::{
    entry_values, entry_values_each, field, find, lookup, lookup_at, opt_value, parsed, printed,
    text, values_each, Json, JsonView,
};
use crate::meta::{
    all_texts, can_be_ranked, chunk_views, conditioning, decoded_views, extract_meta, graph_prompts,
    id_before, id_lt, ids_differ, in_id_order, inserted_at, is_sampler, is_sampler_node,
    link_target, meta_from, node_text, order_keeps_all_ids, pick_text, place_of, png_chunks,
    prompt_views, prompts_belong_to_samplers, ranked_ids_are_in_order, readable,
    resolve_conditioning, sampler_ids, sampler_ids_are_samplers, sampler_prompt,
    samplers_are_listed_in_order, samplers_with_text_are_listed_once, sort_ids, text_of_node,
    text_under_at, walk_graph, Meta, SamplerPrompt, TextChunks,
};
use crate::order::text_before;
use crate::text::{occurs_in, opt_text, parse_u64, views};
use vstd::prelude::*;

verus! {

/// What a value says is what it holds, item by item and entry by entry.
pub proof fn value_says_what_it_holds(value: Json, i: int)
    ensures
        value is Null <==> value.value() is Null,
        value matches Json::Bool(b) ==> value.value() == JsonView::Bool(b),
        value matches Json::Number(n) ==> value.value() == JsonView::Number(n@),
        value matches Json::Text(t) ==> value.value() == JsonView::Text(t@),
        value matches Json::Array(items) ==> (value.value() matches JsonView::Array(v) && v.len()
            == items@.len() && (0 <= i < v.len() ==> v[i] == items@[i].value())),
        value matches Json::Object(entries) ==> (value.value() matches JsonView::Object(v)
            && v.len() == entries@.len() && (0 <= i < v.len() ==> v[i] == (
            entries@[i].0@,
            entries@[i].1.value(),
        ))),
{
    match value {
        Json::Array(items) => {
            values_each(items@);
        },
        Json::Object(entries) => {
            entry_values_each(entries@);
        },
        _ => {},
    }
}

/// Whether `at` is the place of the first entry under a key.
pub open spec fn first_under(entries: Seq<(String, Json)>, key: Seq<char>, at: int) -> bool {
    0 <= at < entries.len() && entries[at].0@ == key && forall|i: int|
        0 <= i < at ==> (#[trigger] entries[i]).0@ != key
}

/// The value of the first entry under a key.
pub open spec fn value_under(entries: Seq<(String, Json)>, key: Seq<char>) -> Option<Json> {
    if exists|at: int| first_under(entries, key, at) {
        Some(entries[choose|at: int| first_under(entries, key, at)].1)
    } else {
        None
    }
}

/// The text of the first entry under a key, if it is a text.
pub open spec fn text_in(entries: Seq<(String, Json)>, key: Seq<char>) -> Option<Seq<char>> {
    match value_under(entries, key) {
        Some(Json::Text(t)) => Some(t@),
        _ => None,
    }
}

proof fn first_place(entries: Seq<(String, Json)>, key: Seq<char>, from: int) -> (at: int)
    requires
        0 <= from <= entries.len(),
        forall|i: int| 0 <= i < from ==> (#[trigger] entries[i]).0@ != key,
    ensures
        from <= at <= entries.len(),
        forall|i: int| 0 <= i < at ==> (#[trigger] entries[i]).0@ != key,
        at < entries.len() ==> first_under(entries, key, at),
    decreases entries.len() - from,
{
    if from < entries.len() && entries[from].0@ != key {
        first_place(entries, key, from + 1)
    } else {
        from
    }
}

/// There is a value under a key if and only if an entry has the key, and it is
/// that of the first such entry.
pub proof fn first_entry_counts(entries: Seq<(String, Json)>, key: Seq<char>, at: int)
    ensures
        first_under(entries, key, at) ==> value_under(entries, key) == Some(entries[at].1),
        value_under(entries, key) is None <==> forall|i: int|
            0 <= i < entries.len() ==> (#[trigger] entries[i]).0@ != key,
{
    let first = first_place(entries, key, 0);
    if first_under(entries, key, at) {
        let other = choose|at: int| first_under(entries, key, at);
        if other < at {
            assert(entries[other].0@ != key);
        } else if at < other {
            assert(entries[at].0@ != key);
        }
    }
    if first == entries.len() && exists|at: int| first_under(entries, key, at) {
        let other = choose|at: int| first_under(entries, key, at);
        assert(entries[other].0@ != key);
    }
}

proof fn lookup_is_of_the_first(entries: Seq<(String, Json)>, key: Seq<char>)
    ensures
        lookup(entry_values(entries), key) == (match value_under(entries, key) {
            Some(v) => Some(v.value()),
            None => None,
        }),
{
    let at = first_place(entries, key, 0);
    let all = entry_values(entries);
    entry_values_each(entries);
    first_entry_counts(entries, key, at);
    assert forall|i: int| 0 <= i < at implies (#[trigger] all[i]).0 != key by {
        assert(entries[i].0@ != key);
    }
    if at < entries.len() {
        assert(all[at] == (entries[at].0@, entries[at].1.value()));
    }
    lookup_at(all, key, at);
}

/// A search by key gives the value of the first entry with the key.
pub proof fn first_entry_is_found(entries: Vec<(String, Json)>, key: &str, r: Option<&Json>)
    requires
        call_ensures(find, (&entries, key), r),
    ensures
        opt_value(r) == (match value_under(entries@, key@) {
            Some(v) => Some(v.value()),
            None => None,
        }),
{
    lookup_is_of_the_first(entries@, key@);
}

/// A value can be asked for its text, its entries and its first item; a value of
/// another kind has none.
pub proof fn values_are_taken_apart(
    value: Json,
    t: Option<&str>,
    entries: Option<&Vec<(String, Json)>>,
    first: Option<&Json>,
    key: &str,
    under: Option<&Json>,
)
    requires
        call_ensures(Json::as_str, (&value,), t),
        call_ensures(Json::as_object, (&value,), entries),
        call_ensures(Json::first_item, (&value,), first),
        call_ensures(Json::get, (&value, key), under),
    ensures
        match value {
            Json::Text(s) => t matches Some(x) && x@ == s@,
            _ => t is None,
        },
        match value {
            Json::Object(e) => entries matches Some(x) && entry_values(x@) == entry_values(e@),
            _ => entries is None,
        },
        match value {
            Json::Array(items) => if items@.len() > 0 {
                first matches Some(x) && x.value() == items@[0].value()
            } else {
                first is None
            },
            _ => first is None,
        },
        match value {
            Json::Object(e) => opt_value(under) == (match value_under(e@, key@) {
                Some(v) => Some(v.value()),
                None => None,
            }),
            _ => under is None,
        },
{
    match value {
        Json::Array(items) => {
            values_each(items@);
        },
        Json::Object(e) => {
            lookup_is_of_the_first(e@, key@);
        },
        _ => {},
    }
}

/// The inputs of a node.
pub open spec fn inputs_of(node: Json) -> Option<Seq<(String, Json)>> {
    match node {
        Json::Object(fields) => match value_under(fields@, "inputs"@) {
            Some(Json::Object(inputs)) => Some(inputs@),
            _ => None,
        },
        _ => None,
    }
}

/// Whether a node is a text encoder: the name of its class has `CLIPTextEncode`
/// somewhere in it.
pub open spec fn encodes_text(node: Json) -> bool {
    match node {
        Json::Object(fields) => text_in(fields@, "class_type"@) matches Some(class) && exists|
            a: Seq<char>,
            b: Seq<char>,
        |
            class == #[trigger] (a + "CLIPTextEncode"@ + b),
        _ => false,
    }
}

proof fn occurring_is_having_around(part: Seq<char>, s: Seq<char>)
    ensures
        occurs_in(part, s) <==> exists|a: Seq<char>, b: Seq<char>| s == #[trigger] (a + part + b),
{
    if occurs_in(part, s) {
        let i = choose|i: int|
            0 <= i <= s.len() - part.len() && #[trigger] s.subrange(i, i + part.len()) == part;
        let a = s.take(i);
        let b = s.skip(i + part.len());
        assert forall|k: int| 0 <= k < s.len() implies s[k] == (a + part + b)[k] by {
            if i <= k < i + part.len() {
                assert(s.subrange(i, i + part.len())[k - i] == s[k]);
            }
        }
        assert(s =~= a + part + b);
    }
    if exists|a: Seq<char>, b: Seq<char>| s == #[trigger] (a + part + b) {
        let (a, b) = choose|a: Seq<char>, b: Seq<char>| s == #[trigger] (a + part + b);
        assert(s.subrange(a.len() as int, (a.len() + part.len()) as int) =~= part);
    }
}

proof fn texts_say(entries: Seq<(String, Json)>, key: Seq<char>)
    ensures
        text(lookup(entry_values(entries), key)) == text_in(entries, key),
{
    lookup_is_of_the_first(entries, key);
}

proof fn inputs_say(node: Json)
    ensures
        match inputs_of(node) {
            Some(inputs) => field(node.value(), "inputs"@) == Some(
                JsonView::Object(entry_values(inputs)),
            ),
            None => !(field(node.value(), "inputs"@) matches Some(JsonView::Object(_))),
        },
{
    match node {
        Json::Object(fields) => {
            lookup_is_of_the_first(fields@, "inputs"@);
        },
        _ => {},
    }
}

/// The text that a text encoder's inputs make: the input `text` in full, else the
/// two texts with a line break between them, or one of them if they are the same.
pub open spec fn text_made_of(inputs: Seq<(String, Json)>) -> Option<Seq<char>> {
    match text_in(inputs, "text"@) {
        Some(t) => Some(t),
        None => match (text_in(inputs, "text_g"@), text_in(inputs, "text_l"@)) {
            (Some(g), Some(l)) => Some(
                if g == l {
                    g
                } else {
                    g + seq!['\n'] + l
                },
            ),
            (Some(g), None) => Some(g),
            (None, Some(l)) => Some(l),
            (None, None) => None,
        },
    }
}

/// The text of a node: that of a text encoder.
pub open spec fn text_shown_by(node: Json) -> Option<Seq<char>> {
    if encodes_text(node) {
        match inputs_of(node) {
            Some(inputs) => text_made_of(inputs),
            None => None,
        }
    } else {
        None
    }
}

proof fn node_says(node: Json)
    ensures
        text_of_node(node.value()) == text_shown_by(node),
{
    reveal_strlit("\n");
    assert("\n"@ =~= seq!['\n']);
    inputs_say(node);
    match node {
        Json::Object(fields) => {
            texts_say(fields@, "class_type"@);
            match text_in(fields@, "class_type"@) {
                Some(class) => {
                    occurring_is_having_around("CLIPTextEncode"@, class);
                },
                None => {},
            }
        },
        _ => {},
    }
    match inputs_of(node) {
        Some(inputs) => {
            texts_say(inputs, "text"@);
            texts_say(inputs, "text_g"@);
            texts_say(inputs, "text_l"@);
        },
        None => {},
    }
}

/// The text of a text encoder is the whole of its input `text`, however long. An
/// encoder without one that has two texts shows both, a line break between them,
/// or one if they are the same. Any other node has no text.
pub proof fn encoder_shows_its_whole_text(node: Json, r: Option<String>)
    requires
        call_ensures(node_text, (&node,), r),
    ensures
        match text_shown_by(node) {
            Some(t) => r matches Some(s) && s@ == t,
            None => r is None,
        },
{
    node_says(node);
}

/// A node is a sampler if and only if its inputs have `positive` and `negative`.
pub proof fn sampler_has_both_inputs(node: Json, r: bool)
    requires
        call_ensures(is_sampler, (&node,), r),
    ensures
        r <==> (inputs_of(node) matches Some(inputs) && value_under(inputs, "positive"@) is Some
            && value_under(inputs, "negative"@) is Some),
        r == is_sampler_node(node.value()),
{
    inputs_say(node);
    match inputs_of(node) {
        Some(inputs) => {
            lookup_is_of_the_first(inputs, "positive"@);
            lookup_is_of_the_first(inputs, "negative"@);
        },
        None => {},
    }
}

/// The node that a link names: an array that starts with a text.
pub open spec fn linked(link: Json) -> Option<Seq<char>> {
    match link {
        Json::Array(items) => if items@.len() > 0 {
            match items@[0] {
                Json::Text(t) => Some(t@),
                _ => None,
            }
        } else {
            None
        },
        _ => None,
    }
}

/// A link names the node whose id comes first in it.
pub proof fn link_names_its_first_item(link: Json, r: Option<&str>)
    requires
        call_ensures(link_target, (&link,), r),
    ensures
        match linked(link) {
            Some(id) => r matches Some(s) && s@ == id,
            None => r is None,
        },
{
    match link {
        Json::Array(items) => {
            values_each(items@);
        },
        _ => {},
    }
}

/// The node behind an input.
pub open spec fn node_behind(
    graph: Seq<(String, Json)>,
    inputs: Seq<(String, Json)>,
    key: Seq<char>,
) -> Option<Json> {
    match value_under(inputs, key) {
        Some(link) => match linked(link) {
            Some(id) => value_under(graph, id),
            None => None,
        },
        None => None,
    }
}

proof fn input_says(
    graph: Seq<(String, Json)>,
    inputs: Seq<(String, Json)>,
    key: Seq<char>,
)
    ensures
        conditioning(entry_values(graph), entry_values(inputs), key) == (match node_behind(
            graph,
            inputs,
            key,
        ) {
            Some(node) => text_shown_by(node),
            None => None,
        }),
{
    lookup_is_of_the_first(inputs, key);
    match value_under(inputs, key) {
        Some(link) => {
            match link {
                Json::Array(items) => {
                    values_each(items@);
                },
                _ => {},
            }
            match linked(link) {
                Some(id) => {
                    lookup_is_of_the_first(graph, id);
                    match value_under(graph, id) {
                        Some(node) => {
                            node_says(node);
                        },
                        None => {},
                    }
                },
                None => {},
            }
        },
        None => {},
    }
}

/// The text behind an input is that of the node that it links to, in full.
pub proof fn input_shows_the_linked_text(
    graph: Vec<(String, Json)>,
    inputs: Vec<(String, Json)>,
    key: &str,
    r: Option<String>,
)
    requires
        call_ensures(resolve_conditioning, (&graph, &inputs, key), r),
    ensures
        match node_behind(graph@, inputs@, key@) {
            Some(node) => match text_shown_by(node) {
                Some(t) => r matches Some(s) && s@ == t,
                None => r is None,
            },
            None => r is None,
        },
{
    input_says(graph@, inputs@, key@);
}

/// Whether no two nodes of a graph have the same id, as in every JSON object.
pub open spec fn nodes_differ(graph: Seq<(String, Json)>) -> bool {
    forall|i: int, j: int|
        0 <= i < j < graph.len() ==> (#[trigger] graph[i]).0@ != (#[trigger] graph[j]).0@
}

proof fn node_is_under_its_id(graph: Seq<(String, Json)>, k: int)
    requires
        nodes_differ(graph),
        0 <= k < graph.len(),
    ensures
        value_under(graph, graph[k].0@) == Some(graph[k].1),
        ids_differ(entry_values(graph)),
        entry_values(graph).len() == graph.len(),
        entry_values(graph)[k] == (graph[k].0@, graph[k].1.value()),
{
    entry_values_each(graph);
    assert(first_under(graph, graph[k].0@, k));
    first_entry_counts(graph, graph[k].0@, k);
    let all = entry_values(graph);
    assert forall|i: int, j: int| 0 <= i < j < all.len() implies (#[trigger] all[i]).0 != (
    #[trigger] all[j]).0 by {
        assert(graph[i].0@ != graph[j].0@);
    }
}

/// Whether a listed prompt is that of the sampler `id` with these texts.
pub open spec fn shows(
    p: SamplerPrompt,
    id: Seq<char>,
    positive: Option<Seq<char>>,
    negative: Option<Seq<char>>,
) -> bool {
    p.sampler_node@ == id && opt_text(p.positive) == positive && opt_text(p.negative) == negative
}

/// The text behind an input: that of the node that it links to.
pub open spec fn text_behind(
    graph: Seq<(String, Json)>,
    inputs: Seq<(String, Json)>,
    key: Seq<char>,
) -> Option<Seq<char>> {
    match node_behind(graph, inputs, key) {
        Some(node) => text_shown_by(node),
        None => None,
    }
}

/// Every sampler of a graph is listed once with the texts behind its two inputs,
/// in full, if at least one of them has a text, and not listed otherwise.
pub proof fn sampler_shows_the_texts_behind_its_inputs(
    graph: Vec<(String, Json)>,
    k: int,
    inputs: Seq<(String, Json)>,
    r: Vec<SamplerPrompt>,
)
    requires
        call_ensures(walk_graph, (&Json::Object(graph),), r),
        nodes_differ(graph@),
        0 <= k < graph@.len(),
        inputs_of(graph@[k].1) == Some(inputs),
        value_under(inputs, "positive"@) is Some,
        value_under(inputs, "negative"@) is Some,
    ensures
        ({
            let positive = text_behind(graph@, inputs, "positive"@);
            let negative = text_behind(graph@, inputs, "negative"@);
            if positive is Some || negative is Some {
                exists|i: int|
                    0 <= i < r@.len() && shows(
                        #[trigger] r@[i],
                        graph@[k].0@,
                        positive,
                        negative,
                    ) && forall|j: int|
                        0 <= j < r@.len() && j != i ==> (#[trigger] r@[j]).sampler_node@
                            != graph@[k].0@
            } else {
                forall|i: int|
                    0 <= i < r@.len() ==> (#[trigger] r@[i]).sampler_node@ != graph@[k].0@
            }
        }),
{
    let entries = entry_values(graph@);
    let node = graph@[k].1;
    let id = graph@[k].0@;
    let prompts = prompt_views(r@);
    let positive = text_behind(graph@, inputs, "positive"@);
    let negative = text_behind(graph@, inputs, "negative"@);
    node_is_under_its_id(graph@, k);
    lookup_is_of_the_first(graph@, id);
    inputs_say(node);
    lookup_is_of_the_first(inputs, "positive"@);
    lookup_is_of_the_first(inputs, "negative"@);
    input_says(graph@, inputs, "positive"@);
    input_says(graph@, inputs, "negative"@);
    assert(is_sampler_node(node.value()));
    assert(prompts == graph_prompts(JsonView::Object(entries)));
    if positive is Some || negative is Some {
        samplers_with_text_are_listed_once(entries, k);
        let wanted = sampler_prompt(entries, id)->0;
        let i = choose|i: int|
            0 <= i < prompts.len() && #[trigger] prompts[i] == wanted && forall|j: int|
                0 <= j < prompts.len() && j != i ==> (#[trigger] prompts[j]).sampler_node != id;
        assert(prompts[i] == r@[i]@);
        assert(shows(r@[i], id, positive, negative));
        assert forall|j: int| 0 <= j < r@.len() && j != i implies (
        #[trigger] r@[j]).sampler_node@ != id by {
            assert(prompts[j] == r@[j]@);
        }
    } else {
        assert forall|i: int| 0 <= i < r@.len() implies (#[trigger] r@[i]).sampler_node@ != id by {
            assert(prompts[i] == r@[i]@);
            prompts_belong_to_samplers(entries, i);
        }
    }
}

/// A sampler whose input links to a text encoder is listed with the whole text of
/// that encoder, whatever its length.
pub proof fn linked_text_is_listed_in_full(
    graph: Vec<(String, Json)>,
    k: int,
    inputs: Seq<(String, Json)>,
    node: Json,
    t: Seq<char>,
    r: Vec<SamplerPrompt>,
)
    requires
        call_ensures(walk_graph, (&Json::Object(graph),), r),
        nodes_differ(graph@),
        0 <= k < graph@.len(),
        inputs_of(graph@[k].1) == Some(inputs),
        value_under(inputs, "positive"@) is Some,
        value_under(inputs, "negative"@) is Some,
        encodes_text(node),
        inputs_of(node) is Some,
        text_in(inputs_of(node)->0, "text"@) == Some(t),
    ensures
        node_behind(graph@, inputs, "positive"@) == Some(node) ==> exists|i: int|
            0 <= i < r@.len() && (#[trigger] r@[i]).sampler_node@ == graph@[k].0@ && opt_text(
                r@[i].positive,
            ) == Some(t),
        node_behind(graph@, inputs, "negative"@) == Some(node) ==> exists|i: int|
            0 <= i < r@.len() && (#[trigger] r@[i]).sampler_node@ == graph@[k].0@ && opt_text(
                r@[i].negative,
            ) == Some(t),
{
    sampler_shows_the_texts_behind_its_inputs(graph, k, inputs, r);
}

/// What is listed belongs to a sampler of the graph and has a text, and what is no
/// graph has nothing to list.
pub proof fn only_samplers_are_listed(value: Json, r: Vec<SamplerPrompt>, i: int)
    requires
        call_ensures(walk_graph, (&value,), r),
        0 <= i < r@.len(),
    ensures
        r@[i].positive is Some || r@[i].negative is Some,
        value matches Json::Object(graph) && exists|k: int|
            0 <= k < graph@.len() && (#[trigger] graph@[k]).0@ == r@[i].sampler_node@ && (inputs_of(
                graph@[k].1,
            ) matches Some(inputs) && value_under(inputs, "positive"@) is Some && value_under(
                inputs,
                "negative"@,
            ) is Some),
{
    let prompts = prompt_views(r@);
    assert(prompts.len() == r@.len());
    assert(prompts[i] == r@[i]@);
    match value {
        Json::Object(graph) => {
            let entries = entry_values(graph@);
            entry_values_each(graph@);
            prompts_belong_to_samplers(entries, i);
            let k = choose|k: int|
                0 <= k < entries.len() && (#[trigger] entries[k]).0 == prompts[i].sampler_node
                    && is_sampler_node(entries[k].1);
            assert(entries[k] == (graph@[k].0@, graph@[k].1.value()));
            let node = graph@[k].1;
            inputs_say(node);
            match inputs_of(node) {
                Some(inputs) => {
                    lookup_is_of_the_first(inputs, "positive"@);
                    lookup_is_of_the_first(inputs, "negative"@);
                },
                None => {},
            }
        },
        _ => {},
    }
}

/// Node ids are compared by their numbers if both are numbers, else by their
/// texts.
pub proof fn ids_are_compared_by_number(
    a: &str,
    b: &str,
    x: Option<u64>,
    y: Option<u64>,
    by_text: bool,
    r: bool,
)
    requires
        call_ensures(parse_u64, (a,), x),
        call_ensures(parse_u64, (b,), y),
        call_ensures(text_before, (a, b), by_text),
        call_ensures(id_before, (a, b), r),
    ensures
        match (x, y) {
            (Some(m), Some(n)) => r == (m < n),
            _ => r == by_text,
        },
        r == id_lt(a@, b@),
{
}

/// One id more, at the end, moves in front of those behind which it does not
/// belong; the others stay in their order.
pub proof fn sorting_moves_the_last_id_forward(
    ids: Vec<String>,
    more: Vec<String>,
    r: Vec<String>,
    s: Vec<String>,
)
    requires
        call_ensures(sort_ids, (ids,), r),
        call_ensures(sort_ids, (more,), s),
        more@.len() == ids@.len() + 1,
        forall|i: int| 0 <= i < ids@.len() ==> (#[trigger] more@[i])@ == ids@[i]@,
    ensures
        r@.len() == ids@.len(),
        exists|at: int|
            {
                &&& 0 <= at <= r@.len()
                &&& #[trigger] views(s@) == views(r@).insert(at, more@.last()@)
                &&& forall|i: int| at <= i < r@.len() ==> id_lt(more@.last()@, (#[trigger] r@[i])@)
                &&& at > 0 ==> !id_lt(more@.last()@, r@[at - 1]@)
            },
{
    let all = views(ids@);
    let last = more@.last()@;
    assert(views(more@).drop_last() =~= all);
    assert(views(more@).last() == last);
    order_keeps_all_ids(all);
    in_id_order(all).to_multiset_ensures();
    all.to_multiset_ensures();
    assert(views(r@).len() == r@.len());
    let at = place_of(views(r@), last);
    inserted_at(views(r@), last, at);
    assert(views(s@) == views(r@).insert(at, last));
    assert forall|i: int| at <= i < r@.len() implies id_lt(last, (#[trigger] r@[i])@) by {
        assert(views(r@)[i] == r@[i]@);
    }
}

/// Sorted ids are the same ids; those that are all numbers, or none of them, come
/// in order.
pub proof fn sorted_ids_are_in_order(ids: Vec<String>, r: Vec<String>)
    requires
        call_ensures(sort_ids, (ids,), r),
    ensures
        views(r@).to_multiset() == views(ids@).to_multiset(),
        can_be_ranked(views(ids@)) ==> forall|i: int, j: int|
            0 <= i < j < r@.len() ==> !id_lt((#[trigger] r@[j])@, (#[trigger] r@[i])@),
{
    let all = views(ids@);
    order_keeps_all_ids(all);
    if can_be_ranked(all) {
        ranked_ids_are_in_order(all);
        assert(views(r@).len() == r@.len());
        assert forall|i: int, j: int| 0 <= i < j < r@.len() implies !id_lt(
            (#[trigger] r@[j])@,
            (#[trigger] r@[i])@,
        ) by {
            assert(views(r@)[i] == r@[i]@ && views(r@)[j] == r@[j]@);
        }
    }
}

/// All the texts of a file that can be read, with their keywords: first the plain
/// ones, then the compressed ones, then the Unicode ones.
pub open spec fn texts_of(chunks: TextChunks) -> Seq<(Seq<char>, Seq<char>)> {
    let read = |c: (String, Option<String>)| c.1 is Some;
    let shown = |c: (String, Option<String>)| (c.0@, c.1->0@);
    chunks.latin@.map_values(|c: (String, String)| (c.0@, c.1@)) + chunks.compressed@.filter(
        read,
    ).map_values(shown) + chunks.unicode@.filter(read).map_values(shown)
}

proof fn readable_are_filtered(v: Seq<(String, Option<String>)>)
    ensures
        readable(decoded_views(v)) == v.filter(
            |c: (String, Option<String>)| c.1 is Some,
        ).map_values(|c: (String, Option<String>)| (c.0@, c.1->0@)),
    decreases v.len(),
{
    let read = |c: (String, Option<String>)| c.1 is Some;
    let shown = |c: (String, Option<String>)| (c.0@, c.1->0@);
    reveal(Seq::filter);
    if v.len() > 0 {
        let rest = v.drop_last();
        readable_are_filtered(rest);
        assert(decoded_views(v).drop_last() =~= decoded_views(rest));
        assert(decoded_views(v).last() == (v.last().0@, opt_text(v.last().1)));
        if v.last().1 is Some {
            assert(v.filter(read) =~= rest.filter(read).push(v.last()));
            assert(v.filter(read).map_values(shown) =~= rest.filter(read).map_values(shown).push(
                (v.last().0@, v.last().1->0@),
            ));
        } else {
            assert(v.filter(read) =~= rest.filter(read));
        }
    } else {
        assert(v.filter(read).map_values(shown) =~= readable(decoded_views(v)));
    }
}

/// Whether `at` is the place of the first text with a keyword.
pub open spec fn first_with(
    texts: Seq<(Seq<char>, Seq<char>)>,
    keyword: Seq<char>,
    at: int,
) -> bool {
    0 <= at < texts.len() && texts[at].0 == keyword && forall|i: int|
        0 <= i < at ==> (#[trigger] texts[i]).0 != keyword
}

/// Whether no text has a keyword.
pub open spec fn none_with(texts: Seq<(Seq<char>, Seq<char>)>, keyword: Seq<char>) -> bool {
    forall|i: int| 0 <= i < texts.len() ==> (#[trigger] texts[i]).0 != keyword
}

/// The first text under `prompt` is picked. Without one it is the first under
/// `workflow`, and without that the first of all.
pub proof fn text_is_picked_by_keyword(chunks: TextChunks, r: Option<String>, at: int)
    requires
        call_ensures(pick_text, (chunks,), r),
    ensures
        first_with(texts_of(chunks), "prompt"@, at) ==> (r matches Some(t) && t@ == texts_of(
            chunks,
        )[at].1),
        none_with(texts_of(chunks), "prompt"@) && first_with(texts_of(chunks), "workflow"@, at)
            ==> (r matches Some(t) && t@ == texts_of(chunks)[at].1),
        none_with(texts_of(chunks), "prompt"@) && none_with(texts_of(chunks), "workflow"@)
            && texts_of(chunks).len() > 0 ==> (r matches Some(t) && t@ == texts_of(chunks)[0].1),
        r is None <==> texts_of(chunks).len() == 0,
{
    let texts = texts_of(chunks);
    readable_are_filtered(chunks.compressed@);
    readable_are_filtered(chunks.unicode@);
    assert(chunk_views(chunks.latin@) =~= chunks.latin@.map_values(
        |c: (String, String)| (c.0@, c.1@),
    ));
    assert(all_texts(chunks@) =~= texts);
    let n = texts.len() as int;
    if first_with(texts, "prompt"@, at) {
        text_under_at(texts, "prompt"@, at);
    }
    if none_with(texts, "prompt"@) {
        text_under_at(texts, "prompt"@, n);
        if first_with(texts, "workflow"@, at) {
            text_under_at(texts, "workflow"@, at);
        }
        if none_with(texts, "workflow"@) {
            text_under_at(texts, "workflow"@, n);
        }
    }
}

/// Whether two listings show the same prompts.
pub open spec fn same_prompts(a: Seq<SamplerPrompt>, b: Seq<SamplerPrompt>) -> bool {
    a.len() == b.len() && forall|i: int|
        0 <= i < a.len() ==> shows(
            #[trigger] a[i],
            b[i].sampler_node@,
            opt_text(b[i].positive),
            opt_text(b[i].negative),
        )
}

proof fn equal_views_show_the_same(a: Seq<SamplerPrompt>, b: Seq<SamplerPrompt>)
    requires
        prompt_views(a) == prompt_views(b),
    ensures
        same_prompts(a, b),
{
    assert(prompt_views(a).len() == a.len());
    assert(prompt_views(b).len() == b.len());
    assert forall|i: int| 0 <= i < a.len() implies shows(
        #[trigger] a[i],
        b[i].sampler_node@,
        opt_text(b[i].positive),
        opt_text(b[i].negative),
    ) by {
        assert(prompt_views(a)[i] == a[i]@);
        assert(prompt_views(b)[i] == b[i]@);
    }
}

/// A text is shown as its JSON prints, or as it stands if it is not JSON or does
/// not print; the prompts are those of the graph.
pub proof fn text_is_shown_with_its_prompts(
    text: String,
    value: Json,
    print: Option<String>,
    prompts: Vec<SamplerPrompt>,
    r: Meta,
    plain: Meta,
)
    requires
        call_ensures(walk_graph, (&value,), prompts),
        call_ensures(meta_from, (text, Some((value, print))), r),
        call_ensures(meta_from, (text, None), plain),
    ensures
        opt_text(r.raw) == Some(
            match print {
                Some(p) => p@,
                None => text@,
            },
        ),
        same_prompts(r.prompts@, prompts@),
        opt_text(plain.raw) == Some(text@),
        plain.prompts@.len() == 0,
{
    assert(r@.raw == opt_text(r.raw));
    assert(r@.prompts == prompt_views(r.prompts@));
    equal_views_show_the_same(r.prompts@, prompts@);
    assert(plain@.prompts.len() == plain.prompts@.len());
}

/// A file that cannot be read, is no PNG file or has no text has no metadata.
/// Otherwise what is shown is what is shown of the text that is picked.
pub proof fn metadata_is_that_of_the_picked_text(
    file: Option<&[u8]>,
    r: Meta,
    chunks: TextChunks,
    t: Option<String>,
    known: Option<(Json, Option<String>)>,
    shown: Meta,
    none: Meta,
)
    requires
        call_ensures(extract_meta, (file,), r),
        call_ensures(Meta::empty, (), none),
        call_ensures(pick_text, (chunks,), t),
        t matches Some(s) ==> {
            &&& call_ensures(meta_from, (s, known), shown)
            &&& match known {
                Some((value, print)) => parsed(s@) == Some(value.value()) && opt_text(print)
                    == printed(value.value()),
                None => parsed(s@) is None,
            }
        },
    ensures
        none.raw is None && none.prompts@.len() == 0,
        file is None ==> r.raw is None && r.prompts@.len() == 0,
        file matches Some(bytes) ==> png_chunks(bytes@) is None ==> r.raw is None
            && r.prompts@.len() == 0,
        file matches Some(bytes) ==> png_chunks(bytes@) == Some(chunks@) ==> match t {
            Some(_) => opt_text(r.raw) == opt_text(shown.raw) && same_prompts(
                r.prompts@,
                shown.prompts@,
            ),
            None => r.raw is None && r.prompts@.len() == 0,
        },
{
    assert(none@.raw == opt_text(none.raw) && none@.prompts.len() == none.prompts@.len());
    assert(r@.raw == opt_text(r.raw) && r@.prompts.len() == r.prompts@.len());
    match file {
        Some(bytes) => {
            if png_chunks(bytes@) == Some(chunks@) && t is Some {
                assert(r@ == shown@);
                assert(r@.prompts == prompt_views(r.prompts@));
                assert(shown@.prompts == prompt_views(shown.prompts@));
                equal_views_show_the_same(r.prompts@, shown.prompts@);
            }
        },
        None => {},
    }
}

/// Samplers are listed in the order of their ids, if the ids of the graph are all
/// numbers, or none of them is.
pub proof fn listed_samplers_are_in_order(
    graph: Vec<(String, Json)>,
    r: Vec<SamplerPrompt>,
    i: int,
    j: int,
)
    requires
        call_ensures(walk_graph, (&Json::Object(graph),), r),
        can_be_ranked(graph@.map_values(|e: (String, Json)| e.0@)),
        0 <= i < j < r@.len(),
    ensures
        !id_lt(r@[j].sampler_node@, r@[i].sampler_node@),
{
    let entries = entry_values(graph@);
    let ids = sampler_ids(entries);
    let all = graph@.map_values(|e: (String, Json)| e.0@);
    entry_values_each(graph@);
    assert forall|x: int| 0 <= x < ids.len() implies all.contains(#[trigger] ids[x]) by {
        assert(ids.contains(ids[x]));
        sampler_ids_are_samplers(entries, ids[x]);
        let k = choose|k: int|
            0 <= k < entries.len() && (#[trigger] entries[k]).0 == ids[x] && is_sampler_node(
                entries[k].1,
            );
        assert(all[k] == graph@[k].0@);
    }
    samplers_are_listed_in_order(entries);
    assert(prompt_views(r@)[i] == r@[i]@);
    assert(prompt_views(r@)[j] == r@[j]@);
}

} // verus!
