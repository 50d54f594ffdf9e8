//! Metadata of an image: the prompts that it was generated from.
//!
//! Image generators write the graph that they executed into text chunks of the
//! PNG file, ahead of the image data. Extraction is layered and does what it
//! can: the graph's JSON is shown over several lines whenever there is a text
//! chunk, and as it stands if it is not JSON. On top of that the graph is
//! searched for the texts of its samplers. A graph of any other structure shows
//! as JSON only; nothing is an error.

use crate::json::{
    convert, entry_values, entry_values_each, field, find, lookup, parse_text, parsed,
    print_pretty, printed, text, Entries, Json, JsonView,
};
use crate::order::{
    same_text, text_before, text_lt, text_lt_asymmetric, text_lt_total, text_lt_transitive,
};
use crate::text::{contains, occurs_in, opt_text, parse_u64, unsigned_value, views};
use vstd::prelude::*;

verus! {

/// The prompts that a sampler was given.
#[derive(Debug, PartialEq, Eq)]
pub struct SamplerPrompt {
    pub sampler_node: String,
    pub positive: Option<String>,
    pub negative: Option<String>,
}

/// The metadata of an image. `raw` is the JSON of the graph, or the text as it
/// stands if it is not JSON; `None` if there is no text. `prompts` may be empty
/// even if there is a text.
#[derive(Debug, PartialEq, Eq)]
pub struct Meta {
    pub raw: Option<String>,
    pub prompts: Vec<SamplerPrompt>,
}

/// What a sampler's prompts say.
pub struct PromptView {
    pub sampler_node: Seq<char>,
    pub positive: Option<Seq<char>>,
    pub negative: Option<Seq<char>>,
}

impl View for SamplerPrompt {
    type V = PromptView;

    open spec fn view(&self) -> PromptView {
        PromptView {
            sampler_node: self.sampler_node@,
            positive: opt_text(self.positive),
            negative: opt_text(self.negative),
        }
    }
}

/// What metadata says.
pub struct MetaView {
    pub raw: Option<Seq<char>>,
    pub prompts: Seq<PromptView>,
}

/// What each sampler's prompts say.
pub open spec fn prompt_views(v: Seq<SamplerPrompt>) -> Seq<PromptView> {
    v.map_values(|p: SamplerPrompt| p@)
}

impl View for Meta {
    type V = MetaView;

    open spec fn view(&self) -> MetaView {
        MetaView { raw: opt_text(self.raw), prompts: prompt_views(self.prompts@) }
    }
}

/// The metadata of an image that has none.
pub open spec fn no_meta() -> MetaView {
    MetaView { raw: None, prompts: Seq::empty() }
}

impl Meta {
    /// No metadata.
    pub fn empty() -> (r: Meta)
        ensures
            r@ == no_meta(),
    {
        let r = Meta { raw: None, prompts: Vec::new() };
        assert(r@.prompts =~= no_meta().prompts);
        r
    }
}

/// The text chunks of a PNG file that come before the image data: their keywords
/// and texts. The text of a compressed or Unicode chunk is missing if it cannot
/// be decoded.
pub struct TextChunks {
    pub latin: Vec<(String, String)>,
    pub compressed: Vec<(String, Option<String>)>,
    pub unicode: Vec<(String, Option<String>)>,
}

/// What text chunks say.
pub struct ChunksView {
    pub latin: Seq<(Seq<char>, Seq<char>)>,
    pub compressed: Seq<(Seq<char>, Option<Seq<char>>)>,
    pub unicode: Seq<(Seq<char>, Option<Seq<char>>)>,
}

/// What chunks whose texts may be missing say.
pub open spec fn decoded_views(v: Seq<(String, Option<String>)>) -> Seq<
    (Seq<char>, Option<Seq<char>>),
> {
    v.map_values(|c: (String, Option<String>)| (c.0@, opt_text(c.1)))
}

/// What plain chunks say.
pub open spec fn chunk_views(v: Seq<(String, String)>) -> Seq<(Seq<char>, Seq<char>)> {
    v.map_values(|c: (String, String)| (c.0@, c.1@))
}

impl View for TextChunks {
    type V = ChunksView;

    open spec fn view(&self) -> ChunksView {
        ChunksView {
            latin: chunk_views(self.latin@),
            compressed: decoded_views(self.compressed@),
            unicode: decoded_views(self.unicode@),
        }
    }
}

/// The text chunks that the `png` crate finds in a file before the image data.
pub uninterp spec fn png_chunks(file: Seq<u8>) -> Option<ChunksView>;

/// `png::Decoder::read_info` on a file's bytes, and the text chunks of the
/// resulting `png::Info`, each with its keyword and text; `None` if the bytes
/// are not a PNG file up to the image data. The result depends on the bytes
/// alone.
#[verifier::external_body]
pub(crate) fn read_chunks(file: &[u8]) -> (r: Option<TextChunks>)
    ensures
        match r {
            Some(chunks) => png_chunks(file@) == Some(chunks@),
            None => png_chunks(file@) is None,
        },
{
    let reader = png::Decoder::new(std::io::Cursor::new(file)).read_info().ok()?;
    let info = reader.info();
    let latin = info.uncompressed_latin1_text.iter();
    let compressed = info.compressed_latin1_text.iter();
    let unicode = info.utf8_text.iter();
    Some(TextChunks {
        latin: latin.map(|c| (c.keyword.clone(), c.text.clone())).collect(),
        compressed: compressed.map(|c| (c.keyword.clone(), c.get_text().ok())).collect(),
        unicode: unicode.map(|c| (c.keyword.clone(), c.get_text().ok())).collect(),
    })
}

/// The chunks whose texts are not missing.
pub open spec fn readable(chunks: Seq<(Seq<char>, Option<Seq<char>>)>) -> Seq<
    (Seq<char>, Seq<char>),
>
    decreases chunks.len(),
{
    if chunks.len() == 0 {
        Seq::empty()
    } else {
        let before = readable(chunks.drop_last());
        match chunks.last().1 {
            Some(t) => before.push((chunks.last().0, t)),
            None => before,
        }
    }
}

/// All the texts: those of plain chunks, then of compressed ones, then of
/// Unicode ones.
pub open spec fn all_texts(chunks: ChunksView) -> Seq<(Seq<char>, Seq<char>)> {
    chunks.latin + readable(chunks.compressed) + readable(chunks.unicode)
}

/// The text of the first chunk with a keyword.
pub open spec fn text_under(found: Seq<(Seq<char>, Seq<char>)>, keyword: Seq<char>) -> Option<
    Seq<char>,
>
    decreases found.len(),
{
    if found.len() == 0 {
        None
    } else if found[0].0 == keyword {
        Some(found[0].1)
    } else {
        text_under(found.drop_first(), keyword)
    }
}

/// The text that matters: the one under `prompt`, else the one under `workflow`,
/// else the first.
pub open spec fn prompt_text(found: Seq<(Seq<char>, Seq<char>)>) -> Option<Seq<char>> {
    match text_under(found, "prompt"@) {
        Some(t) => Some(t),
        None => match text_under(found, "workflow"@) {
            Some(t) => Some(t),
            None => if found.len() > 0 {
                Some(found[0].1)
            } else {
                None
            },
        },
    }
}

pub(crate) proof fn text_under_at(found: Seq<(Seq<char>, Seq<char>)>, keyword: Seq<char>, at: int)
    requires
        0 <= at <= found.len(),
        forall|i: int| 0 <= i < at ==> (#[trigger] found[i]).0 != keyword,
        at < found.len() ==> found[at].0 == keyword,
    ensures
        text_under(found, keyword) == if at < found.len() {
            Some(found[at].1)
        } else {
            None
        },
    decreases found.len(),
{
    if at > 0 {
        let rest = found.drop_first();
        assert forall|i: int| 0 <= i < at - 1 implies (#[trigger] rest[i]).0 != keyword by {
            assert(rest[i] == found[i + 1]);
        }
        assert(found[0].0 != keyword);
        text_under_at(rest, keyword, at - 1);
    }
}

/// The text of the first chunk with a keyword.
fn find_text(found: &Vec<(String, String)>, keyword: &str) -> (r: Option<String>)
    ensures
        opt_text(r) == text_under(chunk_views(found@), keyword@),
{
    let ghost all = chunk_views(found@);
    let n: usize = found.len();
    let mut at: usize = 0;
    while at < n && !same_text(found[at].0.as_str(), keyword)
        invariant
            at <= n,
            n == found@.len(),
            all == chunk_views(found@),
            forall|i: int| 0 <= i < at ==> (#[trigger] all[i]).0 != keyword@,
        ensures
            at < n ==> all[at as int].0 == keyword@,
        decreases n - at,
    {
        at = at + 1;
    }
    proof {
        text_under_at(all, keyword@, at as int);
    }
    if at < n {
        Some(found[at].1.as_str().to_owned())
    } else {
        None
    }
}

/// Add the chunks whose texts are not missing.
fn add_readable(found: &mut Vec<(String, String)>, chunks: &Vec<(String, Option<String>)>)
    ensures
        chunk_views(final(found)@) == chunk_views(old(found)@) + readable(decoded_views(chunks@)),
{
    let ghost all = decoded_views(chunks@);
    let ghost before = chunk_views(found@);
    let n: usize = chunks.len();
    let mut at: usize = 0;
    assert(before + readable(all.take(0)) =~= before);
    while at < n
        invariant
            at <= n,
            n == chunks@.len(),
            all == decoded_views(chunks@),
            chunk_views(found@) == before + readable(all.take(at as int)),
        decreases n - at,
    {
        let chunk = &chunks[at];
        assert(all.take(at + 1).drop_last() =~= all.take(at as int));
        assert(all.take(at + 1).last() == (chunk.0@, opt_text(chunk.1)));
        match &chunk.1 {
            Some(t) => {
                let ghost had = chunk_views(found@);
                found.push((chunk.0.as_str().to_owned(), t.as_str().to_owned()));
                assert(chunk_views(found@) =~= had.push((chunk.0@, t@)));
                assert(had.push((chunk.0@, t@)) =~= before + readable(all.take(at + 1)));
            },
            None => {},
        }
        at = at + 1;
    }
    assert(all.take(n as int) =~= all);
}

/// The text that matters among the chunks of a file.
pub fn pick_text(chunks: TextChunks) -> (r: Option<String>)
    ensures
        opt_text(r) == prompt_text(all_texts(chunks@)),
{
    let TextChunks { latin, compressed, unicode } = chunks;
    let mut found = latin;
    add_readable(&mut found, &compressed);
    add_readable(&mut found, &unicode);
    let ghost all = chunk_views(found@);
    match find_text(&found, "prompt") {
        Some(t) => {
            return Some(t);
        },
        None => {},
    }
    match find_text(&found, "workflow") {
        Some(t) => {
            return Some(t);
        },
        None => {},
    }
    if found.len() > 0 {
        assert(all[0] == (found@[0].0@, found@[0].1@));
        Some(found[0].1.as_str().to_owned())
    } else {
        None
    }
}

/// Whether a node of the graph is a sampler: it has inputs, `positive` and
/// `negative` among them. This goes by the inputs, not by the node's class, so
/// that samplers of any kind are found.
pub open spec fn is_sampler_node(node: JsonView) -> bool {
    match field(node, "inputs"@) {
        Some(JsonView::Object(inputs)) => lookup(inputs, "positive"@) is Some && lookup(
            inputs,
            "negative"@,
        ) is Some,
        _ => false,
    }
}

/// Whether a node is a sampler.
pub fn is_sampler(node: &Json) -> (r: bool)
    ensures
        r == is_sampler_node(node.value()),
{
    match node.get("inputs") {
        Some(inputs) => match inputs.as_object() {
            Some(entries) => find(entries, "positive").is_some() && find(
                entries,
                "negative",
            ).is_some(),
            None => false,
        },
        None => false,
    }
}

/// The node that a link names: a link is an array that starts with a node's id.
pub open spec fn link_node(link: JsonView) -> Option<Seq<char>> {
    match link {
        JsonView::Array(items) => if items.len() > 0 {
            text(Some(items[0]))
        } else {
            None
        },
        _ => None,
    }
}

/// The node that a link names.
pub fn link_target(link: &Json) -> (r: Option<&str>)
    ensures
        match r {
            Some(id) => link_node(link.value()) == Some(id@),
            None => link_node(link.value()) is None,
        },
{
    match link.first_item() {
        Some(item) => item.as_str(),
        None => None,
    }
}

/// The text of a text encoder: its input `text`, or the inputs `text_g` and
/// `text_l` of an encoder that has two, the second below the first unless they
/// are the same. An input that is not a text does not count.
pub open spec fn encoder_text(inputs: Entries) -> Option<Seq<char>> {
    match text(lookup(inputs, "text"@)) {
        Some(t) => Some(t),
        None => match (text(lookup(inputs, "text_g"@)), text(lookup(inputs, "text_l"@))) {
            (Some(g), Some(l)) => if g != l {
                Some(g + "\n"@ + l)
            } else {
                Some(g)
            },
            (Some(g), None) => Some(g),
            (None, l) => l,
        },
    }
}

/// The text of a node, if it is a text encoder: the name of its class has
/// `CLIPTextEncode` in it.
pub open spec fn text_of_node(node: JsonView) -> Option<Seq<char>> {
    match text(field(node, "class_type"@)) {
        Some(class) => if occurs_in("CLIPTextEncode"@, class) {
            match field(node, "inputs"@) {
                Some(JsonView::Object(inputs)) => encoder_text(inputs),
                _ => None,
            }
        } else {
            None
        },
        None => None,
    }
}

/// The text that an input holds, if it is a text.
fn input_text<'a>(inputs: &'a Vec<(String, Json)>, key: &str) -> (r: Option<&'a str>)
    ensures
        match r {
            Some(t) => text(lookup(entry_values(inputs@), key@)) == Some(t@),
            None => text(lookup(entry_values(inputs@), key@)) is None,
        },
{
    match find(inputs, key) {
        Some(v) => v.as_str(),
        None => None,
    }
}

/// The text of a node, if it is a text encoder.
pub fn node_text(node: &Json) -> (r: Option<String>)
    ensures
        opt_text(r) == text_of_node(node.value()),
{
    let class = match node.get("class_type") {
        Some(c) => match c.as_str() {
            Some(t) => t,
            None => {
                return None;
            },
        },
        None => {
            return None;
        },
    };
    if !contains(class, "CLIPTextEncode") {
        return None;
    }
    let inputs = match node.get("inputs") {
        Some(i) => match i.as_object() {
            Some(entries) => entries,
            None => {
                return None;
            },
        },
        None => {
            return None;
        },
    };
    match input_text(inputs, "text") {
        Some(t) => {
            return Some(t.to_owned());
        },
        None => {},
    }
    match (input_text(inputs, "text_g"), input_text(inputs, "text_l")) {
        (Some(g), Some(l)) => if same_text(g, l) {
            Some(g.to_owned())
        } else {
            Some(g.to_owned().concat("\n").concat(l))
        },
        (Some(g), None) => Some(g.to_owned()),
        (None, Some(l)) => Some(l.to_owned()),
        (None, None) => None,
    }
}

/// The text behind a sampler's input: it links to a text encoder. Only this one
/// link is followed.
pub open spec fn conditioning(graph: Entries, inputs: Entries, key: Seq<char>) -> Option<Seq<char>> {
    match lookup(inputs, key) {
        Some(link) => match link_node(link) {
            Some(id) => match lookup(graph, id) {
                Some(node) => text_of_node(node),
                None => None,
            },
            None => None,
        },
        None => None,
    }
}

/// The text behind a sampler's input.
pub fn resolve_conditioning(
    graph: &Vec<(String, Json)>,
    inputs: &Vec<(String, Json)>,
    key: &str,
) -> (r: Option<String>)
    ensures
        opt_text(r) == conditioning(entry_values(graph@), entry_values(inputs@), key@),
{
    match find(inputs, key) {
        Some(link) => match link_target(link) {
            Some(id) => match find(graph, id) {
                Some(node) => node_text(node),
                None => None,
            },
            None => None,
        },
        None => None,
    }
}

/// Whether a text is a node number.
pub open spec fn is_number(id: Seq<char>) -> bool {
    unsigned_value(id) matches Some(n) && n <= u64::MAX
}

/// Whether the node id `a` comes before the node id `b`: by number if both are
/// numbers, else by text.
pub open spec fn id_lt(a: Seq<char>, b: Seq<char>) -> bool {
    if is_number(a) && is_number(b) {
        unsigned_value(a)->0 < unsigned_value(b)->0
    } else {
        text_lt(a, b)
    }
}

/// Whether the node id `a` comes before the node id `b`.
pub fn id_before(a: &str, b: &str) -> (r: bool)
    ensures
        r == id_lt(a@, b@),
{
    match (parse_u64(a), parse_u64(b)) {
        (Some(x), Some(y)) => x < y,
        _ => text_before(a, b),
    }
}

/// Ids in order with one more, behind those that it does not come before.
pub open spec fn inserted(sorted: Seq<Seq<char>>, id: Seq<char>) -> Seq<Seq<char>>
    decreases sorted.len(),
{
    if sorted.len() > 0 && id_lt(id, sorted.last()) {
        inserted(sorted.drop_last(), id).push(sorted.last())
    } else {
        sorted.push(id)
    }
}

/// Ids in order, those of equal rank in the order they had.
pub open spec fn in_id_order(ids: Seq<Seq<char>>) -> Seq<Seq<char>>
    decreases ids.len(),
{
    if ids.len() == 0 {
        Seq::empty()
    } else {
        inserted(in_id_order(ids.drop_last()), ids.last())
    }
}

pub(crate) proof fn inserted_at(sorted: Seq<Seq<char>>, id: Seq<char>, at: int)
    requires
        0 <= at <= sorted.len(),
        forall|i: int| at <= i < sorted.len() ==> id_lt(id, #[trigger] sorted[i]),
        at > 0 ==> !id_lt(id, sorted[at - 1]),
    ensures
        inserted(sorted, id) == sorted.insert(at, id),
    decreases sorted.len(),
{
    if at < sorted.len() {
        let rest = sorted.drop_last();
        assert(id_lt(id, sorted[sorted.len() - 1]));
        assert forall|i: int| at <= i < rest.len() implies id_lt(id, #[trigger] rest[i]) by {
            assert(rest[i] == sorted[i]);
        }
        inserted_at(rest, id, at);
        assert(rest.insert(at, id).push(sorted.last()) =~= sorted.insert(at, id));
    } else {
        assert(sorted.push(id) =~= sorted.insert(at, id));
    }
}

/// The ids in order.
pub fn sort_ids(ids: Vec<String>) -> (r: Vec<String>)
    ensures
        views(r@) == in_id_order(views(ids@)),
{
    let ghost all = views(ids@);
    let mut out: Vec<String> = Vec::new();
    let n: usize = ids.len();
    assert(views(out@) =~= in_id_order(all.take(0)));
    while out.len() < n
        invariant
            out@.len() <= n,
            n == ids@.len(),
            all == views(ids@),
            views(out@) == in_id_order(all.take(out@.len() as int)),
        decreases n - out@.len(),
    {
        let ghost had = views(out@);
        let count: usize = out.len();
        let id = ids[count].as_str().to_owned();
        let mut at: usize = count;
        while at > 0 && id_before(id.as_str(), out[at - 1].as_str())
            invariant
                at <= count,
                count == out@.len(),
                had == views(out@),
                forall|i: int| at <= i < count ==> id_lt(id@, #[trigger] had[i]),
            ensures
                at > 0 ==> !id_lt(id@, had[at - 1]),
            decreases at,
        {
            at = at - 1;
            assert(had[at as int] == out@[at as int]@);
        }
        proof {
            inserted_at(had, id@, at as int);
            assert(all.take(count + 1).drop_last() =~= all.take(count as int));
        }
        let ghost new = id@;
        out.insert(at, id);
        assert(views(out@) =~= had.insert(at as int, new));
    }
    assert(all.take(n as int) =~= all);
    out
}

/// The ids of a graph's samplers.
pub open spec fn sampler_ids(graph: Entries) -> Seq<Seq<char>>
    decreases graph.len(),
{
    if graph.len() == 0 {
        Seq::empty()
    } else {
        let before = sampler_ids(graph.drop_last());
        if is_sampler_node(graph.last().1) {
            before.push(graph.last().0)
        } else {
            before
        }
    }
}

/// The prompts of the sampler with an id, if at least one has a text.
pub open spec fn sampler_prompt(graph: Entries, id: Seq<char>) -> Option<PromptView> {
    match lookup(graph, id) {
        Some(node) => match field(node, "inputs"@) {
            Some(JsonView::Object(inputs)) => {
                let positive = conditioning(graph, inputs, "positive"@);
                let negative = conditioning(graph, inputs, "negative"@);
                if positive is Some || negative is Some {
                    Some(PromptView { sampler_node: id, positive, negative })
                } else {
                    None
                }
            },
            _ => None,
        },
        None => None,
    }
}

/// The prompts of the samplers with some ids, without those that have no text.
pub open spec fn prompts_of(graph: Entries, ids: Seq<Seq<char>>) -> Seq<PromptView>
    decreases ids.len(),
{
    if ids.len() == 0 {
        Seq::empty()
    } else {
        let before = prompts_of(graph, ids.drop_last());
        match sampler_prompt(graph, ids.last()) {
            Some(p) => before.push(p),
            None => before,
        }
    }
}

/// The prompts of a graph's samplers, in the order of the samplers' ids. What is
/// not a graph has none.
pub open spec fn graph_prompts(value: JsonView) -> Seq<PromptView> {
    match value {
        JsonView::Object(graph) => prompts_of(graph, in_id_order(sampler_ids(graph))),
        _ => Seq::empty(),
    }
}

/// The ids of a graph's samplers.
fn find_samplers(graph: &Vec<(String, Json)>) -> (r: Vec<String>)
    ensures
        views(r@) == sampler_ids(entry_values(graph@)),
{
    let ghost all = entry_values(graph@);
    proof {
        entry_values_each(graph@);
    }
    let mut out: Vec<String> = Vec::new();
    let n: usize = graph.len();
    let mut at: usize = 0;
    assert(views(out@) =~= sampler_ids(all.take(0)));
    while at < n
        invariant
            at <= n,
            n == graph@.len(),
            all.len() == n,
            forall|i: int|
                0 <= i < n ==> all[i] == ((#[trigger] graph@[i]).0@, graph@[i].1.value()),
            views(out@) == sampler_ids(all.take(at as int)),
        decreases n - at,
    {
        let entry = &graph[at];
        assert(all[at as int] == (entry.0@, entry.1.value()));
        assert(all.take(at + 1).drop_last() =~= all.take(at as int));
        if is_sampler(&entry.1) {
            let ghost had = views(out@);
            out.push(entry.0.as_str().to_owned());
            assert(views(out@) =~= had.push(entry.0@));
        }
        at = at + 1;
    }
    assert(all.take(n as int) =~= all);
    out
}

/// The prompts of the sampler with an id, if at least one has a text.
fn prompt_of(graph: &Vec<(String, Json)>, id: &str) -> (r: Option<SamplerPrompt>)
    ensures
        match r {
            Some(p) => sampler_prompt(entry_values(graph@), id@) == Some(p@),
            None => sampler_prompt(entry_values(graph@), id@) is None,
        },
{
    let inputs = match find(graph, id) {
        Some(node) => match node.get("inputs") {
            Some(i) => match i.as_object() {
                Some(entries) => entries,
                None => {
                    return None;
                },
            },
            None => {
                return None;
            },
        },
        None => {
            return None;
        },
    };
    let positive = resolve_conditioning(graph, inputs, "positive");
    let negative = resolve_conditioning(graph, inputs, "negative");
    if positive.is_some() || negative.is_some() {
        Some(SamplerPrompt { sampler_node: id.to_owned(), positive, negative })
    } else {
        None
    }
}

/// The prompts of a graph's samplers, in the order of the samplers' ids.
pub fn walk_graph(value: &Json) -> (r: Vec<SamplerPrompt>)
    ensures
        prompt_views(r@) == graph_prompts(value.value()),
{
    let mut out: Vec<SamplerPrompt> = Vec::new();
    assert(prompt_views(out@) =~= Seq::<PromptView>::empty());
    let graph = match value.as_object() {
        Some(g) => g,
        None => {
            return out;
        },
    };
    let ids = sort_ids(find_samplers(graph));
    let ghost all = views(ids@);
    let ghost entries = entry_values(graph@);
    let n: usize = ids.len();
    let mut at: usize = 0;
    assert(prompt_views(out@) =~= prompts_of(entries, all.take(0)));
    while at < n
        invariant
            at <= n,
            n == ids@.len(),
            all == views(ids@),
            entries == entry_values(graph@),
            prompt_views(out@) == prompts_of(entries, all.take(at as int)),
        decreases n - at,
    {
        assert(all.take(at + 1).drop_last() =~= all.take(at as int));
        assert(all.take(at + 1).last() == ids@[at as int]@);
        match prompt_of(graph, ids[at].as_str()) {
            Some(p) => {
                let ghost had = prompt_views(out@);
                out.push(p);
                assert(prompt_views(out@) =~= had.push(p@));
            },
            None => {},
        }
        at = at + 1;
    }
    assert(all.take(n as int) =~= all);
    out
}

/// What is shown of a text: as JSON over several lines with the graph's prompts
/// if it is JSON, else the text as it stands. `parsed` is the JSON value and how
/// it prints, if it does.
pub open spec fn shown_meta(
    text: Seq<char>,
    parsed: Option<(JsonView, Option<Seq<char>>)>,
) -> MetaView {
    match parsed {
        Some((value, Some(print))) => MetaView { raw: Some(print), prompts: graph_prompts(value) },
        Some((value, None)) => MetaView { raw: Some(text), prompts: graph_prompts(value) },
        None => MetaView { raw: Some(text), prompts: Seq::empty() },
    }
}

/// What a parsed text says: the value, and how it prints.
pub open spec fn parsed_view(parsed: Option<(Json, Option<String>)>) -> Option<
    (JsonView, Option<Seq<char>>),
> {
    match parsed {
        Some((value, print)) => Some((value.value(), opt_text(print))),
        None => None,
    }
}

/// What is shown of a text, given the JSON value that it is, if it is one, and
/// how that prints.
pub fn meta_from(text: String, parsed: Option<(Json, Option<String>)>) -> (r: Meta)
    ensures
        r@ == shown_meta(text@, parsed_view(parsed)),
{
    match parsed {
        Some((value, print)) => {
            let prompts = walk_graph(&value);
            let raw = match print {
                Some(p) => p,
                None => text,
            };
            Meta { raw: Some(raw), prompts }
        },
        None => {
            let r = Meta { raw: Some(text), prompts: Vec::new() };
            assert(r@.prompts =~= Seq::<PromptView>::empty());
            r
        },
    }
}

/// The metadata that is extracted from a file; none if the file could not be
/// read, is not a PNG file, or has no text.
pub open spec fn extracted(file: Option<Seq<u8>>) -> MetaView {
    match file {
        Some(bytes) => match png_chunks(bytes) {
            Some(chunks) => match prompt_text(all_texts(chunks)) {
                Some(t) => shown_meta(
                    t,
                    match parsed(t) {
                        Some(value) => Some((value, printed(value))),
                        None => None,
                    },
                ),
                None => no_meta(),
            },
            None => no_meta(),
        },
        None => no_meta(),
    }
}

/// Extract the metadata from a file's bytes, `None` if it could not be read.
pub fn extract_meta(file: Option<&[u8]>) -> (r: Meta)
    ensures
        r@ == extracted(
            match file {
                Some(bytes) => Some(bytes@),
                None => None,
            },
        ),
{
    let bytes = match file {
        Some(b) => b,
        None => {
            return Meta::empty();
        },
    };
    let chunks = match read_chunks(bytes) {
        Some(c) => c,
        None => {
            return Meta::empty();
        },
    };
    let text = match pick_text(chunks) {
        Some(t) => t,
        None => {
            return Meta::empty();
        },
    };
    let parsed = match parse_text(text.as_str()) {
        Some(value) => Some((convert(&value), print_pretty(&value))),
        None => None,
    };
    meta_from(text, parsed)
}

proof fn inserted_keeps_all(sorted: Seq<Seq<char>>, id: Seq<char>)
    ensures
        inserted(sorted, id).to_multiset() == sorted.to_multiset().insert(id),
    decreases sorted.len(),
{
    sorted.to_multiset_ensures();
    if sorted.len() > 0 && id_lt(id, sorted.last()) {
        let rest = sorted.drop_last();
        inserted_keeps_all(rest, id);
        inserted(rest, id).to_multiset_ensures();
        rest.to_multiset_ensures();
        assert(rest.push(sorted.last()) =~= sorted);
        assert(inserted(sorted, id).to_multiset() =~= sorted.to_multiset().insert(id));
    }
}

/// Putting ids in order keeps them all, as often as they are there.
pub proof fn order_keeps_all_ids(ids: Seq<Seq<char>>)
    ensures
        in_id_order(ids).to_multiset() == ids.to_multiset(),
    decreases ids.len(),
{
    ids.to_multiset_ensures();
    if ids.len() > 0 {
        let rest = ids.drop_last();
        order_keeps_all_ids(rest);
        inserted_keeps_all(in_id_order(rest), ids.last());
        rest.to_multiset_ensures();
        assert(rest.push(ids.last()) =~= ids);
    } else {
        assert(in_id_order(ids) =~= ids);
    }
}

/// Whether ids can be ranked: all are numbers, or none is. The order of ids is
/// not transitive on others: `9` comes before `10`, `10` before `1x`, and `1x`
/// before `9`.
pub open spec fn can_be_ranked(ids: Seq<Seq<char>>) -> bool {
    ||| forall|i: int| 0 <= i < ids.len() ==> is_number(#[trigger] ids[i])
    ||| forall|i: int| 0 <= i < ids.len() ==> !is_number(#[trigger] ids[i])
}

proof fn ranked_transitive(a: Seq<char>, b: Seq<char>, c: Seq<char>)
    requires
        is_number(a) == is_number(b),
        is_number(b) == is_number(c),
        id_lt(a, b),
        !id_lt(c, b),
    ensures
        id_lt(a, c),
{
    if !is_number(a) {
        text_lt_total(b, c);
        if text_lt(b, c) {
            text_lt_transitive(a, b, c);
        }
    }
}

proof fn ranked_asymmetric(a: Seq<char>, b: Seq<char>)
    requires
        is_number(a) == is_number(b),
        id_lt(a, b),
    ensures
        !id_lt(b, a),
{
    if !is_number(a) {
        text_lt_asymmetric(a, b);
    }
}

proof fn inserted_in_order(sorted: Seq<Seq<char>>, id: Seq<char>)
    requires
        can_be_ranked(sorted.push(id)),
        forall|i: int, j: int|
            0 <= i < j < sorted.len() ==> !id_lt(#[trigger] sorted[j], #[trigger] sorted[i]),
    ensures
        can_be_ranked(inserted(sorted, id)),
        forall|i: int, j: int|
            0 <= i < j < inserted(sorted, id).len() ==> !id_lt(
                #[trigger] inserted(sorted, id)[j],
                #[trigger] inserted(sorted, id)[i],
            ),
        inserted(sorted, id).len() == sorted.len() + 1,
{
    let all = sorted.push(id);
    assert(all[sorted.len() as int] == id);
    assert forall|i: int| 0 <= i < sorted.len() implies is_number(#[trigger] sorted[i])
        == is_number(id) by {
        assert(all[i] == sorted[i]);
    }
    let at = place_of(sorted, id);
    inserted_at(sorted, id, at);
    let r = sorted.insert(at, id);
    assert forall|i: int| 0 <= i < r.len() implies is_number(#[trigger] r[i]) == is_number(id) by {
        if i < at {
            assert(r[i] == sorted[i]);
        } else if i > at {
            assert(r[i] == sorted[i - 1]);
        }
    }
    assert forall|i: int, j: int| 0 <= i < j < r.len() implies !id_lt(
        #[trigger] r[j],
        #[trigger] r[i],
    ) by {
        if i < at && j < at {
            assert(!id_lt(sorted[j], sorted[i]));
        } else if i >= at && i != at {
            assert(!id_lt(sorted[j - 1], sorted[i - 1]));
        } else if i == at {
            assert(id_lt(id, sorted[j - 1]));
            ranked_asymmetric(id, sorted[j - 1]);
        } else if j == at {
            if i < at - 1 {
                assert(!id_lt(sorted[at - 1], sorted[i]));
                if id_lt(id, sorted[i]) {
                    ranked_transitive(id, sorted[i], sorted[at - 1]);
                }
            }
        } else {
            assert(!id_lt(sorted[j - 1], sorted[i]));
        }
    }
}

/// The place where an id is inserted.
pub(crate) proof fn place_of(sorted: Seq<Seq<char>>, id: Seq<char>) -> (at: int)
    ensures
        0 <= at <= sorted.len(),
        forall|i: int| at <= i < sorted.len() ==> id_lt(id, #[trigger] sorted[i]),
        at > 0 ==> !id_lt(id, sorted[at - 1]),
    decreases sorted.len(),
{
    if sorted.len() > 0 && id_lt(id, sorted.last()) {
        let rest = sorted.drop_last();
        let at = place_of(rest, id);
        assert forall|i: int| at <= i < sorted.len() implies id_lt(id, #[trigger] sorted[i]) by {
            if i < rest.len() {
                assert(rest[i] == sorted[i]);
            }
        }
        at
    } else {
        sorted.len() as int
    }
}

/// Ids that are all numbers come out in the order of the numbers, and ids that
/// are none come out in the order of the texts.
pub proof fn ranked_ids_are_in_order(ids: Seq<Seq<char>>)
    requires
        can_be_ranked(ids),
    ensures
        can_be_ranked(in_id_order(ids)),
        in_id_order(ids).len() == ids.len(),
        forall|i: int, j: int|
            0 <= i < j < ids.len() ==> !id_lt(
                #[trigger] in_id_order(ids)[j],
                #[trigger] in_id_order(ids)[i],
            ),
    decreases ids.len(),
{
    if ids.len() > 0 {
        let rest = ids.drop_last();
        assert forall|i: int| 0 <= i < rest.len() implies is_number(#[trigger] rest[i])
            == is_number(ids.last()) by {
            assert(rest[i] == ids[i]);
            assert(ids[ids.len() - 1] == ids.last());
        }
        ranked_ids_are_in_order(rest);
        order_keeps_all_ids(rest);
        let sorted = in_id_order(rest);
        let all = sorted.push(ids.last());
        rest.to_multiset_ensures();
        sorted.to_multiset_ensures();
        assert forall|i: int| 0 <= i < all.len() implies is_number(#[trigger] all[i]) == is_number(
            ids.last(),
        ) by {
            if i < sorted.len() {
                assert(sorted.contains(sorted[i]));
                assert(sorted.to_multiset().contains(sorted[i]));
                assert(rest.contains(sorted[i]));
                let k = choose|k: int| 0 <= k < rest.len() && rest[k] == sorted[i];
                assert(is_number(rest[k]) == is_number(ids.last()));
            }
        }
        inserted_in_order(sorted, ids.last());
    }
}

proof fn prompts_come_from_ids(graph: Entries, ids: Seq<Seq<char>>, i: int)
    requires
        0 <= i < prompts_of(graph, ids).len(),
    ensures
        ids.contains(prompts_of(graph, ids)[i].sampler_node),
        sampler_prompt(graph, prompts_of(graph, ids)[i].sampler_node) == Some(
            prompts_of(graph, ids)[i],
        ),
    decreases ids.len(),
{
    let rest = ids.drop_last();
    let before = prompts_of(graph, rest);
    if i < before.len() {
        prompts_come_from_ids(graph, rest, i);
        let k = choose|k: int|
            0 <= k < rest.len() && rest[k] == prompts_of(graph, rest)[i].sampler_node;
        assert(ids[k] == rest[k]);
    } else {
        assert(ids[ids.len() - 1] == ids.last());
    }
}

pub(crate) proof fn sampler_ids_are_samplers(graph: Entries, id: Seq<char>)
    requires
        sampler_ids(graph).contains(id),
    ensures
        exists|k: int|
            0 <= k < graph.len() && (#[trigger] graph[k]).0 == id && is_sampler_node(graph[k].1),
    decreases graph.len(),
{
    if graph.len() > 0 {
        let rest = graph.drop_last();
        let ids = sampler_ids(graph);
        let at = choose|at: int| 0 <= at < ids.len() && ids[at] == id;
        if at < sampler_ids(rest).len() {
            assert(sampler_ids(rest)[at] == id);
            sampler_ids_are_samplers(rest, id);
            let k = choose|k: int|
                0 <= k < rest.len() && (#[trigger] rest[k]).0 == id && is_sampler_node(rest[k].1);
            assert(graph[k] == rest[k]);
        } else {
            assert(graph[graph.len() - 1] == graph.last());
        }
    }
}

/// Every prompt that is found belongs to a sampler of the graph, and has at
/// least one text.
pub proof fn prompts_belong_to_samplers(graph: Entries, i: int)
    requires
        0 <= i < graph_prompts(JsonView::Object(graph)).len(),
    ensures
        ({
            let p = graph_prompts(JsonView::Object(graph))[i];
            &&& exists|k: int|
                0 <= k < graph.len() && (#[trigger] graph[k]).0 == p.sampler_node
                    && is_sampler_node(graph[k].1)
            &&& sampler_prompt(graph, p.sampler_node) == Some(p)
            &&& p.positive is Some || p.negative is Some
        }),
{
    let ids = sampler_ids(graph);
    let sorted = in_id_order(ids);
    prompts_come_from_ids(graph, sorted, i);
    let p = graph_prompts(JsonView::Object(graph))[i];
    order_keeps_all_ids(ids);
    ids.to_multiset_ensures();
    sorted.to_multiset_ensures();
    assert(sorted.to_multiset().contains(p.sampler_node));
    assert(ids.contains(p.sampler_node));
    sampler_ids_are_samplers(graph, p.sampler_node);
}

/// Whether no two nodes of a graph have the same id, as in every JSON object.
pub open spec fn ids_differ(graph: Entries) -> bool {
    forall|i: int, j: int|
        0 <= i < j < graph.len() ==> (#[trigger] graph[i]).0 != (#[trigger] graph[j]).0
}

proof fn sampler_is_among_ids(graph: Entries, k: int)
    requires
        0 <= k < graph.len(),
        is_sampler_node(graph[k].1),
    ensures
        sampler_ids(graph).contains(graph[k].0),
    decreases graph.len(),
{
    let rest = graph.drop_last();
    let ids = sampler_ids(graph);
    if k < rest.len() {
        sampler_is_among_ids(rest, k);
        let at = choose|at: int|
            0 <= at < sampler_ids(rest).len() && sampler_ids(rest)[at] == graph[k].0;
        assert(ids[at] == graph[k].0);
    } else {
        assert(ids[ids.len() - 1] == graph[k].0);
    }
}

proof fn sampler_ids_are_distinct(graph: Entries)
    requires
        ids_differ(graph),
    ensures
        sampler_ids(graph).no_duplicates(),
    decreases graph.len(),
{
    if graph.len() > 0 {
        let rest = graph.drop_last();
        let before = sampler_ids(rest);
        let ids = sampler_ids(graph);
        assert forall|i: int, j: int| 0 <= i < j < rest.len() implies (#[trigger] rest[i]).0 != (
        #[trigger] rest[j]).0 by {
            assert(rest[i] == graph[i] && rest[j] == graph[j]);
        }
        sampler_ids_are_distinct(rest);
        assert(!before.contains(graph.last().0)) by {
            if before.contains(graph.last().0) {
                sampler_ids_are_samplers(rest, graph.last().0);
                let k = choose|k: int|
                    0 <= k < rest.len() && (#[trigger] rest[k]).0 == graph.last().0
                        && is_sampler_node(rest[k].1);
                assert(graph[k].0 != graph[graph.len() - 1].0);
            }
        }
        assert forall|i: int, j: int|
            0 <= i < ids.len() && 0 <= j < ids.len() && i != j implies ids[i] != ids[j] by {
            if i < before.len() {
                assert(before.contains(before[i]));
            }
            if j < before.len() {
                assert(before.contains(before[j]));
            }
        }
    }
}

proof fn prompts_cover_ids(graph: Entries, ids: Seq<Seq<char>>, id: Seq<char>) -> (at: int)
    requires
        ids.contains(id),
        sampler_prompt(graph, id) is Some,
    ensures
        0 <= at < prompts_of(graph, ids).len(),
        prompts_of(graph, ids)[at] == sampler_prompt(graph, id)->0,
    decreases ids.len(),
{
    let rest = ids.drop_last();
    if ids.last() == id {
        prompts_of(graph, ids).len() - 1
    } else {
        let k = choose|k: int| 0 <= k < ids.len() && ids[k] == id;
        assert(rest[k] == id);
        prompts_cover_ids(graph, rest, id)
    }
}

proof fn prompts_are_distinct(graph: Entries, ids: Seq<Seq<char>>)
    requires
        ids.no_duplicates(),
    ensures
        forall|i: int, j: int|
            0 <= i < j < prompts_of(graph, ids).len() ==> (#[trigger] prompts_of(
                graph,
                ids,
            )[i]).sampler_node != (#[trigger] prompts_of(graph, ids)[j]).sampler_node,
    decreases ids.len(),
{
    if ids.len() > 0 {
        let rest = ids.drop_last();
        let before = prompts_of(graph, rest);
        let all = prompts_of(graph, ids);
        prompts_are_distinct(graph, rest);
        assert forall|i: int, j: int| 0 <= i < j < all.len() implies (
        #[trigger] all[i]).sampler_node != (#[trigger] all[j]).sampler_node by {
            assert(all[i] == before[i]);
            if j == before.len() {
                prompts_come_from_ids(graph, rest, i);
                let k = choose|k: int| 0 <= k < rest.len() && rest[k] == before[i].sampler_node;
                assert(ids[k] != ids[ids.len() - 1]);
            } else {
                assert(all[j] == before[j]);
            }
        }
    }
}

/// Every sampler of a graph with at least one text is listed, and listed once.
pub proof fn samplers_with_text_are_listed_once(graph: Entries, k: int)
    requires
        ids_differ(graph),
        0 <= k < graph.len(),
        is_sampler_node(graph[k].1),
        sampler_prompt(graph, graph[k].0) is Some,
    ensures
        ({
            let prompts = graph_prompts(JsonView::Object(graph));
            exists|i: int|
                0 <= i < prompts.len() && #[trigger] prompts[i] == sampler_prompt(
                    graph,
                    graph[k].0,
                )->0 && forall|j: int|
                    0 <= j < prompts.len() && j != i ==> (#[trigger] prompts[j]).sampler_node
                        != graph[k].0
        }),
{
    let ids = sampler_ids(graph);
    let sorted = in_id_order(ids);
    let prompts = graph_prompts(JsonView::Object(graph));
    sampler_is_among_ids(graph, k);
    sampler_ids_are_distinct(graph);
    order_keeps_all_ids(ids);
    ids.to_multiset_ensures();
    sorted.to_multiset_ensures();
    assert(ids.to_multiset().contains(graph[k].0));
    assert(sorted.contains(graph[k].0));
    ids.lemma_multiset_has_no_duplicates();
    assert forall|x: Seq<char>| #[trigger] sorted.to_multiset().contains(x) implies sorted.to_multiset().count(
        x,
    ) == 1 by {
        assert(ids.to_multiset().contains(x));
    }
    sorted.lemma_multiset_has_no_duplicates_conv();
    let at = prompts_cover_ids(graph, sorted, graph[k].0);
    prompts_are_distinct(graph, sorted);
    assert(prompts[at] == sampler_prompt(graph, graph[k].0)->0);
    assert forall|j: int| 0 <= j < prompts.len() && j != at implies (
    #[trigger] prompts[j]).sampler_node != graph[k].0 by {
        assert(prompts[at].sampler_node == graph[k].0);
    }
}

proof fn prompts_follow_ids(graph: Entries, ids: Seq<Seq<char>>)
    requires
        forall|i: int, j: int|
            0 <= i < j < ids.len() ==> !id_lt(#[trigger] ids[j], #[trigger] ids[i]),
    ensures
        forall|i: int, j: int|
            0 <= i < j < prompts_of(graph, ids).len() ==> !id_lt(
                (#[trigger] prompts_of(graph, ids)[j]).sampler_node,
                (#[trigger] prompts_of(graph, ids)[i]).sampler_node,
            ),
    decreases ids.len(),
{
    if ids.len() > 0 {
        let rest = ids.drop_last();
        let before = prompts_of(graph, rest);
        let all = prompts_of(graph, ids);
        assert forall|i: int, j: int| 0 <= i < j < rest.len() implies !id_lt(
            #[trigger] rest[j],
            #[trigger] rest[i],
        ) by {
            assert(rest[i] == ids[i] && rest[j] == ids[j]);
        }
        prompts_follow_ids(graph, rest);
        assert forall|i: int, j: int| 0 <= i < j < all.len() implies !id_lt(
            (#[trigger] all[j]).sampler_node,
            (#[trigger] all[i]).sampler_node,
        ) by {
            assert(all[i] == before[i]);
            if j == before.len() {
                prompts_come_from_ids(graph, rest, i);
                let k = choose|k: int| 0 <= k < rest.len() && rest[k] == before[i].sampler_node;
                assert(ids[k] == rest[k]);
                assert(!id_lt(ids[ids.len() - 1], ids[k]));
            } else {
                assert(all[j] == before[j]);
            }
        }
    }
}

/// Samplers are listed in the order of their ids, if the ids of the graph's
/// samplers can be ranked.
pub proof fn samplers_are_listed_in_order(graph: Entries)
    requires
        can_be_ranked(sampler_ids(graph)),
    ensures
        forall|i: int, j: int|
            0 <= i < j < graph_prompts(JsonView::Object(graph)).len() ==> !id_lt(
                (#[trigger] graph_prompts(JsonView::Object(graph))[j]).sampler_node,
                (#[trigger] graph_prompts(JsonView::Object(graph))[i]).sampler_node,
            ),
{
    ranked_ids_are_in_order(sampler_ids(graph));
    prompts_follow_ids(graph, in_id_order(sampler_ids(graph)));
}

} // verus!
