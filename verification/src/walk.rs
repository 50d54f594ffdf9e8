//! Enumeration of the source tree: the stateless single-pass `next` and
//! `count`.
//!
//! Every call walks the tree afresh, never sorts, and remembers nothing of the
//! images that it has looked at but the best so far. What it holds besides are
//! the entries still to be looked at of the directories that it has read. The
//! file system is reached one directory at a time: a search says which directory
//! to read, and is told what it holds.
//!
//! Relative paths use `/` separators and are compared by their bytes.

use crate::config::{ascending, has_text, Config, Order};
use crate::order::{
    text_before, text_lt, text_lt_asymmetric, text_lt_irreflexive, text_lt_total,
    text_lt_transitive,
};
use crate::paths::is_under;
use crate::text::{
    chars_of, last_index, last_index_in_range, lower_char_facts, lowered, lowered_twice, opt_str,
    opt_text, rfind, text_of, to_lower, views,
};
use crate::unix_path::{copy_bytes, join, joined, under};
use vstd::prelude::*;
use vstd::utf8::encode_utf8;

verus! {

/// What a directory entry is.
#[derive(Debug, Clone, Copy, PartialEq, Eq, Structural)]
pub enum EntryKind {
    Dir,
    File,
    Symlink,
    Other,
}

/// A directory entry as it was read.
#[derive(Debug)]
pub struct DirEntry {
    /// The name; `None` if it is not UTF-8 or could not be read.
    pub name: Option<String>,
    /// What it is; `None` if that could not be found out.
    pub kind: Option<EntryKind>,
}

/// What came of reading a directory.
#[derive(Debug)]
pub enum Listing {
    Entries(Vec<DirEntry>),
    /// The directory is gone.
    NotFound,
    /// It could not be read for another reason.
    Failed,
}

/// What a [`DirEntry`] says.
pub struct EntryView {
    pub name: Option<Seq<char>>,
    pub kind: Option<EntryKind>,
}

impl View for DirEntry {
    type V = EntryView;

    open spec fn view(&self) -> EntryView {
        EntryView {
            name: match self.name {
                Some(n) => Some(n@),
                None => None,
            },
            kind: self.kind,
        }
    }
}

/// What each entry says.
pub open spec fn entry_views(v: Seq<DirEntry>) -> Seq<EntryView> {
    v.map_values(|e: DirEntry| e@)
}

/// A directory or an image that a walk has yet to come to.
#[derive(Debug)]
pub struct Item {
    /// Its path relative to the root of the walk.
    pub rel: String,
    /// Its path.
    pub abs: Vec<u8>,
    /// Whether it is a directory.
    pub dir: bool,
}

/// What an [`Item`] says.
#[verifier::ext_equal]
pub struct ItemView {
    pub rel: Seq<char>,
    pub abs: Seq<u8>,
    pub dir: bool,
}

impl View for Item {
    type V = ItemView;

    open spec fn view(&self) -> ItemView {
        ItemView { rel: self.rel@, abs: self.abs@, dir: self.dir }
    }
}

/// What a walk goes by: the extensions of images, and the subtrees to skip.
#[verifier::ext_equal]
pub struct Rules {
    pub extensions: Seq<Seq<char>>,
    pub prune: Seq<Seq<u8>>,
}

/// Whether a file name has one of the extensions, whatever its case. A dot that
/// the name starts with begins no extension.
pub open spec fn has_extension(extensions: Seq<Seq<char>>, name: Seq<char>) -> bool {
    match last_index(name, '.') {
        Some(i) => i > 0 && extensions.contains(lowered(name.skip(i + 1))),
        None => false,
    }
}

proof fn lowered_dots(s: Seq<char>)
    ensures
        last_index(lowered(s), '.') == last_index(s, '.'),
    decreases s.len(),
{
    if s.len() > 0 {
        lowered_dots(s.drop_last());
        lower_char_facts(s.last());
        assert(lowered(s).drop_last() =~= lowered(s.drop_last()));
    }
}

/// The case of a file name does not matter to whether it is an image.
pub proof fn case_does_not_matter(extensions: Seq<Seq<char>>, name: Seq<char>)
    ensures
        has_extension(extensions, lowered(name)) == has_extension(extensions, name),
{
    lowered_dots(name);
    last_index_in_range(name, '.');
    match last_index(name, '.') {
        Some(i) => {
            lowered_twice(name.skip(i + 1));
            assert(lowered(name).skip(i + 1) =~= lowered(name.skip(i + 1)));
        },
        None => {},
    }
}

/// Whether a path lies in a subtree to skip.
pub open spec fn is_pruned(rules: Rules, abs: Seq<u8>) -> bool {
    exists|i: int| 0 <= i < rules.prune.len() && under(abs, #[trigger] rules.prune[i])
}

/// A name in the directory at relative path `rel`.
pub open spec fn child_rel(rel: Seq<char>, name: Seq<char>) -> Seq<char> {
    if rel.len() == 0 {
        name
    } else {
        rel + "/"@ + name
    }
}

/// What an entry adds to a walk: nothing if it cannot be told what it is, if it
/// is hidden or a symlink, if it is a directory to skip, or if it is a file but
/// no image.
pub open spec fn admitted(rules: Rules, dir: ItemView, entry: EntryView) -> Option<ItemView> {
    match (entry.name, entry.kind) {
        (Some(name), Some(kind)) => {
            let abs = joined(dir.abs, encode_utf8(name));
            let rel = child_rel(dir.rel, name);
            if name.len() > 0 && name[0] == '.' {
                None
            } else if kind == EntryKind::Dir && !is_pruned(rules, abs) {
                Some(ItemView { rel, abs, dir: true })
            } else if kind == EntryKind::File && has_extension(rules.extensions, name) {
                Some(ItemView { rel, abs, dir: false })
            } else {
                None
            }
        },
        _ => None,
    }
}

/// What the entries of a directory add to a walk, in their order.
pub open spec fn additions(rules: Rules, dir: ItemView, entries: Seq<EntryView>) -> Seq<ItemView>
    decreases entries.len(),
{
    if entries.len() == 0 {
        Seq::empty()
    } else {
        let before = additions(rules, dir, entries.drop_last());
        match admitted(rules, dir, entries.last()) {
            Some(item) => before.push(item),
            None => before,
        }
    }
}

/// How many items at the front are images.
pub open spec fn images_ahead(pending: Seq<ItemView>) -> nat
    decreases pending.len(),
{
    if pending.len() == 0 || pending[0].dir {
        0
    } else {
        1 + images_ahead(pending.drop_first())
    }
}

/// The relative paths of the items.
pub open spec fn rels(items: Seq<ItemView>) -> Seq<Seq<char>> {
    items.map_values(|i: ItemView| i.rel)
}

/// What is pending after a directory was read: its own items come first.
pub open spec fn pending_after(
    rules: Rules,
    dir: ItemView,
    pending: Seq<ItemView>,
    listing: Listing,
) -> Seq<ItemView> {
    match listing {
        Listing::Entries(v) => additions(rules, dir, entry_views(v@)) + pending,
        _ => pending,
    }
}

/// True if `name` has one of the configured extensions.
pub fn has_allowed_ext(cfg: &Config, name: &str) -> (r: bool)
    ensures
        r == has_extension(views(cfg.extensions@), name@),
{
    let chars = chars_of(name);
    match rfind(&chars, '.') {
        Some(i) => {
            if i == 0 {
                return false;
            }
            let n: usize = chars.len();
            let ext = text_of(&chars, i + 1, n);
            assert(ext@ =~= name@.skip(i + 1));
            has_text(&cfg.extensions, to_lower(ext.as_str()).as_str())
        },
        None => false,
    }
}

/// A walk: the items that it has yet to come to, the next one last.
pub(crate) struct Walk<'a> {
    cfg: &'a Config,
    prune: Vec<&'a [u8]>,
    stack: Vec<Item>,
}

/// The paths behind the references.
pub open spec fn slice_views(v: Seq<&[u8]>) -> Seq<Seq<u8>> {
    v.map_values(|p: &[u8]| p@)
}

/// What each item says.
pub open spec fn item_views(v: Seq<Item>) -> Seq<ItemView> {
    v.map_values(|i: Item| i@)
}

impl<'a> Walk<'a> {
    pub closed spec fn cfg(self) -> Config {
        *self.cfg
    }

    /// What the walk goes by.
    pub closed spec fn rules(self) -> Rules {
        Rules { extensions: views(self.cfg.extensions@), prune: slice_views(self.prune@) }
    }

    /// The items that the walk has yet to come to, in their order.
    pub closed spec fn pending(self) -> Seq<ItemView> {
        item_views(self.stack@).reverse()
    }

    /// A walk with nothing pending.
    pub(crate) fn new(cfg: &'a Config, prune: Vec<&'a [u8]>) -> (r: Walk<'a>)
        ensures
            r.cfg() == *cfg,
            r.rules() == (Rules {
                extensions: views(cfg.extensions@),
                prune: slice_views(prune@),
            }),
            r.pending() == Seq::<ItemView>::empty(),
    {
        let r = Walk { cfg, prune, stack: Vec::new() };
        assert(r.pending() =~= Seq::<ItemView>::empty());
        r
    }

    /// The direction in which images are shown.
    pub(crate) fn order(&self) -> (r: Order)
        ensures
            r == self.cfg().order,
    {
        self.cfg.order
    }

    /// The number of items pending.
    pub(crate) fn len(&self) -> (r: usize)
        ensures
            r == self.pending().len(),
    {
        self.stack.len()
    }

    /// The next item, which leaves the walk.
    pub(crate) fn take(&mut self) -> (r: Option<Item>)
        ensures
            final(self).cfg() == old(self).cfg(),
            final(self).rules() == old(self).rules(),
            match r {
                Some(item) => old(self).pending().len() > 0 && item@ == old(self).pending()[0]
                    && final(self).pending() == old(self).pending().drop_first(),
                None => old(self).pending().len() == 0 && final(self).pending() == old(
                    self,
                ).pending(),
            },
    {
        let r = self.stack.pop();
        assert(r is Some ==> self.pending() =~= old(self).pending().drop_first());
        r
    }

    /// What an entry of `dir` adds to the walk.
    fn screen(&self, dir: &Item, entry: DirEntry) -> (r: Option<Item>)
        ensures
            match r {
                Some(item) => admitted(self.rules(), dir@, entry@) == Some(item@),
                None => admitted(self.rules(), dir@, entry@) is None,
            },
    {
        let (name, kind) = match (entry.name, entry.kind) {
            (Some(n), Some(k)) => (n, k),
            _ => {
                return None;
            },
        };
        let chars = chars_of(name.as_str());
        if chars.len() > 0 && chars[0] == '.' {
            return None;
        }
        let abs = join(dir.abs.as_slice(), name.as_str().as_bytes());
        let is_dir = match kind {
            EntryKind::Dir => {
                let mut i: usize = 0;
                #[verifier::loop_isolation(false)]
                while i < self.prune.len()
                    invariant
                        i <= self.prune@.len(),
                        forall|k: int|
                            0 <= k < i ==> !under(abs@, #[trigger] slice_views(self.prune@)[k]),
                    decreases self.prune@.len() - i,
                {
                    if is_under(abs.as_slice(), self.prune[i]) {
                        assert(under(abs@, self.rules().prune[i as int]));
                        return None;
                    }
                    i = i + 1;
                }
                true
            },
            EntryKind::File => {
                if !has_allowed_ext(self.cfg, name.as_str()) {
                    return None;
                }
                false
            },
            _ => {
                return None;
            },
        };
        let rel = if dir.rel.as_str().is_empty() {
            name
        } else {
            dir.rel.clone().concat("/").concat(name.as_str())
        };
        Some(Item { rel, abs, dir: is_dir })
    }

    /// Put what a directory holds in front of what is pending.
    pub(crate) fn add(&mut self, dir: &Item, entries: Vec<DirEntry>)
        ensures
            final(self).cfg() == old(self).cfg(),
            final(self).rules() == old(self).rules(),
            final(self).pending() == additions(old(self).rules(), dir@, entry_views(entries@))
                + old(self).pending(),
    {
        let ghost all = entry_views(entries@);
        let ghost rules = self.rules();
        let mut rest = entries;
        assert(all.take(rest@.len() as int) =~= all);
        // The stack is read from its end, so the entries go on it in reverse.
        while rest.len() > 0
            invariant
                self.cfg() == old(self).cfg(),
                self.rules() == rules,
                rules == old(self).rules(),
                rest@.len() <= all.len(),
                entry_views(rest@) =~= all.take(rest@.len() as int),
                additions(rules, dir@, all.take(rest@.len() as int)) + self.pending()
                    =~= additions(rules, dir@, all) + old(self).pending(),
            decreases rest@.len(),
        {
            let ghost before = all.take(rest@.len() as int);
            let ghost pending = self.pending();
            let entry = match rest.pop() {
                Some(e) => e,
                None => {
                    return;
                },
            };
            assert(before.last() == entry@);
            assert(before.drop_last() =~= all.take(rest@.len() as int));
            match self.screen(dir, entry) {
                Some(item) => {
                    self.stack.push(item);
                    assert(self.pending() =~= seq![item@] + pending);
                },
                None => {},
            }
        }
    }
}

/// Whether `a` is shown before `b`.
pub open spec fn shown_before(order: Order, a: Seq<char>, b: Seq<char>) -> bool {
    match order {
        Order::Asc => text_lt(a, b),
        Order::Desc => text_lt(b, a),
    }
}

/// Whether `rel` comes after the image shown last.
pub open spec fn is_eligible(order: Order, after: Option<Seq<char>>, rel: Seq<char>) -> bool {
    match after {
        Some(a) => shown_before(order, a, rel),
        None => true,
    }
}

/// Whether `found` is the first of the images that come after `after`, or
/// nothing because none does.
pub open spec fn is_next(
    order: Order,
    after: Option<Seq<char>>,
    images: Seq<Seq<char>>,
    found: Option<Seq<char>>,
) -> bool {
    match found {
        Some(best) => {
            &&& images.contains(best)
            &&& is_eligible(order, after, best)
            &&& forall|i: int|
                0 <= i < images.len() && is_eligible(order, after, #[trigger] images[i])
                    ==> images[i] == best || shown_before(order, best, images[i])
        },
        None => forall|i: int|
            0 <= i < images.len() ==> !is_eligible(order, after, #[trigger] images[i]),
    }
}

/// The best image so far after one more.
pub open spec fn considered(
    rel: Seq<char>,
    after: Option<Seq<char>>,
    order: Order,
    best: Option<Seq<char>>,
) -> Option<Seq<char>> {
    if !is_eligible(order, after, rel) {
        best
    } else {
        match best {
            Some(b) => if shown_before(order, rel, b) {
                Some(rel)
            } else {
                best
            },
            None => Some(rel),
        }
    }
}

/// Whether `a` is shown before `b`.
fn comes_before(order: Order, a: &str, b: &str) -> (r: bool)
    ensures
        r == shown_before(order, a@, b@),
{
    match order {
        Order::Asc => text_before(a, b),
        Order::Desc => text_before(b, a),
    }
}

/// Take `rel` as the best image if it is eligible and better than the best so
/// far.
pub fn consider(rel: &str, after: Option<&str>, order: Order, best: &mut Option<String>)
    ensures
        opt_text(*final(best)) == considered(rel@, opt_str(after), order, opt_text(*old(best))),
{
    let eligible = match after {
        Some(a) => comes_before(order, a, rel),
        None => true,
    };
    if !eligible {
        return;
    }
    let better = match best.as_ref() {
        Some(b) => comes_before(order, rel, b.as_str()),
        None => true,
    };
    if better {
        *best = Some(rel.to_owned());
    }
}

/// Considering one more image keeps the best one the next.
proof fn considering_keeps_next(
    order: Order,
    after: Option<Seq<char>>,
    images: Seq<Seq<char>>,
    best: Option<Seq<char>>,
    rel: Seq<char>,
)
    requires
        is_next(order, after, images, best),
    ensures
        is_next(order, after, images.push(rel), considered(rel, after, order, best)),
{
    let all = images.push(rel);
    let new = considered(rel, after, order, best);
    assert(all[images.len() as int] == rel);
    match new {
        Some(b) => {
            assert(all.contains(b)) by {
                if b == rel {
                    assert(all[images.len() as int] == b);
                } else {
                    let k = choose|k: int| 0 <= k < images.len() && images[k] == b;
                    assert(all[k] == b);
                }
            }
            assert forall|i: int|
                0 <= i < all.len() && is_eligible(order, after, #[trigger] all[i]) implies all[i]
                == b || shown_before(order, b, all[i]) by {
                text_lt_total(rel, all[i]);
                if best is Some {
                    let o = best->0;
                    text_lt_total(o, rel);
                    if i < images.len() {
                        assert(images[i] == all[i]);
                        if b == rel && all[i] != o && b != o {
                            match order {
                                Order::Asc => text_lt_transitive(rel, o, all[i]),
                                Order::Desc => text_lt_transitive(all[i], o, rel),
                            }
                        }
                    }
                } else if i < images.len() {
                    assert(images[i] == all[i]);
                }
            }
        },
        None => {
            assert forall|i: int| 0 <= i < all.len() implies !is_eligible(
                order,
                after,
                #[trigger] all[i],
            ) by {
                if i < images.len() {
                    assert(images[i] == all[i]);
                }
            }
        },
    }
}

/// Whether two collections hold the same texts.
pub open spec fn same_texts(a: Seq<Seq<char>>, b: Seq<Seq<char>>) -> bool {
    forall|t: Seq<char>| #[trigger] a.contains(t) <==> b.contains(t)
}

/// The next image is settled by the images, the order and the one shown last.
pub proof fn next_is_unique(
    order: Order,
    after: Option<Seq<char>>,
    images: Seq<Seq<char>>,
    a: Option<Seq<char>>,
    b: Option<Seq<char>>,
)
    requires
        is_next(order, after, images, a),
        is_next(order, after, images, b),
    ensures
        a == b,
{
    match (a, b) {
        (Some(x), Some(y)) => {
            let i = choose|i: int| 0 <= i < images.len() && images[i] == x;
            let j = choose|j: int| 0 <= j < images.len() && images[j] == y;
            assert(is_eligible(order, after, images[i]));
            assert(is_eligible(order, after, images[j]));
            if x != y {
                match order {
                    Order::Asc => text_lt_asymmetric(x, y),
                    Order::Desc => text_lt_asymmetric(y, x),
                }
            }
        },
        (Some(x), None) => {
            let i = choose|i: int| 0 <= i < images.len() && images[i] == x;
            assert(is_eligible(order, after, images[i]));
        },
        (None, Some(y)) => {
            let j = choose|j: int| 0 <= j < images.len() && images[j] == y;
            assert(is_eligible(order, after, images[j]));
        },
        (None, None) => {},
    }
}

/// The image shown last need not be there any more: moving it away, or putting
/// it back, does not change which image is next after it.
pub proof fn next_ignores_the_one_shown(
    order: Order,
    shown: Seq<char>,
    images: Seq<Seq<char>>,
    others: Seq<Seq<char>>,
    found: Option<Seq<char>>,
)
    requires
        is_next(order, Some(shown), images, found),
        forall|t: Seq<char>| t != shown ==> (#[trigger] images.contains(t) <==> others.contains(t)),
    ensures
        is_next(order, Some(shown), others, found),
{
    text_lt_irreflexive(shown);
    assert forall|i: int|
        0 <= i < others.len() && is_eligible(order, Some(shown), #[trigger] others[i]) implies match found {
        Some(best) => others[i] == best || shown_before(order, best, others[i]),
        None => false,
    } by {
        let t = others[i];
        assert(others.contains(t));
        assert(images.contains(t));
        let k = choose|k: int| 0 <= k < images.len() && images[k] == t;
        assert(is_eligible(order, Some(shown), images[k]));
    }
    if found is Some {
        assert(images.contains(found->0));
    }
}

/// The text at `at`, if there is one.
pub open spec fn text_at(texts: Seq<Seq<char>>, at: int) -> Option<Seq<char>> {
    if 0 <= at < texts.len() {
        Some(texts[at])
    } else {
        None
    }
}

/// Where the image after the one at `at` is in the ascending list of all images.
/// Before anything is shown, `at` is just outside the list.
pub open spec fn neighbour(order: Order, at: int) -> int {
    match order {
        Order::Asc => at + 1,
        Order::Desc => at - 1,
    }
}

/// After each image comes its neighbour, and after the last comes none.
proof fn neighbour_is_next(
    order: Order,
    images: Seq<Seq<char>>,
    sorted: Seq<Seq<char>>,
    at: int,
)
    requires
        ascending(sorted),
        same_texts(images, sorted),
        0 <= at < sorted.len() || (order == Order::Asc && at == -1) || (order == Order::Desc && at
            == sorted.len()),
    ensures
        is_next(order, text_at(sorted, at), images, text_at(sorted, neighbour(order, at))),
{
    let after = text_at(sorted, at);
    let next = neighbour(order, at);
    let found = text_at(sorted, next);
    assert forall|k: int|
        0 <= k < images.len() && is_eligible(order, after, #[trigger] images[k]) implies match found {
        Some(best) => images[k] == best || shown_before(order, best, images[k]),
        None => false,
    } by {
        let t = images[k];
        assert(images.contains(t));
        assert(sorted.contains(t));
        let m = choose|m: int| 0 <= m < sorted.len() && sorted[m] == t;
        if after is Some {
            text_lt_irreflexive(t);
            if m < at {
                text_lt_asymmetric(sorted[m], sorted[at]);
            } else if m > at {
                text_lt_asymmetric(sorted[at], sorted[m]);
            }
        }
    }
    if found is Some {
        assert(sorted.contains(sorted[next]));
        assert(images.contains(sorted[next]));
    }
}

/// Showing images one after another goes through them in ascending order, or in
/// descending order, and leaves none out: with nothing shown yet the next is the
/// first, after each image comes its neighbour, and after the last comes none.
pub proof fn next_follows_sorted_order(
    order: Order,
    images: Seq<Seq<char>>,
    sorted: Seq<Seq<char>>,
    at: int,
    found: Option<Seq<char>>,
)
    requires
        ascending(sorted),
        same_texts(images, sorted),
        0 <= at < sorted.len() || (order == Order::Asc && at == -1) || (order == Order::Desc && at
            == sorted.len()),
        is_next(order, text_at(sorted, at), images, found),
    ensures
        found == text_at(sorted, neighbour(order, at)),
{
    neighbour_is_next(order, images, sorted, at);
    next_is_unique(
        order,
        text_at(sorted, at),
        images,
        found,
        text_at(sorted, neighbour(order, at)),
    );
}

/// Whether `run` is what is shown if one image after another is asked for, the
/// first with nothing shown yet, each further one after the one before, until
/// there is none.
pub open spec fn is_run(order: Order, images: Seq<Seq<char>>, run: Seq<Seq<char>>) -> bool {
    forall|i: int|
        0 <= i <= run.len() ==> is_next(
            order,
            text_at(run, i - 1),
            images,
            #[trigger] text_at(run, i),
        )
}

/// A list with a text put in its place in the ascending order.
proof fn put_in_place(sorted: Seq<Seq<char>>, t: Seq<char>) -> (r: Seq<Seq<char>>)
    requires
        ascending(sorted),
    ensures
        ascending(r),
        forall|x: Seq<char>| #[trigger] r.contains(x) <==> x == t || sorted.contains(x),
    decreases sorted.len(),
{
    if sorted.len() == 0 {
        let r = seq![t];
        assert(r[0] == t);
        r
    } else {
        let last = sorted.last();
        let rest = sorted.drop_last();
        assert forall|x: Seq<char>| #[trigger] sorted.contains(x) <==> x == last || rest.contains(
            x,
        ) by {
            if sorted.contains(x) {
                let k = choose|k: int| 0 <= k < sorted.len() && sorted[k] == x;
                if k < rest.len() {
                    assert(rest[k] == x);
                }
            }
            if rest.contains(x) {
                let k = choose|k: int| 0 <= k < rest.len() && rest[k] == x;
                assert(sorted[k] == x);
            }
            assert(sorted[sorted.len() - 1] == last);
        }
        text_lt_total(last, t);
        if t == last {
            sorted
        } else {
            let (front, end) = if text_lt(last, t) {
                (sorted, t)
            } else {
                (put_in_place(rest, t), last)
            };
            let r = front.push(end);
            assert forall|x: Seq<char>| #[trigger] r.contains(x) <==> x == t || sorted.contains(
                x,
            ) by {
                if r.contains(x) {
                    let k = choose|k: int| 0 <= k < r.len() && r[k] == x;
                    if k < front.len() {
                        assert(front.contains(front[k]));
                    }
                }
                if front.contains(x) {
                    let k = choose|k: int| 0 <= k < front.len() && front[k] == x;
                    assert(r[k] == x);
                }
                assert(r[front.len() as int] == end);
            }
            assert forall|i: int, j: int| 0 <= i < j < r.len() implies text_lt(
                #[trigger] r[i],
                #[trigger] r[j],
            ) by {
                if j == front.len() {
                    assert(front.contains(front[i]));
                    if text_lt(last, t) {
                        if i < sorted.len() - 1 {
                            text_lt_transitive(sorted[i], last, t);
                        }
                    } else if front[i] != t {
                        let k = choose|k: int| 0 <= k < rest.len() && rest[k] == front[i];
                        assert(sorted[k] == front[i]);
                    }
                }
            }
            r
        }
    }
}

/// The texts of a list in ascending order, each of them once.
proof fn put_in_order(images: Seq<Seq<char>>) -> (sorted: Seq<Seq<char>>)
    ensures
        ascending(sorted),
        same_texts(images, sorted),
    decreases images.len(),
{
    if images.len() == 0 {
        let none = Seq::<Seq<char>>::empty();
        assert forall|t: Seq<char>| #[trigger] images.contains(t) <==> none.contains(t) by {}
        none
    } else {
        let rest = images.drop_last();
        let front = put_in_order(rest);
        let sorted = put_in_place(front, images.last());
        assert forall|t: Seq<char>| #[trigger] images.contains(t) <==> sorted.contains(t) by {
            if images.contains(t) {
                let k = choose|k: int| 0 <= k < images.len() && images[k] == t;
                if k < rest.len() {
                    assert(rest[k] == t);
                }
            }
            if rest.contains(t) {
                let k = choose|k: int| 0 <= k < rest.len() && rest[k] == t;
                assert(images[k] == t);
            }
            assert(images[images.len() - 1] == images.last());
        }
        sorted
    }
}

/// Asking for one image after another, from none until none, shows every image
/// exactly once, in strictly ascending order or in strictly descending order,
/// one the reverse of the other.
pub proof fn run_shows_every_image_once(images: Seq<Seq<char>>) -> (all: Seq<Seq<char>>)
    ensures
        ascending(all),
        all.no_duplicates(),
        same_texts(images, all),
        is_run(Order::Asc, images, all),
        is_run(Order::Desc, images, all.reverse()),
        forall|run: Seq<Seq<char>>| #[trigger] is_run(Order::Asc, images, run) ==> run == all,
        forall|run: Seq<Seq<char>>| #[trigger]
            is_run(Order::Desc, images, run) ==> run == all.reverse(),
{
    let all = put_in_order(images);
    let back = all.reverse();
    let n = all.len() as int;
    assert forall|i: int, j: int| 0 <= i < n && 0 <= j < n && i != j implies all[i] != all[j] by {
        if i < j {
            text_lt_asymmetric(all[i], all[j]);
        } else {
            text_lt_asymmetric(all[j], all[i]);
        }
    }
    assert forall|i: int| 0 <= i <= n implies is_next(
        Order::Asc,
        text_at(all, i - 1),
        images,
        #[trigger] text_at(all, i),
    ) by {
        neighbour_is_next(Order::Asc, images, all, i - 1);
    }
    assert forall|i: int| 0 <= i <= n implies is_next(
        Order::Desc,
        text_at(back, i - 1),
        images,
        #[trigger] text_at(back, i),
    ) by {
        neighbour_is_next(Order::Desc, images, all, n - i);
        assert(text_at(back, i) == text_at(all, n - 1 - i));
        assert(text_at(back, i - 1) == text_at(all, n - i));
    }
    assert forall|run: Seq<Seq<char>>| #[trigger] is_run(Order::Asc, images, run) implies run
        == all by {
        run_goes_through(Order::Asc, images, all, run, run.len() as int);
        assert(run =~= all);
    }
    assert forall|run: Seq<Seq<char>>| #[trigger] is_run(Order::Desc, images, run) implies run
        == back by {
        run_goes_through(Order::Desc, images, all, run, run.len() as int);
        assert(run =~= back);
    }
    all
}

/// The first `k` that a run shows are the first `k` of the list in that order,
/// and the run ends where the list does.
proof fn run_goes_through(
    order: Order,
    images: Seq<Seq<char>>,
    sorted: Seq<Seq<char>>,
    run: Seq<Seq<char>>,
    k: int,
)
    requires
        ascending(sorted),
        same_texts(images, sorted),
        is_run(order, images, run),
        0 <= k <= run.len(),
    ensures
        k <= sorted.len(),
        k == run.len() ==> k == sorted.len(),
        forall|i: int|
            0 <= i < k ==> #[trigger] run[i] == sorted[if order == Order::Asc {
                i
            } else {
                sorted.len() - 1 - i
            }],
    decreases k,
{
    let n = sorted.len() as int;
    let place = |i: int|
        if order == Order::Asc {
            i
        } else {
            n - 1 - i
        };
    if k > 0 {
        run_goes_through(order, images, sorted, run, k - 1);
        assert(text_at(run, k - 2) == text_at(sorted, place(k - 2)));
        assert(is_next(order, text_at(run, k - 2), images, text_at(run, k - 1)));
        next_follows_sorted_order(order, images, sorted, place(k - 2), text_at(run, k - 1));
    }
    if k == run.len() {
        if k > 0 {
            assert(run[k - 1] == sorted[place(k - 1)]);
        }
        assert(text_at(run, k - 1) == text_at(sorted, place(k - 1)));
        assert(is_next(order, text_at(run, k - 1), images, text_at(run, k)));
        next_follows_sorted_order(order, images, sorted, place(k - 1), text_at(run, k));
    }
}

/// How many images are ahead is settled by where the first directory is.
pub(crate) proof fn images_ahead_is(pending: Seq<ItemView>, k: nat)
    requires
        k <= pending.len(),
        forall|i: int| 0 <= i < k ==> !(#[trigger] pending[i]).dir,
        k == pending.len() || pending[k as int].dir,
    ensures
        images_ahead(pending) == k,
    decreases pending.len(),
{
    if k > 0 {
        assert forall|i: int| 0 <= i < k - 1 implies !(#[trigger] pending.drop_first()[i]).dir by {
            assert(pending.drop_first()[i] == pending[i + 1]);
        }
        images_ahead_is(pending.drop_first(), (k - 1) as nat);
    }
}

/// The root of a walk.
pub open spec fn root_item(abs: Seq<u8>) -> ItemView {
    ItemView { rel: Seq::empty(), abs, dir: true }
}

/// What a walk of the source goes by.
pub open spec fn source_rules(cfg: Config) -> Rules {
    Rules {
        extensions: views(cfg.extensions@),
        prune: seq![cfg.keep_dir@, cfg.trash_dir@],
    }
}

/// What a walk of the kept images goes by.
pub open spec fn keep_rules(cfg: Config) -> Rules {
    Rules { extensions: views(cfg.extensions@), prune: Seq::empty() }
}

/// A walk of the source, with nothing pending.
fn source_walk<'a>(cfg: &'a Config) -> (r: Walk<'a>)
    ensures
        r.cfg() == *cfg,
        r.rules() == source_rules(*cfg),
        r.pending() == Seq::<ItemView>::empty(),
{
    let mut prune: Vec<&'a [u8]> = Vec::new();
    prune.push(cfg.keep_dir.as_slice());
    prune.push(cfg.trash_dir.as_slice());
    assert(slice_views(prune@) =~= seq![cfg.keep_dir@, cfg.trash_dir@]);
    Walk::new(cfg, prune)
}

/// The item that a walk starts from.
pub(crate) fn start_at(root: &Vec<u8>) -> (r: Item)
    ensures
        r@ == root_item(root@),
{
    let rel = String::new();
    assert(rel@ =~= Seq::<char>::empty());
    Item { rel, abs: copy_bytes(root.as_slice()), dir: true }
}

/// A search for the next image, waiting for a directory to be read.
pub struct FindNext<'a> {
    walk: Walk<'a>,
    dir: Item,
    after: Option<String>,
    best: Option<String>,
    seen: Ghost<Seq<Seq<char>>>,
}

/// What a search for the next image needs.
pub enum FindStep<'a> {
    /// Read a directory.
    ReadDir(FindNext<'a>),
    /// Nothing more: this is the next image, or none is left.
    Done(Option<String>),
    /// Nothing more: a directory could not be read.
    Failed,
}

impl<'a> FindNext<'a> {
    #[verifier::type_invariant]
    spec fn best_is_next(self) -> bool {
        is_next(self.walk.cfg().order, opt_text(self.after), self.seen@, opt_text(self.best))
    }

    pub closed spec fn cfg(self) -> Config {
        self.walk.cfg()
    }

    pub closed spec fn rules(self) -> Rules {
        self.walk.rules()
    }

    /// The image shown last.
    pub closed spec fn after(self) -> Option<Seq<char>> {
        opt_text(self.after)
    }

    /// The directory to read.
    pub closed spec fn reading(self) -> ItemView {
        self.dir@
    }

    /// What comes after that directory.
    pub closed spec fn pending(self) -> Seq<ItemView> {
        self.walk.pending()
    }

    /// The images that the search has come to.
    pub closed spec fn seen(self) -> Seq<Seq<char>> {
        self.seen@
    }

    /// The directory to read.
    pub fn dir(&self) -> (r: &Vec<u8>)
        ensures
            r@ == self.reading().abs,
    {
        &self.dir.abs
    }

    /// Go on, knowing what the directory holds: look at the images up to the
    /// next directory. A directory that is gone by now holds nothing.
    pub fn listed(self, listing: Listing) -> (r: FindStep<'a>)
        ensures
            ({
                let p = pending_after(self.rules(), self.reading(), self.pending(), listing);
                let k = images_ahead(p) as int;
                let seen = self.seen() + rels(p.take(k));
                match r {
                    FindStep::Failed => listing is Failed,
                    FindStep::Done(found) => listing !is Failed && k == p.len() && is_next(
                        self.cfg().order,
                        self.after(),
                        seen,
                        opt_text(found),
                    ),
                    FindStep::ReadDir(next) => {
                        &&& listing !is Failed
                        &&& k < p.len()
                        &&& next.cfg() == self.cfg()
                        &&& next.rules() == self.rules()
                        &&& next.after() == self.after()
                        &&& next.reading() == p[k]
                        &&& next.pending() == p.skip(k + 1)
                        &&& next.seen() == seen
                    },
                }
            }),
    {
        proof {
            use_type_invariant(&self);
        }
        let ghost p = pending_after(self.rules(), self.reading(), self.pending(), listing);
        let ghost before = self.seen@;
        let ghost cfg = self.cfg();
        let ghost rules = self.rules();
        let FindNext { walk, dir, after, best, seen } = self;
        let mut walk = walk;
        let mut best = best;
        let mut seen = seen;
        match listing {
            Listing::Failed => {
                return FindStep::Failed;
            },
            Listing::NotFound => {},
            Listing::Entries(entries) => {
                walk.add(&dir, entries);
            },
        }
        let ghost mut k: int = 0;
        assert(p.skip(0) =~= p);
        assert(before + rels(p.take(0)) =~= before);
        loop
            invariant
                0 <= k <= p.len(),
                walk.cfg() == cfg,
                walk.rules() == rules,
                walk.pending() == p.skip(k),
                forall|i: int| 0 <= i < k ==> !(#[trigger] p[i]).dir,
                seen@ == before + rels(p.take(k)),
                is_next(cfg.order, opt_text(after), seen@, opt_text(best)),
                listing !is Failed,
                p == pending_after(self.rules(), self.reading(), self.pending(), listing),
                before == self.seen(),
                cfg == self.cfg(),
                rules == self.rules(),
                opt_text(after) == self.after(),
            decreases walk.pending().len(),
        {
            match walk.take() {
                None => {
                    proof {
                        images_ahead_is(p, k as nat);
                    }
                    return FindStep::Done(best);
                },
                Some(item) => {
                    assert(item@ == p[k]);
                    assert(p.skip(k).drop_first() =~= p.skip(k + 1));
                    if item.dir {
                        proof {
                            images_ahead_is(p, k as nat);
                        }
                        return FindStep::ReadDir(FindNext { walk, dir: item, after, best, seen });
                    }
                    proof {
                        considering_keeps_next(
                            cfg.order,
                            opt_text(after),
                            seen@,
                            opt_text(best),
                            item.rel@,
                        );
                    }
                    let last = match &after {
                        Some(a) => Some(a.as_str()),
                        None => None,
                    };
                    consider(item.rel.as_str(), last, walk.order(), &mut best);
                    proof {
                        seen@ = seen@.push(item.rel@);
                        assert(seen@ =~= before + rels(p.take(k + 1)));
                        k = k + 1;
                    }
                },
            }
        }
    }
}

/// Find the next image to show: the first after `after` in the configured
/// order, or the first of all. Starts with the source directory.
pub fn find_next<'a>(cfg: &'a Config, after: Option<&str>) -> (r: FindStep<'a>)
    ensures
        r matches FindStep::ReadDir(s) && {
            &&& s.cfg() == *cfg
            &&& s.rules() == source_rules(*cfg)
            &&& s.after() == opt_str(after)
            &&& s.reading() == root_item(cfg.source_dir@)
            &&& s.pending() == Seq::<ItemView>::empty()
            &&& s.seen() == Seq::<Seq<char>>::empty()
        },
{
    let after = match after {
        Some(a) => Some(a.to_owned()),
        None => None,
    };
    FindStep::ReadDir(
        FindNext {
            walk: source_walk(cfg),
            dir: start_at(&cfg.source_dir),
            after,
            best: None,
            seen: Ghost(Seq::empty()),
        },
    )
}

/// How many entries a listing has.
pub open spec fn listing_len(listing: Listing) -> nat {
    match listing {
        Listing::Entries(v) => v@.len(),
        _ => 0,
    }
}

/// A directory adds at most one item for each of its entries.
pub(crate) proof fn additions_bounded(rules: Rules, dir: ItemView, entries: Seq<EntryView>)
    ensures
        additions(rules, dir, entries).len() <= entries.len(),
    decreases entries.len(),
{
    if entries.len() > 0 {
        additions_bounded(rules, dir, entries.drop_last());
    }
}

/// A count of the backlog, waiting for a directory to be read.
pub struct CountBacklog<'a> {
    walk: Walk<'a>,
    dir: Item,
    count: usize,
}

/// What a count of the backlog needs.
pub enum CountStep<'a> {
    /// Read a directory.
    ReadDir(CountBacklog<'a>),
    /// Nothing more: this many images are left.
    Done(usize),
    /// Nothing more: a directory could not be read.
    Failed,
}

impl<'a> CountBacklog<'a> {
    pub closed spec fn rules(self) -> Rules {
        self.walk.rules()
    }

    /// The directory to read.
    pub closed spec fn reading(self) -> ItemView {
        self.dir@
    }

    /// What comes after that directory.
    pub closed spec fn pending(self) -> Seq<ItemView> {
        self.walk.pending()
    }

    /// How many images the count has come to.
    pub closed spec fn counted(self) -> nat {
        self.count as nat
    }

    /// The directory to read.
    pub fn dir(&self) -> (r: &Vec<u8>)
        ensures
            r@ == self.reading().abs,
    {
        &self.dir.abs
    }

    /// Whether the count stays in range if everything that is pending and
    /// everything in the listing is an image.
    pub fn fits(&self, listing: &Listing) -> (r: bool)
        ensures
            r == (self.counted() + self.pending().len() + listing_len(*listing) <= usize::MAX),
    {
        let more: usize = match listing {
            Listing::Entries(v) => v.len(),
            _ => 0,
        };
        match self.count.checked_add(self.walk.len()) {
            Some(n) => n.checked_add(more).is_some(),
            None => false,
        }
    }

    /// Go on, knowing what the directory holds: count the images up to the next
    /// directory. A directory that is gone by now holds nothing.
    pub fn listed(self, listing: Listing) -> (r: CountStep<'a>)
        requires
            self.counted() + self.pending().len() + listing_len(listing) <= usize::MAX,
        ensures
            ({
                let p = pending_after(self.rules(), self.reading(), self.pending(), listing);
                let k = images_ahead(p) as int;
                match r {
                    CountStep::Failed => listing is Failed,
                    CountStep::Done(n) => listing !is Failed && k == p.len() && n
                        == self.counted() + k,
                    CountStep::ReadDir(next) => {
                        &&& listing !is Failed
                        &&& k < p.len()
                        &&& next.rules() == self.rules()
                        &&& next.reading() == p[k]
                        &&& next.pending() == p.skip(k + 1)
                        &&& next.counted() == self.counted() + k
                    },
                }
            }),
    {
        let ghost p = pending_after(self.rules(), self.reading(), self.pending(), listing);
        let ghost before = self.count as int;
        let ghost rules = self.rules();
        proof {
            if listing is Entries {
                additions_bounded(rules, self.reading(), entry_views(listing->Entries_0@));
            }
        }
        let CountBacklog { walk, dir, count } = self;
        let mut walk = walk;
        let mut count = count;
        match listing {
            Listing::Failed => {
                return CountStep::Failed;
            },
            Listing::NotFound => {},
            Listing::Entries(entries) => {
                walk.add(&dir, entries);
            },
        }
        let ghost mut k: int = 0;
        assert(p.skip(0) =~= p);
        loop
            invariant
                0 <= k <= p.len(),
                walk.rules() == rules,
                walk.pending() == p.skip(k),
                forall|i: int| 0 <= i < k ==> !(#[trigger] p[i]).dir,
                count == before + k,
                before + p.len() <= usize::MAX,
                listing !is Failed,
                p == pending_after(self.rules(), self.reading(), self.pending(), listing),
                before == self.counted(),
                rules == self.rules(),
            decreases walk.pending().len(),
        {
            match walk.take() {
                None => {
                    proof {
                        images_ahead_is(p, k as nat);
                    }
                    return CountStep::Done(count);
                },
                Some(item) => {
                    assert(item@ == p[k]);
                    assert(p.skip(k).drop_first() =~= p.skip(k + 1));
                    if item.dir {
                        proof {
                            images_ahead_is(p, k as nat);
                        }
                        return CountStep::ReadDir(CountBacklog { walk, dir: item, count });
                    }
                    count = count + 1;
                    proof {
                        k = k + 1;
                    }
                },
            }
        }
    }
}

/// Count the images that are left. Starts with the source directory.
pub fn count_backlog<'a>(cfg: &'a Config) -> (r: CountStep<'a>)
    ensures
        r matches CountStep::ReadDir(s) && {
            &&& s.rules() == source_rules(*cfg)
            &&& s.reading() == root_item(cfg.source_dir@)
            &&& s.pending() == Seq::<ItemView>::empty()
            &&& s.counted() == 0
        },
{
    CountStep::ReadDir(
        CountBacklog { walk: source_walk(cfg), dir: start_at(&cfg.source_dir), count: 0 },
    )
}

} // verus!
